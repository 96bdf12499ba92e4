//! The resolved module dependency graph, consumed read-only by chunking:
//! module lookup and each module's precomputed content hash.

use vstd::prelude::*;
use crate::module::Module;
use crate::module::ModuleId;
use crate::module::no_dup;

verus! {

pub struct ModuleGraph {
    pub modules: Vec<Module>,
}

impl ModuleGraph {
    /// The ids of the resolved modules, in resolution order.
    pub open spec fn module_ids(&self) -> Seq<Seq<char>> {
        self.modules@.map_values(|m: Module| m.id@)
    }

    /// Well-formed: each module resolved once.
    pub open spec fn wf(&self) -> bool {
        no_dup(self.module_ids())
    }

    pub open spec fn contains_id(&self, id: Seq<char>) -> bool {
        self.module_ids().contains(id)
    }

    /// The module with the given id (meaningful when `contains_id` holds and
    /// the graph is well-formed).
    pub open spec fn module_for(&self, id: Seq<char>) -> Module {
        self.modules@[choose|i: int|
            0 <= i < self.modules@.len() && self.modules@[i].id@ == id]
    }

    /// Fully resolved: every dependency edge points at a module of the
    /// graph. Grouping assumes a frozen, fully resolved graph.
    pub open spec fn fully_resolved(&self) -> bool {
        forall|i: int, j: int|
            0 <= i < self.modules@.len() && 0 <= j < self.modules@[i].deps@.len()
                ==> self.contains_id(#[trigger] self.modules@[i].deps@[j].target@)
    }

    /// The module is present and carries its precomputed content hash.
    pub open spec fn has_hash(&self, id: Seq<char>) -> bool {
        self.contains_id(id) && self.module_for(id).info is Some
    }

    pub open spec fn raw_hash_of(&self, id: Seq<char>) -> u64 {
        self.module_for(id).info->Some_0.raw_hash
    }

    pub fn new() -> (r: Self)
        ensures
            r.module_ids() == Seq::<Seq<char>>::empty(),
            r.wf(),
    {
        let r = ModuleGraph { modules: Vec::new() };
        proof {
            assert(r.module_ids() =~= Seq::<Seq<char>>::empty());
        }
        r
    }

    /// Records one resolved module; its id must be new.
    pub fn add_module(&mut self, m: Module)
        requires
            old(self).wf(),
            !old(self).contains_id(m.id@),
        ensures
            final(self).modules@ == old(self).modules@.push(m),
            final(self).module_ids() == old(self).module_ids().push(m.id@),
            final(self).wf(),
    {
        self.modules.push(m);
        proof {
            assert(self.module_ids() =~= old(self).module_ids().push(m.id@));
            let ids = self.module_ids();
            let n = ids.len() - 1;
            assert forall|i: int, j: int| 0 <= i < j < ids.len() implies ids[i] != ids[j] by {
                if j == n {
                    assert(old(self).module_ids()[i] == ids[i]);
                    if ids[i] == m.id@ {
                        assert(old(self).module_ids()[i] == m.id@);
                        assert(old(self).contains_id(m.id@));
                    }
                } else {
                    assert(old(self).module_ids()[i] == ids[i]);
                    assert(old(self).module_ids()[j] == ids[j]);
                }
            }
        }
    }

    /// Looks a module up by id.
    pub fn get_module(&self, id: &ModuleId) -> (r: Option<&Module>)
        requires
            self.wf(),
        ensures
            match r {
                Some(m) => self.contains_id(id@) && *m == self.module_for(id@),
                None => !self.contains_id(id@),
            },
    {
        let n = self.modules.len();
        let mut i: usize = 0;
        while i < n
            invariant
                self.wf(),
                i <= n,
                n == self.modules@.len(),
                forall|j: int| 0 <= j < i ==> self.module_ids()[j] != id@,
            decreases n - i,
        {
            if self.modules[i].id.same_id(id) {
                proof {
                    assert(self.module_ids()[i as int] == id@);
                    assert(self.contains_id(id@));
                    let j = choose|j: int|
                        0 <= j < self.modules@.len() && self.modules@[j].id@ == id@;
                    if j != i {
                        assert(self.module_ids()[j] == self.module_ids()[i as int]);
                        assert(false);
                    }
                }
                return Some(&self.modules[i]);
            }
            i += 1;
        }
        proof {
            if self.contains_id(id@) {
                let j = choose|j: int|
                    0 <= j < self.module_ids().len() && self.module_ids()[j] == id@;
                assert(false);
            }
        }
        None
    }

    pub fn module_count(&self) -> (r: usize)
        ensures
            r == self.module_ids().len(),
    {
        self.modules.len()
    }
}

} // verus!
