//! An arena of cortex nodes addressed by identifiers that are issued once,
//! in increasing order, starting at 1.

use std::collections::HashMap;
use vstd::prelude::*;

verus! {

broadcast use vstd::std_specs::hash::group_hash_axioms;

/// Nodes keyed by the identifier they were created under.
pub struct NodeArena<N> {
    nodes: HashMap<usize, N>,
    order: Vec<usize>,
    next_id: usize,
}

impl<N> View for NodeArena<N> {
    type V = Map<usize, N>;

    /// The live nodes by identifier.
    closed spec fn view(&self) -> Map<usize, N> {
        self.nodes@
    }
}

/// `s` is strictly increasing.
pub open spec fn strictly_increasing(s: Seq<usize>) -> bool {
    forall|i: int, j: int| 0 <= i < j < s.len() ==> s[i] < s[j]
}

impl<N> NodeArena<N> {
    /// The identifier that the next created node receives.
    pub closed spec fn issued(&self) -> nat {
        self.next_id as nat
    }

    /// The arena's invariant: identifiers are positive, below the next one to
    /// be issued, and `order` lists exactly the live identifiers in ascending order.
    pub closed spec fn wf(&self) -> bool {
        &&& 1 <= self.next_id
        &&& strictly_increasing(self.order@)
        &&& forall|i: int| 0 <= i < self.order@.len() ==> 0 < #[trigger] self.order@[i] < self.next_id
        &&& forall|k: usize| #[trigger] self.nodes@.contains_key(k) <==> self.order@.contains(k)
        &&& self.nodes@.dom().finite()
    }

    /// Live identifiers are positive and were issued before.
    pub proof fn lemma_live_ids_issued(&self, k: usize)
        requires
            self.wf(),
            self@.contains_key(k),
        ensures
            0 < k < self.issued(),
    {
        assert(self.order@.contains(k));
    }

    /// An empty arena whose first identifier will be 1.
    pub fn new() -> (arena: Self)
        ensures
            arena.wf(),
            arena@ == Map::<usize, N>::empty(),
            arena.issued() == 1,
    {
        let arena = NodeArena { nodes: HashMap::new(), order: Vec::new(), next_id: 1 };
        assert(arena.nodes@ =~= Map::<usize, N>::empty());
        arena
    }

    /// Creates a node under a fresh identifier: `make` receives the
    /// identifier and builds the node stored under it.
    pub fn create_node<F: FnOnce(usize) -> N>(&mut self, make: F) -> (id: usize)
        requires
            old(self).wf(),
            old(self).issued() < usize::MAX,
            make.requires((old(self).issued() as usize,)),
        ensures
            final(self).wf(),
            id == old(self).issued(),
            id > 0,
            !old(self)@.contains_key(id),
            final(self).issued() == old(self).issued() + 1,
            exists|n: N| make.ensures((id,), n) && final(self)@ == old(self)@.insert(id, n),
    {
        let id = self.next_id;
        let node = make(id);
        proof {
            if self.nodes@.contains_key(id) {
                assert(self.order@.contains(id));
            }
        }
        self.nodes.insert(id, node);
        self.order.push(id);
        self.next_id = id + 1;
        proof {
            assert forall|k: usize| #[trigger] self.nodes@.contains_key(k) <==> self.order@.contains(k) by {
                if k == id {
                    assert(self.order@[self.order@.len() - 1] == id);
                } else if old(self).order@.contains(k) {
                    let i = choose|i: int| 0 <= i < old(self).order@.len() && old(self).order@[i] == k;
                    assert(self.order@[i] == k);
                } else if self.order@.contains(k) {
                    let i = choose|i: int| 0 <= i < self.order@.len() && self.order@[i] == k;
                    assert(old(self).order@[i] == k);
                }
            }
            assert(make.ensures((id,), node) && self@ == old(self)@.insert(id, node));
        }
        id
    }

    /// Looks a node up.
    pub fn get_node(&self, id: usize) -> (res: Option<&N>)
        requires
            self.wf(),
            id > 0,
        ensures
            match res {
                Some(n) => self@.contains_key(id) && *n == self@[id],
                None => !self@.contains_key(id),
            },
    {
        self.nodes.get(&id)
    }

    /// Removes a node and hands it back.
    pub fn remove_node(&mut self, id: usize) -> (res: Option<N>)
        requires
            old(self).wf(),
            id > 0,
        ensures
            final(self).wf(),
            final(self)@ == old(self)@.remove(id),
            final(self).issued() == old(self).issued(),
            match res {
                Some(n) => old(self)@.contains_key(id) && n == old(self)@[id],
                None => !old(self)@.contains_key(id),
            },
    {
        let removed = self.nodes.remove(&id);
        if removed.is_some() {
            let mut i: usize = 0;
            while i < self.order.len() && self.order[i] != id
                invariant
                    self.order@ == old(self).order@,
                    old(self).order@.contains(id),
                    i <= self.order.len(),
                    forall|j: int| 0 <= j < i ==> self.order@[j] != id,
                decreases self.order.len() - i,
            {
                i = i + 1;
            }
            proof {
                if i >= self.order.len() {
                    let j = choose|j: int| 0 <= j < old(self).order@.len() && old(self).order@[j] == id;
                    assert(false);
                }
            }
            self.order.remove(i);
            proof {
                let o = old(self).order@;
                assert forall|k: usize| #[trigger] self.nodes@.contains_key(k) <==> self.order@.contains(k) by {
                    if self.order@.contains(k) {
                        let j = choose|j: int| 0 <= j < self.order@.len() && self.order@[j] == k;
                        if j < i {
                            assert(o[j] == k);
                        } else {
                            assert(o[j + 1] == k);
                            assert(o[i as int] == id);
                        }
                    }
                    if k != id && o.contains(k) {
                        let j = choose|j: int| 0 <= j < o.len() && o[j] == k;
                        if j < i {
                            assert(self.order@[j] == k);
                        } else {
                            assert(j != i);
                            assert(self.order@[j - 1] == k);
                        }
                    }
                }
            }
        } else {
            proof {
                assert forall|k: usize| #[trigger] self.nodes@.contains_key(k) <==> self.order@.contains(k) by {
                    if k == id && self.order@.contains(k) {
                        assert(old(self).nodes@.contains_key(k));
                    }
                }
            }
        }
        removed
    }

    /// Applies `update` to a copy of node `id` and keeps the updated node only
    /// when `accept` approves it; a rejected update leaves the node as it was.
    /// Returns what `update` produced when the update was kept.
    pub fn with_mut_node<R, F, P>(&mut self, id: usize, update: F, accept: P) -> (res: Option<R>) where
        N: Copy,
        F: FnOnce(N) -> (N, R),
        P: Fn(&N) -> bool,

        requires
            old(self).wf(),
            id > 0,
            forall|n: N| #[trigger] update.requires((n,)),
            forall|n: &N| #[trigger] accept.requires((n,)),
        ensures
            final(self).wf(),
            final(self).issued() == old(self).issued(),
            final(self)@.dom() == old(self)@.dom(),
            !old(self)@.contains_key(id) ==> res is None && final(self)@ == old(self)@,
            old(self)@.contains_key(id) ==> exists|n: N, r: R, ok: bool|
                {
                    &&& update.ensures((old(self)@[id],), (n, r))
                    &&& accept.ensures((&n,), ok)
                    &&& ok ==> res == Some(r) && final(self)@ == old(self)@.insert(id, n)
                    &&& !ok ==> res is None && final(self)@ == old(self)@
                },
    {
        let current = match self.nodes.get(&id) {
            Some(node) => *node,
            None => {
                return None;
            },
        };
        let (updated, out) = update(current);
        let ok = accept(&updated);
        if ok {
            proof {
                assert(self.order@.contains(id));
            }
            self.nodes.insert(id, updated);
            proof {
                assert(self.nodes@.dom() =~= old(self).nodes@.dom());
                assert(update.ensures((old(self)@[id],), (updated, out)) && accept.ensures((&updated,), ok));
            }
            Some(out)
        } else {
            proof {
                assert(update.ensures((old(self)@[id],), (updated, out)) && accept.ensures((&updated,), ok));
            }
            None
        }
    }

    /// The live identifiers in ascending order.
    pub fn ids(&self) -> (res: Vec<usize>)
        requires
            self.wf(),
        ensures
            strictly_increasing(res@),
            forall|k: usize| #[trigger] res@.contains(k) <==> self@.contains_key(k),
            forall|i: int| 0 <= i < res@.len() ==> 0 < #[trigger] res@[i] < self.issued(),
            res@.len() == self@.len(),
    {
        proof {
            let o = self.order@;
            assert(o.no_duplicates()) by {
                assert forall|i: int, j: int| 0 <= i < o.len() && 0 <= j < o.len() && i != j implies o[i] != o[j] by {
                    if i < j {
                        assert(o[i] < o[j]);
                    } else {
                        assert(o[j] < o[i]);
                    }
                }
            }
            o.unique_seq_to_set();
            assert(o.to_set() =~= self.nodes@.dom());
        }
        self.order.clone()
    }

    /// The number of live nodes.
    pub fn len(&self) -> (res: usize)
        requires
            self.wf(),
        ensures
            res == self@.len(),
    {
        self.nodes.len()
    }

    /// Whether no node is live.
    pub fn is_empty(&self) -> (res: bool)
        requires
            self.wf(),
        ensures
            res == (self@.len() == 0),
    {
        self.nodes.len() == 0
    }
}

impl<N> Default for NodeArena<N> {
    fn default() -> (arena: Self)
        ensures
            arena.wf(),
            arena@ == Map::<usize, N>::empty(),
            arena.issued() == 1,
    {
        Self::new()
    }
}

} // verus!
