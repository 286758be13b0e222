//! The open set of a search: a binary max-heap of states by rank.
use vstd::prelude::*;

use crate::node::{ranks_above, Node};

verus! {

broadcast use vstd::seq_lib::group_to_multiset_ensures;

/// State `a` is expanded before state `b`.
pub open spec fn node_above(a: Node, b: Node) -> bool {
    ranks_above(a.priority_of(), a.depth(), b.priority_of(), b.depth())
}

/// The slot of the parent of slot `i` in the heap.
pub open spec fn parent(i: int) -> int {
    (i - 1) / 2
}

/// No state ranks above its parent in the heap.
pub open spec fn heap_ordered(s: Seq<Node>) -> bool {
    forall|i: int| 0 < i < s.len() ==> !node_above(#[trigger] s[i], s[parent(i)])
}

/// Ranking "not above" is transitive.
proof fn lemma_not_above_trans(a: Node, b: Node, c: Node)
    requires
        !node_above(a, b),
        !node_above(b, c),
    ensures
        !node_above(a, c),
{
}

/// The root of an ordered heap ranks at least as high as every state in it.
pub proof fn lemma_root_top(s: Seq<Node>, k: int)
    requires
        heap_ordered(s),
        0 <= k < s.len(),
    ensures
        !node_above(s[k], s[0]),
    decreases k,
{
    if k > 0 {
        lemma_root_top(s, parent(k));
        lemma_not_above_trans(s[k], s[parent(k)], s[0]);
    }
}

proof fn lemma_swap_multiset(s: Seq<Node>, i: int, j: int)
    requires
        0 <= i < s.len(),
        0 <= j < s.len(),
    ensures
        s.update(i, s[j]).update(j, s[i]).to_multiset() =~= s.to_multiset(),
{
    vstd::seq_lib::to_multiset_update(s, i, s[j]);
    let s1 = s.update(i, s[j]);
    vstd::seq_lib::to_multiset_update(s1, j, s[i]);
    if i == j {
        assert(s.update(i, s[j]).update(j, s[i]) =~= s);
    }
}

/// A heap of states kept in a vector; each slot is always filled.
pub struct Frontier {
    heap: Vec<Option<Node>>,
}

impl Frontier {
    /// The states, in heap order.
    pub closed spec fn nodes(&self) -> Seq<Node> {
        self.heap@.map_values(|o: Option<Node>| o->0)
    }

    /// Every slot holds a state and the states are heap-ordered.
    pub closed spec fn wf(&self) -> bool {
        &&& forall|i: int| 0 <= i < self.heap@.len() ==> (#[trigger] self.heap@[i]) is Some
        &&& heap_ordered(self.nodes())
    }

    /// An empty heap.
    pub fn new() -> (r: Frontier)
        ensures
            r.wf(),
            r.nodes() == Seq::<Node>::empty(),
    {
        let r = Frontier { heap: Vec::new() };
        proof {
            assert(r.nodes() =~= Seq::<Node>::empty());
        }
        r
    }

    /// The number of states.
    pub fn len(&self) -> (r: usize)
        ensures
            r == self.nodes().len(),
    {
        self.heap.len()
    }

    /// A top-ranked state: the root.
    pub fn peek(&self) -> (r: &Node)
        requires
            self.wf(),
            self.nodes().len() > 0,
        ensures
            *r == self.nodes()[0],
            forall|k: int| 0 <= k < self.nodes().len() ==> !node_above(#[trigger] self.nodes()[k], *r),
    {
        proof {
            assert forall|k: int| 0 <= k < self.nodes().len() implies !node_above(
                #[trigger] self.nodes()[k],
                self.nodes()[0],
            ) by {
                lemma_root_top(self.nodes(), k);
            }
            assert(self.heap@[0] is Some);
        }
        self.heap[0].as_ref().unwrap()
    }

    /// Swaps the states in slots `i` and `j`.
    fn swap(&mut self, i: usize, j: usize)
        requires
            i < old(self).heap@.len(),
            j < old(self).heap@.len(),
            forall|k: int| 0 <= k < old(self).heap@.len() ==> (#[trigger] old(self).heap@[k]) is Some,
        ensures
            final(self).heap@ == old(self).heap@.update(i as int, old(self).heap@[j as int]).update(
                j as int,
                old(self).heap@[i as int],
            ),
            final(self).nodes() == old(self).nodes().update(i as int, old(self).nodes()[j as int]).update(
                j as int,
                old(self).nodes()[i as int],
            ),
            forall|k: int| 0 <= k < final(self).heap@.len() ==> (#[trigger] final(self).heap@[k]) is Some,
    {
        let ghost h = self.heap@;
        if i == j {
            proof {
                assert(self.heap@ =~= h.update(i as int, h[j as int]).update(j as int, h[i as int]));
                assert(self.nodes() =~= old(self).nodes().update(i as int, old(self).nodes()[j as int]).update(
                    j as int,
                    old(self).nodes()[i as int],
                ));
            }
            return;
        }
        let mut held: Option<Node> = None;
        std::mem::swap(&mut self.heap[i], &mut held);
        std::mem::swap(&mut self.heap[j], &mut held);
        std::mem::swap(&mut self.heap[i], &mut held);
        proof {
            assert(self.heap@ =~= h.update(i as int, h[j as int]).update(j as int, h[i as int]));
            assert(self.nodes() =~= old(self).nodes().update(i as int, old(self).nodes()[j as int]).update(
                j as int,
                old(self).nodes()[i as int],
            ));
        }
    }

    /// Whether the state in slot `i` ranks above the one in slot `j`.
    fn above(&self, i: usize, j: usize) -> (r: bool)
        requires
            i < self.heap@.len(),
            j < self.heap@.len(),
            forall|k: int| 0 <= k < self.heap@.len() ==> (#[trigger] self.heap@[k]) is Some,
        ensures
            r == node_above(self.nodes()[i as int], self.nodes()[j as int]),
    {
        proof {
            assert(self.heap@[i as int] is Some);
            assert(self.heap@[j as int] is Some);
        }
        self.heap[i].as_ref().unwrap().outranks(self.heap[j].as_ref().unwrap())
    }

    /// Adds `node`.
    pub fn push(&mut self, node: Node)
        requires
            old(self).wf(),
        ensures
            final(self).wf(),
            final(self).nodes().to_multiset() == old(self).nodes().to_multiset().insert(node),
            final(self).nodes().len() == old(self).nodes().len() + 1,
    {
        let ghost before = self.nodes();
        self.heap.push(Some(node));
        proof {
            assert(self.nodes() =~= before.push(node));
        }
        let mut i: usize = self.heap.len() - 1;
        while i > 0
            invariant
                i < self.heap@.len(),
                self.heap@.len() == before.len() + 1,
                forall|k: int| 0 <= k < self.heap@.len() ==> (#[trigger] self.heap@[k]) is Some,
                self.nodes().to_multiset() == before.push(node).to_multiset(),
                // ordered everywhere but at `i` and its parent
                forall|k: int|
                    0 < k < self.nodes().len() && k != i ==> !node_above(
                        #[trigger] self.nodes()[k],
                        self.nodes()[parent(k)],
                    ),
                // the children of `i` rank no higher than its parent
                i > 0 ==> forall|c: int|
                    0 < c < self.nodes().len() && parent(c) == i ==> !node_above(
                        #[trigger] self.nodes()[c],
                        self.nodes()[parent(i as int)],
                    ),
            ensures
                forall|k: int| 0 <= k < self.heap@.len() ==> (#[trigger] self.heap@[k]) is Some,
                self.nodes().to_multiset() == before.push(node).to_multiset(),
                self.heap@.len() == before.len() + 1,
                heap_ordered(self.nodes()),
            decreases i,
        {
            let p = (i - 1) / 2;
            if !self.above(i, p) {
                proof {
                    assert(heap_ordered(self.nodes()));
                }
                break;
            }
            let ghost s = self.nodes();
            self.swap(i, p);
            proof {
                lemma_swap_multiset(s, i as int, p as int);
                let t = self.nodes();
                assert forall|k: int| 0 < k < t.len() && k != p implies !node_above(
                    #[trigger] t[k],
                    t[parent(k)],
                ) by {
                    if k == i {
                    } else if parent(k) == i {
                        // a child of `i`: its new parent is the old parent of `i`
                    } else if parent(k) == p as int {
                        // the sibling of `i`
                        lemma_not_above_trans(s[k], s[p as int], s[i as int]);
                    }
                }
                if p > 0 {
                    assert forall|c: int| 0 < c < t.len() && parent(c) == p implies !node_above(
                        #[trigger] t[c],
                        t[parent(p as int)],
                    ) by {
                        if c == i {
                        } else {
                            lemma_not_above_trans(s[c], s[p as int], s[parent(p as int)]);
                        }
                    }
                }
            }
            i = p;
        }
    }

    /// Removes and returns a top-ranked state: the root.
    pub fn pop(&mut self) -> (r: Node)
        requires
            old(self).wf(),
            old(self).nodes().len() > 0,
        ensures
            final(self).wf(),
            r == old(self).nodes()[0],
            forall|k: int|
                0 <= k < old(self).nodes().len() ==> !node_above(#[trigger] old(self).nodes()[k], r),
            final(self).nodes().to_multiset() == old(self).nodes().to_multiset().remove(r),
            final(self).nodes().len() == old(self).nodes().len() - 1,
    {
        let ghost before = self.nodes();
        proof {
            assert forall|k: int| 0 <= k < before.len() implies !node_above(#[trigger] before[k], before[0]) by {
                lemma_root_top(before, k);
            }
        }
        let last = self.heap.len() - 1;
        self.swap(0, last);
        let ghost swapped = self.nodes();
        proof {
            lemma_swap_multiset(before, 0, last as int);
        }
        let top = self.heap.pop().unwrap();
        proof {
            assert(self.nodes() =~= swapped.drop_last());
            assert(swapped =~= self.nodes().push(before[0]));
            assert(self.nodes().to_multiset() =~= before.to_multiset().remove(before[0]));
        }
        let n = self.heap.len();
        let mut i: usize = 0;
        while i < n / 2
            invariant
                n == self.heap@.len(),
                n == before.len() - 1,
                i < n || n == 0,
                forall|k: int| 0 <= k < self.heap@.len() ==> (#[trigger] self.heap@[k]) is Some,
                self.nodes().to_multiset() == before.to_multiset().remove(before[0]),
                // ordered everywhere but between `i` and its children
                forall|k: int|
                    0 < k < self.nodes().len() && parent(k) != i ==> !node_above(
                        #[trigger] self.nodes()[k],
                        self.nodes()[parent(k)],
                    ),
                // the children of `i` rank no higher than its parent
                i > 0 ==> forall|c: int|
                    0 < c < self.nodes().len() && parent(c) == i ==> !node_above(
                        #[trigger] self.nodes()[c],
                        self.nodes()[parent(i as int)],
                    ),
            ensures
                forall|k: int| 0 <= k < self.heap@.len() ==> (#[trigger] self.heap@[k]) is Some,
                self.nodes().to_multiset() == before.to_multiset().remove(before[0]),
                self.heap@.len() == n,
                heap_ordered(self.nodes()),
            decreases n - i,
        {
            let l = 2 * i + 1;
            let r = l + 1;
            let r_above = r < n && self.above(r, l);
            let m = if r_above {
                r
            } else {
                l
            };
            proof {
                let s0 = self.nodes();
                if r_above {
                    assert(!node_above(s0[l as int], s0[r as int]));
                } else if r < n {
                    assert(!node_above(s0[r as int], s0[l as int]));
                }
            }
            if !self.above(m, i) {
                proof {
                    let t = self.nodes();
                    assert forall|k: int| 0 < k < t.len() implies !node_above(#[trigger] t[k], t[parent(k)]) by {
                        if parent(k) == i {
                            assert(k == l || k == r);
                            if k != m {
                                lemma_not_above_trans(t[k], t[m as int], t[i as int]);
                            }
                        }
                    }
                }
                break;
            }
            let ghost s = self.nodes();
            self.swap(i, m);
            proof {
                lemma_swap_multiset(s, i as int, m as int);
                let t = self.nodes();
                assert forall|k: int| 0 < k < t.len() && parent(k) != m implies !node_above(
                    #[trigger] t[k],
                    t[parent(k)],
                ) by {
                    if k == m {
                    } else if parent(k) == i {
                        // the other child of `i`
                        assert(k == l || k == r);
                        assert(!node_above(s[k], s[m as int]));
                    } else if k == i {
                        // `i` now holds the old child, below the old parent of `i`
                    }
                }
                assert forall|c: int| 0 < c < t.len() && parent(c) == m implies !node_above(
                    #[trigger] t[c],
                    t[parent(m as int)],
                ) by {}
            }
            i = m;
        }
        top.unwrap()
    }
}

} // verus!
