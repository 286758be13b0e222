//! The closed set of a search: boards already expanded, found by content.
use vstd::prelude::*;
use std::collections::HashMap;

use crate::board::{board_view, boards_equal};
use crate::solvability::rows_flat;

verus! {

broadcast use vstd::std_specs::hash::group_hash_axioms;

/// The modulus of board fingerprints (a prime below 2^32).
pub const FP_MOD: u64 = 4294967291;

/// The fingerprint of a row-major sequence of labels: a polynomial hash in base 31.
pub open spec fn fp_cells(s: Seq<usize>) -> int
    decreases s.len(),
{
    if s.len() == 0 {
        0
    } else {
        (fp_cells(s.drop_last()) * 31 + s.last() as int % FP_MOD as int) % FP_MOD as int
    }
}

/// The fingerprint of a board, which picks the bucket the board is kept in.
pub open spec fn fingerprint(b: Seq<Seq<usize>>) -> u64 {
    fp_cells(rows_flat(b, b.len() as int)) as u64
}

proof fn lemma_fp_range(s: Seq<usize>)
    ensures
        0 <= fp_cells(s) < FP_MOD,
    decreases s.len(),
{
    if s.len() > 0 {
        lemma_fp_range(s.drop_last());
    }
}

/// Computes the fingerprint of `b`.
fn fingerprint_of(b: &Vec<Vec<usize>>) -> (k: u64)
    ensures
        k == fingerprint(board_view(*b)),
{
    let ghost bv = board_view(*b);
    let mut h: u64 = 0;
    let mut i: usize = 0;
    while i < b.len()
        invariant
            bv == board_view(*b),
            i <= bv.len(),
            h as int == fp_cells(rows_flat(bv, i as int)),
        decreases bv.len() - i,
    {
        let ghost row_start = rows_flat(bv, i as int);
        let mut j: usize = 0;
        while j < b[i].len()
            invariant
                bv == board_view(*b),
                i < bv.len(),
                j <= bv[i as int].len(),
                row_start == rows_flat(bv, i as int),
                h as int == fp_cells(row_start + bv[i as int].take(j as int)),
            decreases bv[i as int].len() - j,
        {
            let ghost pre = row_start + bv[i as int].take(j as int);
            let ghost post = row_start + bv[i as int].take(j as int + 1);
            proof {
                assert(post.drop_last() =~= pre);
                lemma_fp_range(pre);
            }
            let v = b[i][j] as u64 % FP_MOD;
            h = (h * 31 + v) % FP_MOD;
            j += 1;
        }
        proof {
            assert(row_start + bv[i as int].take(bv[i as int].len() as int) =~= rows_flat(
                bv,
                i as int + 1,
            ));
        }
        i += 1;
    }
    proof {
        lemma_fp_range(rows_flat(bv, bv.len() as int));
    }
    h
}

/// A set of boards kept in buckets by fingerprint; membership is by content.
pub struct VisitedSet {
    buckets: HashMap<u64, Vec<Vec<Vec<usize>>>>,
    boards: Ghost<Set<Seq<Seq<usize>>>>,
    count: usize,
}

/// `n`, or `usize::MAX` when `n` exceeds it.
pub open spec fn capped(n: nat) -> nat {
    if n < usize::MAX {
        n
    } else {
        usize::MAX as nat
    }
}

impl VisitedSet {
    /// The boards in the set.
    pub closed spec fn view(&self) -> Set<Seq<Seq<usize>>> {
        self.boards@
    }

    /// The number of boards in the set, capped at `usize::MAX`.
    pub closed spec fn size(&self) -> nat {
        self.count as nat
    }

    /// Each bucket holds boards of its fingerprint, every board of the set is
    /// in its bucket, and the count follows the set.
    pub closed spec fn wf(&self) -> bool {
        &&& self.boards@.finite()
        &&& self.count == capped(self.boards@.len())
        &&& forall|k: u64, i: int|
            self.buckets@.contains_key(k) && 0 <= i < self.buckets@[k]@.len() ==> fingerprint(
                board_view(#[trigger] self.buckets@[k]@[i]),
            ) == k && self.boards@.contains(board_view(self.buckets@[k]@[i]))
        &&& forall|b: Seq<Seq<usize>>|
            #[trigger] self.boards@.contains(b) ==> self.buckets@.contains_key(fingerprint(b))
                && exists|i: int|
                0 <= i < self.buckets@[fingerprint(b)]@.len() && board_view(
                    #[trigger] self.buckets@[fingerprint(b)]@[i],
                ) == b
    }

    /// An empty set.
    pub fn new() -> (r: VisitedSet)
        ensures
            r.wf(),
            r@ == Set::<Seq<Seq<usize>>>::empty(),
            r.size() == 0,
    {
        VisitedSet { buckets: HashMap::new(), boards: Ghost(Set::empty()), count: 0 }
    }

    /// Whether a board with the same content as `b` is in the set.
    pub fn contains(&self, b: &Vec<Vec<usize>>) -> (r: bool)
        requires
            self.wf(),
        ensures
            r == self@.contains(board_view(*b)),
    {
        let k = fingerprint_of(b);
        match self.buckets.get(&k) {
            None => false,
            Some(bucket) => {
                let mut i: usize = 0;
                while i < bucket.len()
                    invariant
                        self.wf(),
                        self.buckets@.contains_key(k),
                        *bucket == self.buckets@[k],
                        k == fingerprint(board_view(*b)),
                        i <= bucket@.len(),
                        forall|x: int| 0 <= x < i ==> board_view(#[trigger] bucket@[x]) != board_view(*b),
                    decreases bucket@.len() - i,
                {
                    if boards_equal(&bucket[i], b) {
                        return true;
                    }
                    i += 1;
                }
                false
            },
        }
    }

    /// Adds `b`, which is not in the set yet.
    pub fn insert(&mut self, b: Vec<Vec<usize>>)
        requires
            old(self).wf(),
            !old(self)@.contains(board_view(b)),
        ensures
            final(self).wf(),
            final(self)@ == old(self)@.insert(board_view(b)),
            final(self).size() == capped(old(self).size() + 1),
    {
        let k = fingerprint_of(&b);
        let ghost bv = board_view(b);
        let ghost old_buckets = self.buckets@;
        let bucket = match self.buckets.remove(&k) {
            None => {
                let mut v: Vec<Vec<Vec<usize>>> = Vec::new();
                v.push(b);
                v
            },
            Some(v0) => {
                let mut v = v0;
                v.push(b);
                v
            },
        };
        self.buckets.insert(k, bucket);
        proof {
            let ghost old_set = self.boards@;
            self.boards@ = self.boards@.insert(bv);
            assert(self.boards@.len() == old_set.len() + 1);
            assert forall|kk: u64, i: int|
                self.buckets@.contains_key(kk) && 0 <= i < self.buckets@[kk]@.len() implies fingerprint(
                    board_view(#[trigger] self.buckets@[kk]@[i]),
                ) == kk && self.boards@.contains(board_view(self.buckets@[kk]@[i])) by {
                if kk != k {
                    assert(self.buckets@[kk] == old_buckets[kk]);
                } else if old_buckets.contains_key(k) && i < old_buckets[k]@.len() {
                    assert(self.buckets@[kk]@[i] == old_buckets[k]@[i]);
                }
            }
            assert forall|c: Seq<Seq<usize>>| #[trigger] self.boards@.contains(c) implies self.buckets@.contains_key(
                fingerprint(c),
            ) && exists|i: int|
                0 <= i < self.buckets@[fingerprint(c)]@.len() && board_view(
                    #[trigger] self.buckets@[fingerprint(c)]@[i],
                ) == c by {
                if c == bv {
                    let last = self.buckets@[k]@.len() - 1;
                    assert(board_view(self.buckets@[k]@[last]) == c);
                } else {
                    assert(old_set.contains(c));
                    let i = choose|i: int|
                        0 <= i < old_buckets[fingerprint(c)]@.len() && board_view(
                            #[trigger] old_buckets[fingerprint(c)]@[i],
                        ) == c;
                    if fingerprint(c) != k {
                        assert(self.buckets@[fingerprint(c)] == old_buckets[fingerprint(c)]);
                    }
                    assert(board_view(self.buckets@[fingerprint(c)]@[i]) == c);
                }
            }
        }
        if self.count < usize::MAX {
            self.count = self.count + 1;
        }
    }

    /// The number of boards in the set (`usize::MAX` once it would exceed it).
    pub fn len(&self) -> (r: usize)
        requires
            self.wf(),
        ensures
            r == self.size(),
            r == capped(self@.len()),
    {
        self.count
    }
}

} // verus!
