use vstd::prelude::*;

use crate::bits::{
    apply_op, is_select, keep, lemma_seq_rank, lemma_seq_select, lemma_seq_set_len,
    lemma_seq_set_push, rank_of, seq_set, sorted_strict, within, SetOp, BLOCK_CAPACITY,
};
use crate::seq64::Seq64;

verus! {

broadcast use vstd::set::group_set_axioms, vstd::set_lib::group_set_properties;

/// A block stored as a strictly ascending sequence of 16-bit values.
#[derive(Clone, Debug)]
pub struct Seq16 {
    pub weight: u32,
    pub vector: Vec<u16>,
}

impl Seq16 {
    pub open spec fn wf(&self) -> bool {
        sorted_strict(self.vector@) && self.weight as int == self.vector@.len()
    }

    pub open spec fn view(&self) -> Set<int> {
        seq_set(self.vector@)
    }

    pub proof fn lemma_wf(&self)
        requires
            self.wf(),
        ensures
            within(self@, BLOCK_CAPACITY as int),
            self@.len() == self.weight,
            self.weight <= BLOCK_CAPACITY,
    {
        lemma_seq_set_len(self.vector@);
        crate::bits::lemma_within_len(self@, BLOCK_CAPACITY as int);
    }

    pub fn new() -> (r: Seq16)
        ensures
            r.wf(),
            r@ == Set::<int>::empty(),
    {
        let r = Seq16 { weight: 0, vector: Vec::new() };
        assert(r@ =~= Set::<int>::empty());
        r
    }

    /// Builds a block from a strictly ascending sequence.
    pub fn from_sorted(vector: Vec<u16>) -> (r: Seq16)
        requires
            sorted_strict(vector@),
        ensures
            r.wf(),
            r@ == seq_set(vector@),
            r.vector@ == vector@,
    {
        proof {
            lemma_seq_set_len(vector@);
            crate::bits::lemma_within_len(seq_set(vector@), BLOCK_CAPACITY as int);
        }
        let weight = vector.len() as u32;
        Seq16 { weight, vector }
    }

    /// Index of the first value not below `x`.
    fn search(&self, x: u16) -> (r: usize)
        requires
            self.wf(),
        ensures
            r <= self.vector@.len(),
            forall|j: int| 0 <= j < r ==> self.vector@[j] < x,
            forall|j: int| r <= j < self.vector@.len() ==> self.vector@[j] >= x,
    {
        let mut lo: usize = 0;
        let mut hi: usize = self.vector.len();
        while lo < hi
            invariant
                self.wf(),
                lo <= hi <= self.vector@.len(),
                forall|j: int| 0 <= j < lo ==> self.vector@[j] < x,
                forall|j: int| hi <= j < self.vector@.len() ==> self.vector@[j] >= x,
            decreases hi - lo,
        {
            let mid = lo + (hi - lo) / 2;
            if self.vector[mid] < x {
                lo = mid + 1;
            } else {
                hi = mid;
            }
        }
        lo
    }

    pub fn contains(&self, x: u16) -> (r: bool)
        requires
            self.wf(),
        ensures
            r == self@.contains(x as int),
    {
        let p = self.search(x);
        if p < self.vector.len() && self.vector[p] == x {
            assert(self.vector@[p as int] as int == x as int);
            true
        } else {
            false
        }
    }

    pub fn insert(&mut self, x: u16) -> (r: bool)
        requires
            old(self).wf(),
        ensures
            final(self).wf(),
            final(self)@ == old(self)@.insert(x as int),
            r == !old(self)@.contains(x as int),
    {
        let p = self.search(x);
        if p < self.vector.len() && self.vector[p] == x {
            assert(self.vector@[p as int] as int == x as int);
            assert(self@ =~= old(self)@.insert(x as int));
            return false;
        }
        proof {
            self.lemma_wf();
            crate::bits::lemma_within_len(self@.insert(x as int), BLOCK_CAPACITY as int);
        }
        let ghost v = self.vector@;
        self.vector.insert(p, x);
        self.weight = self.weight + 1;
        proof {
            let w = self.vector@;
            assert(w == v.insert(p as int, x));
            assert forall|y: int| self@.contains(y) implies old(self)@.insert(x as int).contains(y) by {
                let j = choose|j: int| 0 <= j < w.len() && w[j] as int == y;
                if j < p {
                    assert(v[j] as int == y);
                } else if j > p {
                    assert(v[j - 1] as int == y);
                }
            }
            assert forall|y: int| old(self)@.insert(x as int).contains(y) implies self@.contains(y) by {
                if y == x as int {
                    assert(w[p as int] as int == y);
                } else {
                    let j = choose|j: int| 0 <= j < v.len() && v[j] as int == y;
                    if j < p {
                        assert(w[j] as int == y);
                    } else {
                        assert(w[j + 1] as int == y);
                    }
                }
            }
            assert(self@ =~= old(self)@.insert(x as int));
        }
        true
    }

    pub fn remove(&mut self, x: u16) -> (r: bool)
        requires
            old(self).wf(),
        ensures
            final(self).wf(),
            final(self)@ == old(self)@.remove(x as int),
            r == old(self)@.contains(x as int),
    {
        let p = self.search(x);
        if !(p < self.vector.len() && self.vector[p] == x) {
            assert(!self@.contains(x as int)) by {
                if self@.contains(x as int) {
                    let j = choose|j: int| 0 <= j < self.vector@.len() && self.vector@[j] as int
                        == x as int;
                }
            }
            assert(self@ =~= old(self)@.remove(x as int));
            return false;
        }
        let ghost v = self.vector@;
        self.vector.remove(p);
        self.weight = self.weight - 1;
        proof {
            let w = self.vector@;
            assert(w == v.remove(p as int));
            assert forall|y: int| self@.contains(y) implies old(self)@.remove(x as int).contains(y) by {
                let j = choose|j: int| 0 <= j < w.len() && w[j] as int == y;
                if j < p {
                    assert(v[j] as int == y);
                } else {
                    assert(v[j + 1] as int == y);
                }
            }
            assert forall|y: int| old(self)@.remove(x as int).contains(y) implies self@.contains(y) by {
                let j = choose|j: int| 0 <= j < v.len() && v[j] as int == y;
                if j < p {
                    assert(w[j] as int == y);
                } else {
                    assert(w[j - 1] as int == y);
                }
            }
            assert(self@ =~= old(self)@.remove(x as int));
            assert(old(self)@.contains(x as int)) by {
                assert(v[p as int] as int == x as int);
            }
        }
        true
    }

    /// Number of values strictly below `i`.
    pub fn rank1(&self, i: u16) -> (r: u32)
        requires
            self.wf(),
        ensures
            r == rank_of(self@, i as int),
    {
        let p = self.search(i);
        proof {
            lemma_seq_rank(self.vector@, p as int, i as int);
        }
        p as u32
    }

    /// Position of the `(c+1)`-th value.
    pub fn select1(&self, c: u32) -> (r: Option<u16>)
        requires
            self.wf(),
        ensures
            match r {
                Some(p) => is_select(self@, c as int, p as int),
                None => c >= self@.len(),
            },
    {
        proof {
            self.lemma_wf();
        }
        if (c as usize) < self.vector.len() {
            proof {
                lemma_seq_select(self.vector@, c as int);
            }
            Some(self.vector[c as usize])
        } else {
            None
        }
    }

    /// The values in ascending order.
    pub fn to_vec(&self) -> (r: Vec<u16>)
        requires
            self.wf(),
        ensures
            sorted_strict(r@),
            seq_set(r@) == self@,
    {
        self.vector.clone()
    }

    /// Keeps, in place, the values that are set in `other`.
    pub fn retain_in(&mut self, other: &Seq64)
        requires
            old(self).wf(),
            other.wf(),
        ensures
            final(self).wf(),
            final(self)@ == old(self)@.intersect(other@),
    {
        let ghost v = self.vector@;
        let ghost target = old(self)@.intersect(other@);
        let n = self.vector.len();
        let mut new: usize = 0;
        let mut i: usize = 0;
        while i < n
            invariant
                n == v.len(),
                self.vector@.len() == n,
                sorted_strict(v),
                new <= i <= n,
                forall|j: int| i <= j < n ==> self.vector@[j] == v[j],
                sorted_strict(self.vector@.subrange(0, new as int)),
                forall|j: int| 0 <= j < new ==> self.vector@[j] < (if i < n { v[i as int] as int } else { BLOCK_CAPACITY as int }),
                forall|y: int| (y < (if i < n { v[i as int] as int } else { BLOCK_CAPACITY as int }))
                    ==> (seq_set(self.vector@.subrange(0, new as int)).contains(y) == target.contains(y)),
                other.wf(),
                target == seq_set(v).intersect(other@),
            decreases n - i,
        {
            let x = self.vector[i];
            let ghost before = self.vector@.subrange(0, new as int);
            if other.contains(x) {
                self.vector.set(new, x);
                proof {
                    assert(self.vector@.subrange(0, new + 1) == before.push(x));
                    lemma_seq_set_push(before, x);
                }
                new = new + 1;
            } else {
                assert(self.vector@.subrange(0, new as int) == before);
            }
            i = i + 1;
            proof {
                let bound = if i < n { v[i as int] as int } else { BLOCK_CAPACITY as int };
                assert(v[i - 1] < bound);
                assert forall|y: int| y < bound implies (seq_set(self.vector@.subrange(0, new as int)).contains(y) == target.contains(y)) by {
                    if y > x as int && y < bound && seq_set(v).contains(y) {
                        let j = choose|j: int| 0 <= j < v.len() && v[j] as int == y;
                        assert(j >= i);
                    }
                    if y == x as int {
                        assert(seq_set(v).contains(y)) by { assert(v[i - 1] as int == y); }
                    }
                }
            }
        }
        self.vector.truncate(new);
        self.weight = new as u32;
        proof {
            assert(self.vector@ == self.vector@.subrange(0, new as int));
            lemma_seq_set_len(self.vector@);
            assert forall|y: int| self@.contains(y) == target.contains(y) by {
                if y >= BLOCK_CAPACITY {
                    if self@.contains(y) {
                        let j = choose|j: int| 0 <= j < self.vector@.len() && self.vector@[j] as int == y;
                    }
                }
            }
            assert(self@ =~= target);
        }
    }

    /// Merges two blocks with `op`.
    pub fn pairwise(&self, other: &Seq16, op: SetOp) -> (r: Seq16)
        requires
            self.wf(),
            other.wf(),
        ensures
            r.wf(),
            r@ == apply_op(op, self@, other@),
    {
        let a = &self.vector;
        let b = &other.vector;
        let ghost target = apply_op(op, self@, other@);
        let mut out: Vec<u16> = Vec::new();
        let mut i: usize = 0;
        let mut j: usize = 0;
        while i < a.len() || j < b.len()
            invariant
                sorted_strict(a@),
                sorted_strict(b@),
                target == apply_op(op, seq_set(a@), seq_set(b@)),
                i <= a@.len(),
                j <= b@.len(),
                sorted_strict(out@),
                forall|k: int| 0 <= k < out@.len() ==> (out@[k] as int) < crate::seq16::next_of(a@, b@, i as int, j as int),
                forall|k: int| 0 <= k < i ==> (a@[k] as int) < crate::seq16::next_of(a@, b@, i as int, j as int),
                forall|k: int| 0 <= k < j ==> (b@[k] as int) < crate::seq16::next_of(a@, b@, i as int, j as int),
                forall|y: int| y < crate::seq16::next_of(a@, b@, i as int, j as int)
                    ==> (seq_set(out@).contains(y) == target.contains(y)),
            decreases a@.len() + b@.len() - i - j,
        {
            let ghost lo = next_of(a@, b@, i as int, j as int);
            let ghost i0 = i as int;
            let ghost j0 = j as int;
            let x: u16;
            let in_a: bool;
            let in_b: bool;
            if i < a.len() && j < b.len() {
                if a[i] < b[j] {
                    x = a[i];
                    in_a = true;
                    in_b = false;
                    i = i + 1;
                } else if a[i] > b[j] {
                    x = b[j];
                    in_a = false;
                    in_b = true;
                    j = j + 1;
                } else {
                    x = a[i];
                    in_a = true;
                    in_b = true;
                    i = i + 1;
                    j = j + 1;
                }
            } else if i < a.len() {
                x = a[i];
                in_a = true;
                in_b = false;
                i = i + 1;
            } else {
                x = b[j];
                in_a = false;
                in_b = true;
                j = j + 1;
            }
            proof {
                assert(x as int == lo);
                assert(seq_set(a@).contains(x as int) == in_a) by {
                    if in_a {
                        assert(a@[i - 1] as int == x as int);
                    } else if seq_set(a@).contains(x as int) {
                        let k = choose|k: int| 0 <= k < a@.len() && a@[k] as int == x as int;
                        if k >= i0 { assert(a@[k] >= a@[i0]); }
                    }
                }
                assert(seq_set(b@).contains(x as int) == in_b) by {
                    if in_b {
                        assert(b@[j - 1] as int == x as int);
                    } else if seq_set(b@).contains(x as int) {
                        let k = choose|k: int| 0 <= k < b@.len() && b@[k] as int == x as int;
                        if k >= j0 { assert(b@[k] >= b@[j0]); }
                    }
                }
                let hi = next_of(a@, b@, i as int, j as int);
                assert(lo < hi);
                assert forall|y: int| lo < y < hi implies !seq_set(a@).contains(y) && !seq_set(b@).contains(y) by {
                    if seq_set(a@).contains(y) {
                        let k = choose|k: int| 0 <= k < a@.len() && a@[k] as int == y;
                        if k < i { if k < i - 1 || !in_a { assert(a@[k] < a@[i - 1] || a@[k] < lo); } }
                    }
                    if seq_set(b@).contains(y) {
                        let k = choose|k: int| 0 <= k < b@.len() && b@[k] as int == y;
                        if k < j { if k < j - 1 || !in_b { assert(b@[k] < b@[j - 1] || b@[k] < lo); } }
                    }
                }
            }
            if keep(op, in_a, in_b) {
                proof {
                    lemma_seq_set_push(out@, x);
                }
                out.push(x);
            }
        }
        proof {
            assert(forall|k: int| 0 <= k < out@.len() ==> (out@[k] as int) < BLOCK_CAPACITY);
            lemma_seq_set_len(out@);
            lemma_seq_set_len(a@);
            lemma_seq_set_len(b@);
            crate::bits::lemma_apply_op_within(op, self@, other@, BLOCK_CAPACITY as int);
            assert(seq_set(out@) =~= target);
        }
        Seq16::from_sorted(out)
    }
}

/// The smaller of the next unread values of two sequences, or the capacity when both are done.
pub open spec fn next_of(a: Seq<u16>, b: Seq<u16>, i: int, j: int) -> int {
    let x = if i < a.len() { a[i] as int } else { BLOCK_CAPACITY as int };
    let y = if j < b.len() { b[j] as int } else { BLOCK_CAPACITY as int };
    if x < y { x } else { y }
}

} // verus!
