use vstd::prelude::*;

use crate::bits::{
    apply_op, below, is_select, keep, keep_spec, lemma_rank_empty_interval,
    lemma_rank_full_interval, lemma_rank_zero, lemma_seq_set_len, lemma_seq_set_push, lemma_within_len, rank_of, seq_set, sorted_strict,
    within, SetOp, BLOCK_CAPACITY,
};

verus! {

broadcast use vstd::set::group_set_axioms, vstd::set_lib::group_set_properties;

/// The positions covered by a sequence of inclusive ranges.
pub open spec fn runs_set(r: Seq<(u16, u16)>) -> Set<int> {
    Set::new(|x: int| exists|k: int| 0 <= k < r.len() && (#[trigger] r[k]).0 <= x <= r[k].1)
}

/// Ranges are non-empty, ascending, and neither overlap nor touch.
pub open spec fn runs_ok(r: Seq<(u16, u16)>) -> bool {
    &&& forall|k: int| 0 <= k < r.len() ==> r[k].0 <= r[k].1
    &&& forall|i: int, j: int| 0 <= i < j < r.len() ==> r[i].1 + 1 < r[j].0
}

/// The members of `s` that begin a run, i.e. whose predecessor is not a member.
pub open spec fn run_starts(s: Set<int>) -> Set<int> {
    s.filter(|x: int| !s.contains(x - 1))
}

/// Number of maximal runs of consecutive members of `s`.
pub open spec fn runs_of(s: Set<int>) -> nat {
    run_starts(s).len()
}

/// Where the scan over ranges stands after `k` ranges: one past the end of range `k - 1`.
pub open spec fn after(r: Seq<(u16, u16)>, k: int) -> int {
    if k == 0 {
        0
    } else {
        r[k - 1].1 + 1
    }
}

pub proof fn lemma_runs_within(r: Seq<(u16, u16)>)
    ensures
        within(runs_set(r), BLOCK_CAPACITY as int),
{
    vstd::set_lib::lemma_int_range(0, BLOCK_CAPACITY as int);
    assert(runs_set(r).subset_of(vstd::set_lib::set_int_range(0, BLOCK_CAPACITY as int)));
    vstd::set_lib::lemma_len_subset(
        runs_set(r),
        vstd::set_lib::set_int_range(0, BLOCK_CAPACITY as int),
    );
}

/// The positions of range `k` are members, and the gap before it holds none.
pub proof fn lemma_runs_layout(r: Seq<(u16, u16)>, k: int)
    requires
        runs_ok(r),
        0 <= k < r.len(),
    ensures
        forall|x: int| r[k].0 <= x <= r[k].1 ==> runs_set(r).contains(x),
        forall|x: int| after(r, k) <= x < r[k].0 ==> !runs_set(r).contains(x),
        after(r, k) <= r[k].0,
{
    assert forall|x: int| r[k].0 <= x <= r[k].1 implies runs_set(r).contains(x) by {}
    assert forall|x: int| after(r, k) <= x < r[k].0 implies !runs_set(r).contains(x) by {
        if runs_set(r).contains(x) {
            let j = choose|j: int| 0 <= j < r.len() && (#[trigger] r[j]).0 <= x <= r[j].1;
            if j < k - 1 {
                assert(r[j].1 + 1 < r[k - 1].0);
            }
        }
    }
}

/// Nothing is a member past the end of the last range.
pub proof fn lemma_runs_tail(r: Seq<(u16, u16)>, x: int)
    requires
        runs_ok(r),
        after(r, r.len() as int) <= x,
    ensures
        !runs_set(r).contains(x),
{
    if runs_set(r).contains(x) {
        let j = choose|j: int| 0 <= j < r.len() && (#[trigger] r[j]).0 <= x <= r[j].1;
        if j < r.len() - 1 {
            assert(r[j].1 + 1 < r[r.len() - 1].0);
        }
    }
}

/// The starts of the ranges, in order.
pub open spec fn starts(r: Seq<(u16, u16)>) -> Seq<u16> {
    r.map_values(|p: (u16, u16)| p.0)
}

/// Well-formed ranges are exactly the maximal runs of what they cover.
pub proof fn lemma_runs_count(r: Seq<(u16, u16)>)
    requires
        runs_ok(r),
    ensures
        runs_of(runs_set(r)) == r.len(),
{
    let s = runs_set(r);
    let t = starts(r);
    assert(sorted_strict(t));
    lemma_seq_set_len(t);
    assert forall|x: int| run_starts(s).contains(x) implies seq_set(t).contains(x) by {
        let k = choose|k: int| 0 <= k < r.len() && (#[trigger] r[k]).0 <= x <= r[k].1;
        if x > r[k].0 {
            assert(s.contains(x - 1));
        }
        assert(t[k] as int == x);
    }
    assert forall|x: int| seq_set(t).contains(x) implies run_starts(s).contains(x) by {
        let k = choose|k: int| 0 <= k < t.len() && t[k] as int == x;
        assert(s.contains(x));
        if s.contains(x - 1) {
            let j = choose|j: int| 0 <= j < r.len() && (#[trigger] r[j]).0 <= x - 1 <= r[j].1;
            if j < k {
                assert(r[j].1 + 1 < r[k].0);
            } else if j > k {
                assert(r[k].1 + 1 < r[j].0);
            }
        }
    }
    assert(run_starts(s) =~= seq_set(t));
}

/// A block stored as ascending, disjoint, non-adjacent inclusive ranges.
#[derive(Clone, Debug)]
pub struct Rle16 {
    pub weight: u32,
    pub ranges: Vec<(u16, u16)>,
}

impl Rle16 {
    pub open spec fn wf(&self) -> bool {
        runs_ok(self.ranges@) && self.weight as int == runs_set(self.ranges@).len()
    }

    pub open spec fn view(&self) -> Set<int> {
        runs_set(self.ranges@)
    }

    pub proof fn lemma_wf(&self)
        requires
            self.wf(),
        ensures
            within(self@, BLOCK_CAPACITY as int),
            self@.len() == self.weight,
            self.weight <= BLOCK_CAPACITY,
            runs_of(self@) == self.ranges@.len(),
            self.ranges@.len() <= BLOCK_CAPACITY,
    {
        lemma_runs_within(self.ranges@);
        lemma_within_len(self@, BLOCK_CAPACITY as int);
        lemma_runs_count(self.ranges@);
        vstd::set_lib::lemma_len_subset(run_starts(self@), self@);
    }

    pub fn new() -> (r: Rle16)
        ensures
            r.wf(),
            r@ == Set::<int>::empty(),
            r.ranges@.len() == 0,
    {
        let r = Rle16 { weight: 0, ranges: Vec::new() };
        assert(r@ =~= Set::<int>::empty());
        r
    }

    /// A copy holding the same ranges.
    pub fn copy(&self) -> (r: Rle16)
        ensures
            r.weight == self.weight,
            r.ranges@ == self.ranges@,
    {
        let mut ranges: Vec<(u16, u16)> = Vec::new();
        let mut i: usize = 0;
        while i < self.ranges.len()
            invariant
                i <= self.ranges@.len(),
                ranges@ == self.ranges@.subrange(0, i as int),
            decreases self.ranges@.len() - i,
        {
            ranges.push(self.ranges[i]);
            i = i + 1;
        }
        Rle16 { weight: self.weight, ranges }
    }

    /// Index of the first range that ends at or after `x`.
    fn search(&self, x: u16) -> (r: usize)
        requires
            self.wf(),
        ensures
            r <= self.ranges@.len(),
            forall|j: int| 0 <= j < r ==> self.ranges@[j].1 < x,
            forall|j: int| r <= j < self.ranges@.len() ==> self.ranges@[j].1 >= x,
    {
        let mut lo: usize = 0;
        let mut hi: usize = self.ranges.len();
        while lo < hi
            invariant
                self.wf(),
                lo <= hi <= self.ranges@.len(),
                forall|j: int| 0 <= j < lo ==> self.ranges@[j].1 < x,
                forall|j: int| hi <= j < self.ranges@.len() ==> self.ranges@[j].1 >= x,
            decreases hi - lo,
        {
            let mid = lo + (hi - lo) / 2;
            if self.ranges[mid].1 < x {
                lo = mid + 1;
            } else {
                hi = mid;
            }
        }
        lo
    }

    pub fn contains(&self, x: u16) -> (r: bool)
        requires
            self.wf(),
        ensures
            r == self@.contains(x as int),
    {
        let k = self.search(x);
        let r = k < self.ranges.len() && self.ranges[k].0 <= x;
        proof {
            if self@.contains(x as int) {
                let j = choose|j: int| 0 <= j < self.ranges@.len() && (#[trigger] self.ranges@[j]).0 <= x as int <= self.ranges@[j].1;
                if j > k {
                    assert(self.ranges@[k as int].1 + 1 < self.ranges@[j].0);
                }
            }
        }
        r
    }

    pub fn insert(&mut self, x: u16) -> (r: bool)
        requires
            old(self).wf(),
        ensures
            final(self).wf(),
            final(self)@ == old(self)@.insert(x as int),
            r == !old(self)@.contains(x as int),
    {
        if self.contains(x) {
            assert(self@ =~= old(self)@.insert(x as int));
            return false;
        }
        proof {
            self.lemma_wf();
            lemma_within_len(self@.insert(x as int), BLOCK_CAPACITY as int);
        }
        let k = self.search(x);
        let ghost v = self.ranges@;
        let n = self.ranges.len();
        proof {
            assert forall|j: int| k <= j < v.len() implies x < v[j].0 by {
                if j == k {
                    assert(!(v[j].0 <= x as int <= v[j].1));
                } else {
                    assert(v[k as int].1 + 1 < v[j].0);
                }
            }
        }
        let left = k > 0 && self.ranges[k - 1].1 as u32 + 1 == x as u32;
        let right = k < n && x as u32 + 1 == self.ranges[k].0 as u32;
        if left && right {
            let lo = self.ranges[k - 1].0;
            let hi = self.ranges[k].1;
            self.ranges.set(k - 1, (lo, hi));
            self.ranges.remove(k);
            proof {
                assert(self.ranges@ == v.update(k - 1, (lo, hi)).remove(k as int));
                lemma_insert_join(v, k as int, x as int);
            }
        } else if left {
            let lo = self.ranges[k - 1].0;
            self.ranges.set(k - 1, (lo, x));
            proof {
                lemma_insert_extend_end(v, k as int, x);
            }
        } else if right {
            let hi = self.ranges[k].1;
            self.ranges.set(k, (x, hi));
            proof {
                lemma_insert_extend_start(v, k as int, x);
            }
        } else {
            self.ranges.insert(k, (x, x));
            proof {
                lemma_insert_new(v, k as int, x);
            }
        }
        self.weight = self.weight + 1;
        true
    }

    pub fn remove(&mut self, x: u16) -> (r: bool)
        requires
            old(self).wf(),
        ensures
            final(self).wf(),
            final(self)@ == old(self)@.remove(x as int),
            r == old(self)@.contains(x as int),
    {
        if !self.contains(x) {
            assert(self@ =~= old(self)@.remove(x as int));
            return false;
        }
        proof {
            self.lemma_wf();
        }
        let k = self.search(x);
        let ghost v = self.ranges@;
        proof {
            let j = choose|j: int| 0 <= j < v.len() && (#[trigger] v[j]).0 <= x as int <= v[j].1;
            assert(j >= k);
            if j > k {
                assert(v[k as int].1 + 1 < v[j].0);
            }
            assert(j == k);
            assert(v[k as int].0 <= x <= v[k as int].1);
        }
        let lo = self.ranges[k].0;
        let hi = self.ranges[k].1;
        proof {
            if lo > x {
                let j = choose|j: int| 0 <= j < v.len() && (#[trigger] v[j]).0 <= x as int <= v[j].1;
                if j > k {
                    assert(v[k as int].1 + 1 < v[j].0);
                }
            }
        }
        if lo == hi {
            self.ranges.remove(k);
            proof {
                lemma_remove_whole(v, k as int, x as int);
            }
        } else if x == lo {
            self.ranges.set(k, (lo + 1, hi));
            proof {
                lemma_remove_first(v, k as int, x);
            }
        } else if x == hi {
            self.ranges.set(k, (lo, hi - 1));
            proof {
                lemma_remove_last(v, k as int, x);
            }
        } else {
            let n = self.ranges.len();
            assert(k < n);
            self.ranges.set(k, (lo, x - 1));
            self.ranges.insert(k + 1, (x + 1, hi));
            proof {
                assert(self.ranges@ == v.update(k as int, (lo, (x - 1) as u16)).insert(
                    k + 1,
                    ((x + 1) as u16, hi),
                ));
                lemma_remove_split(v, k as int, x);
            }
        }
        self.weight = self.weight - 1;
        true
    }
}

/// `x` lies in the gap just before range `k`.
pub open spec fn gap_at(v: Seq<(u16, u16)>, k: int, x: int) -> bool {
    &&& 0 <= k <= v.len()
    &&& forall|j: int| 0 <= j < k ==> v[j].1 < x
    &&& forall|j: int| k <= j < v.len() ==> x < v[j].0
}

pub proof fn lemma_insert_join(v: Seq<(u16, u16)>, k: int, x: int)
    requires
        runs_ok(v),
        gap_at(v, k, x),
        0 < k < v.len(),
        v[k - 1].1 + 1 == x,
        x + 1 == v[k].0,
    ensures
        runs_ok(v.update(k - 1, (v[k - 1].0, v[k].1)).remove(k)),
        runs_set(v.update(k - 1, (v[k - 1].0, v[k].1)).remove(k)) == runs_set(v).insert(x),
{
    let w = v.update(k - 1, (v[k - 1].0, v[k].1)).remove(k);
    assert forall|y: int| runs_set(w).contains(y) == runs_set(v).insert(x).contains(y) by {
        if runs_set(w).contains(y) {
            let j = choose|j: int| 0 <= j < w.len() && (#[trigger] w[j]).0 <= y <= w[j].1;
            if j == k - 1 {
                if y < x { assert(v[k - 1].0 <= y <= v[k - 1].1); }
                if y > x { assert(v[k].0 <= y <= v[k].1); }
            } else if j < k - 1 {
                assert(v[j].0 <= y <= v[j].1);
            } else {
                assert(v[j + 1].0 <= y <= v[j + 1].1);
            }
        }
        if runs_set(v).insert(x).contains(y) {
            if y == x {
                assert(w[k - 1].0 <= y <= w[k - 1].1);
            } else {
                let j = choose|j: int| 0 <= j < v.len() && (#[trigger] v[j]).0 <= y <= v[j].1;
                if j < k - 1 {
                    assert(w[j].0 <= y <= w[j].1);
                } else if j == k - 1 || j == k {
                    assert(w[k - 1].0 <= y <= w[k - 1].1);
                } else {
                    assert(w[j - 1].0 <= y <= w[j - 1].1);
                }
            }
        }
    }
    assert forall|i: int, j: int| 0 <= i < j < w.len() implies w[i].1 + 1 < w[j].0 by {
        if i == k - 1 {
            assert(v[k].1 + 1 < v[j + 1].0);
        } else if j == k - 1 {
            assert(v[i].1 + 1 < v[k - 1].0);
        } else if j < k - 1 {
        } else if i < k - 1 {
            assert(v[i].1 + 1 < v[j + 1].0);
        } else {
            assert(v[i + 1].1 + 1 < v[j + 1].0);
        }
    }
    assert(runs_set(w) =~= runs_set(v).insert(x));
}

pub proof fn lemma_insert_extend_end(v: Seq<(u16, u16)>, k: int, x: u16)
    requires
        runs_ok(v),
        gap_at(v, k, x as int),
        0 < k,
        v[k - 1].1 + 1 == x,
        k < v.len() ==> x + 1 != v[k].0,
    ensures
        runs_ok(v.update(k - 1, (v[k - 1].0, x))),
        runs_set(v.update(k - 1, (v[k - 1].0, x))) == runs_set(v).insert(x as int),
{
    let w = v.update(k - 1, (v[k - 1].0, x));
    assert forall|y: int| runs_set(w).contains(y) == runs_set(v).insert(x as int).contains(y) by {
        if runs_set(w).contains(y) {
            let j = choose|j: int| 0 <= j < w.len() && (#[trigger] w[j]).0 <= y <= w[j].1;
            if j == k - 1 && y < x {
                assert(v[k - 1].0 <= y <= v[k - 1].1);
            } else if j != k - 1 {
                assert(v[j].0 <= y <= v[j].1);
            }
        }
        if runs_set(v).insert(x as int).contains(y) {
            if y == x {
                assert(w[k - 1].0 <= y <= w[k - 1].1);
            } else {
                let j = choose|j: int| 0 <= j < v.len() && (#[trigger] v[j]).0 <= y <= v[j].1;
                assert(w[j].0 <= y <= w[j].1);
            }
        }
    }
    assert forall|i: int, j: int| 0 <= i < j < w.len() implies w[i].1 + 1 < w[j].0 by {
        if i == k - 1 {
            assert(j >= k);
        }
    }
    assert(runs_set(w) =~= runs_set(v).insert(x as int));
}

pub proof fn lemma_insert_extend_start(v: Seq<(u16, u16)>, k: int, x: u16)
    requires
        runs_ok(v),
        gap_at(v, k, x as int),
        k < v.len(),
        x + 1 == v[k].0,
        0 < k ==> v[k - 1].1 + 1 != x,
    ensures
        runs_ok(v.update(k, (x, v[k].1))),
        runs_set(v.update(k, (x, v[k].1))) == runs_set(v).insert(x as int),
{
    let w = v.update(k, (x, v[k].1));
    assert forall|y: int| runs_set(w).contains(y) == runs_set(v).insert(x as int).contains(y) by {
        if runs_set(w).contains(y) {
            let j = choose|j: int| 0 <= j < w.len() && (#[trigger] w[j]).0 <= y <= w[j].1;
            if j == k && y > x {
                assert(v[k].0 <= y <= v[k].1);
            } else if j != k {
                assert(v[j].0 <= y <= v[j].1);
            }
        }
        if runs_set(v).insert(x as int).contains(y) {
            if y == x {
                assert(w[k].0 <= y <= w[k].1);
            } else {
                let j = choose|j: int| 0 <= j < v.len() && (#[trigger] v[j]).0 <= y <= v[j].1;
                assert(w[j].0 <= y <= w[j].1);
            }
        }
    }
    assert forall|i: int, j: int| 0 <= i < j < w.len() implies w[i].1 + 1 < w[j].0 by {
        if j == k {
            assert(i < k);
        }
    }
    assert(runs_set(w) =~= runs_set(v).insert(x as int));
}

pub proof fn lemma_insert_new(v: Seq<(u16, u16)>, k: int, x: u16)
    requires
        runs_ok(v),
        gap_at(v, k, x as int),
        0 < k ==> v[k - 1].1 + 1 != x,
        k < v.len() ==> x + 1 != v[k].0,
    ensures
        runs_ok(v.insert(k, (x, x))),
        runs_set(v.insert(k, (x, x))) == runs_set(v).insert(x as int),
{
    let w = v.insert(k, (x, x));
    assert forall|y: int| runs_set(w).contains(y) == runs_set(v).insert(x as int).contains(y) by {
        if runs_set(w).contains(y) {
            let j = choose|j: int| 0 <= j < w.len() && (#[trigger] w[j]).0 <= y <= w[j].1;
            if j < k {
                assert(v[j].0 <= y <= v[j].1);
            } else if j > k {
                assert(v[j - 1].0 <= y <= v[j - 1].1);
            }
        }
        if runs_set(v).insert(x as int).contains(y) {
            if y == x {
                assert(w[k].0 <= y <= w[k].1);
            } else {
                let j = choose|j: int| 0 <= j < v.len() && (#[trigger] v[j]).0 <= y <= v[j].1;
                if j < k {
                    assert(w[j].0 <= y <= w[j].1);
                } else {
                    assert(w[j + 1].0 <= y <= w[j + 1].1);
                }
            }
        }
    }
    assert forall|i: int, j: int| 0 <= i < j < w.len() implies w[i].1 + 1 < w[j].0 by {
        if i < k && j == k {
        } else if i == k {
        } else if i < k && j > k {
            assert(v[i].1 + 1 < v[j - 1].0);
        } else if i > k {
            assert(v[i - 1].1 + 1 < v[j - 1].0);
        }
    }
    assert(runs_set(w) =~= runs_set(v).insert(x as int));
}

/// `x` lies in range `k`.
pub open spec fn hit_at(v: Seq<(u16, u16)>, k: int, x: int) -> bool {
    0 <= k < v.len() && v[k].0 <= x <= v[k].1
}

pub proof fn lemma_remove_whole(v: Seq<(u16, u16)>, k: int, x: int)
    requires
        runs_ok(v),
        hit_at(v, k, x),
        v[k].0 == v[k].1,
    ensures
        runs_ok(v.remove(k)),
        runs_set(v.remove(k)) == runs_set(v).remove(x),
{
    let w = v.remove(k);
    assert forall|y: int| runs_set(w).contains(y) == runs_set(v).remove(x).contains(y) by {
        if runs_set(w).contains(y) {
            let j = choose|j: int| 0 <= j < w.len() && (#[trigger] w[j]).0 <= y <= w[j].1;
            if j < k {
                assert(v[j].0 <= y <= v[j].1);
                assert(v[j].1 + 1 < v[k].0);
            } else {
                assert(v[j + 1].0 <= y <= v[j + 1].1);
                assert(v[k].1 + 1 < v[j + 1].0);
            }
        }
        if runs_set(v).remove(x).contains(y) {
            let j = choose|j: int| 0 <= j < v.len() && (#[trigger] v[j]).0 <= y <= v[j].1;
            if j < k {
                assert(w[j].0 <= y <= w[j].1);
            } else if j > k {
                assert(w[j - 1].0 <= y <= w[j - 1].1);
            }
        }
    }
    assert forall|i: int, j: int| 0 <= i < j < w.len() implies w[i].1 + 1 < w[j].0 by {
        if i < k && j >= k {
            assert(v[i].1 + 1 < v[j + 1].0);
        } else if i >= k {
            assert(v[i + 1].1 + 1 < v[j + 1].0);
        }
    }
    assert(runs_set(w) =~= runs_set(v).remove(x));
}

pub proof fn lemma_remove_first(v: Seq<(u16, u16)>, k: int, x: u16)
    requires
        runs_ok(v),
        hit_at(v, k, x as int),
        v[k].0 == x,
        x < v[k].1,
    ensures
        runs_ok(v.update(k, ((x + 1) as u16, v[k].1))),
        runs_set(v.update(k, ((x + 1) as u16, v[k].1))) == runs_set(v).remove(x as int),
{
    let w = v.update(k, ((x + 1) as u16, v[k].1));
    assert forall|y: int| runs_set(w).contains(y) == runs_set(v).remove(x as int).contains(y) by {
        if runs_set(w).contains(y) {
            let j = choose|j: int| 0 <= j < w.len() && (#[trigger] w[j]).0 <= y <= w[j].1;
            assert(v[j].0 <= y <= v[j].1);
            if j < k {
                assert(v[j].1 + 1 < v[k].0);
            } else if j > k {
                assert(v[k].1 + 1 < v[j].0);
            }
        }
        if runs_set(v).remove(x as int).contains(y) {
            let j = choose|j: int| 0 <= j < v.len() && (#[trigger] v[j]).0 <= y <= v[j].1;
            assert(w[j].0 <= y <= w[j].1);
        }
    }
    assert forall|i: int, j: int| 0 <= i < j < w.len() implies w[i].1 + 1 < w[j].0 by {
        assert(v[i].1 + 1 < v[j].0);
    }
    assert(runs_set(w) =~= runs_set(v).remove(x as int));
}

pub proof fn lemma_remove_last(v: Seq<(u16, u16)>, k: int, x: u16)
    requires
        runs_ok(v),
        hit_at(v, k, x as int),
        v[k].0 < x,
        x == v[k].1,
    ensures
        runs_ok(v.update(k, (v[k].0, (x - 1) as u16))),
        runs_set(v.update(k, (v[k].0, (x - 1) as u16))) == runs_set(v).remove(x as int),
{
    let w = v.update(k, (v[k].0, (x - 1) as u16));
    assert forall|y: int| runs_set(w).contains(y) == runs_set(v).remove(x as int).contains(y) by {
        if runs_set(w).contains(y) {
            let j = choose|j: int| 0 <= j < w.len() && (#[trigger] w[j]).0 <= y <= w[j].1;
            assert(v[j].0 <= y <= v[j].1);
            if j < k {
                assert(v[j].1 + 1 < v[k].0);
            } else if j > k {
                assert(v[k].1 + 1 < v[j].0);
            }
        }
        if runs_set(v).remove(x as int).contains(y) {
            let j = choose|j: int| 0 <= j < v.len() && (#[trigger] v[j]).0 <= y <= v[j].1;
            assert(w[j].0 <= y <= w[j].1);
        }
    }
    assert forall|i: int, j: int| 0 <= i < j < w.len() implies w[i].1 + 1 < w[j].0 by {
        assert(v[i].1 + 1 < v[j].0);
    }
    assert(runs_set(w) =~= runs_set(v).remove(x as int));
}

pub proof fn lemma_remove_split(v: Seq<(u16, u16)>, k: int, x: u16)
    requires
        runs_ok(v),
        hit_at(v, k, x as int),
        v[k].0 < x < v[k].1,
    ensures
        runs_ok(v.update(k, (v[k].0, (x - 1) as u16)).insert(k + 1, ((x + 1) as u16, v[k].1))),
        runs_set(v.update(k, (v[k].0, (x - 1) as u16)).insert(k + 1, ((x + 1) as u16, v[k].1)))
            == runs_set(v).remove(x as int),
{
    let w = v.update(k, (v[k].0, (x - 1) as u16)).insert(k + 1, ((x + 1) as u16, v[k].1));
    assert forall|y: int| runs_set(w).contains(y) == runs_set(v).remove(x as int).contains(y) by {
        if runs_set(w).contains(y) {
            let j = choose|j: int| 0 <= j < w.len() && (#[trigger] w[j]).0 <= y <= w[j].1;
            if j <= k {
                assert(v[j].0 <= y <= v[j].1);
                if j < k {
                    assert(v[j].1 + 1 < v[k].0);
                }
            } else if j == k + 1 {
                assert(v[k].0 <= y <= v[k].1);
            } else {
                assert(v[j - 1].0 <= y <= v[j - 1].1);
                assert(v[k].1 + 1 < v[j - 1].0);
            }
        }
        if runs_set(v).remove(x as int).contains(y) {
            let j = choose|j: int| 0 <= j < v.len() && (#[trigger] v[j]).0 <= y <= v[j].1;
            if j < k {
                assert(w[j].0 <= y <= w[j].1);
            } else if j == k {
                if y < x {
                    assert(w[j].0 <= y <= w[j].1);
                } else {
                    assert(w[j + 1].0 <= y <= w[j + 1].1);
                }
            } else {
                assert(w[j + 1].0 <= y <= w[j + 1].1);
            }
        }
    }
    assert forall|i: int, j: int| 0 <= i < j < w.len() implies w[i].1 + 1 < w[j].0 by {
        if j <= k {
            assert(v[i].1 + 1 < v[j].0);
        } else if j == k + 1 {
            if i < k {
                assert(v[i].1 + 1 < v[k].0);
            }
        } else if i < k {
            assert(v[i].1 + 1 < v[j - 1].0);
        } else if i == k || i == k + 1 {
            assert(v[k].1 + 1 < v[j - 1].0);
        } else {
            assert(v[i - 1].1 + 1 < v[j - 1].0);
        }
    }
    assert(runs_set(w) =~= runs_set(v).remove(x as int));
}

impl Rle16 {
    /// Number of members strictly below `i`.
    pub fn rank1(&self, i: u16) -> (r: u32)
        requires
            self.wf(),
        ensures
            r == rank_of(self@, i as int),
    {
        let ghost s = self@;
        let ghost v = self.ranges@;
        proof {
            self.lemma_wf();
            lemma_rank_zero(s, BLOCK_CAPACITY as int);
        }
        let n = self.ranges.len();
        let mut k: usize = 0;
        let mut acc: u32 = 0;
        while k < n && self.ranges[k].1 < i
            invariant
                self.wf(),
                s == self@,
                v == self.ranges@,
                within(s, BLOCK_CAPACITY as int),
                s.len() <= BLOCK_CAPACITY,
                n == v.len(),
                k <= n,
                forall|j: int| 0 <= j < k ==> v[j].1 < i,
                acc == rank_of(s, after(v, k as int)),
            decreases n - k,
        {
            let lo = self.ranges[k].0;
            let hi = self.ranges[k].1;
            proof {
                lemma_runs_layout(v, k as int);
                lemma_rank_empty_interval(s, after(v, k as int), lo as int);
                lemma_rank_full_interval(s, lo as int, hi + 1);
                crate::bits::lemma_below_finite(s, hi + 1);
            }
            acc = acc + (hi - lo) as u32 + 1;
            k = k + 1;
        }
        if k < n && self.ranges[k].0 < i {
            let lo = self.ranges[k].0;
            proof {
                lemma_runs_layout(v, k as int);
                lemma_rank_empty_interval(s, after(v, k as int), lo as int);
                lemma_rank_full_interval(s, lo as int, i as int);
                crate::bits::lemma_below_finite(s, i as int);
            }
            acc + (i - lo) as u32
        } else {
            proof {
                if k < n {
                    lemma_runs_layout(v, k as int);
                } else {
                    assert forall|x: int| after(v, k as int) <= x < i implies !s.contains(x) by {
                        lemma_runs_tail(v, x);
                    }
                }
                lemma_rank_empty_interval(s, after(v, k as int), i as int);
            }
            acc
        }
    }

    /// Position of the `(c+1)`-th member.
    pub fn select1(&self, c: u32) -> (r: Option<u16>)
        requires
            self.wf(),
        ensures
            match r {
                Some(p) => is_select(self@, c as int, p as int),
                None => c >= self@.len(),
            },
    {
        let ghost s = self@;
        let ghost v = self.ranges@;
        proof {
            self.lemma_wf();
            lemma_rank_zero(s, BLOCK_CAPACITY as int);
        }
        let n = self.ranges.len();
        let mut k: usize = 0;
        let mut acc: u32 = 0;
        while k < n
            invariant
                self.wf(),
                s == self@,
                v == self.ranges@,
                within(s, BLOCK_CAPACITY as int),
                s.len() <= BLOCK_CAPACITY,
                n == v.len(),
                k <= n,
                acc <= c,
                acc == rank_of(s, after(v, k as int)),
            decreases n - k,
        {
            let lo = self.ranges[k].0;
            let hi = self.ranges[k].1;
            proof {
                lemma_runs_layout(v, k as int);
                lemma_rank_empty_interval(s, after(v, k as int), lo as int);
                lemma_rank_full_interval(s, lo as int, hi + 1);
                crate::bits::lemma_below_finite(s, hi + 1);
            }
            let len = (hi - lo) as u32 + 1;
            if c - acc < len {
                let p = lo + (c - acc) as u16;
                proof {
                    lemma_rank_full_interval(s, lo as int, p as int);
                }
                return Some(p);
            }
            acc = acc + len;
            k = k + 1;
        }
        proof {
            assert forall|x: int| after(v, k as int) <= x < BLOCK_CAPACITY implies !s.contains(x) by {
                lemma_runs_tail(v, x);
            }
            lemma_rank_empty_interval(s, after(v, k as int), BLOCK_CAPACITY as int);
            crate::bits::lemma_rank_full(s, BLOCK_CAPACITY as int, BLOCK_CAPACITY as int);
        }
        None
    }

    /// The members in ascending order.
    pub fn to_vec(&self) -> (r: Vec<u16>)
        requires
            self.wf(),
        ensures
            sorted_strict(r@),
            seq_set(r@) == self@,
    {
        let ghost s = self@;
        let ghost v = self.ranges@;
        proof {
            self.lemma_wf();
        }
        let mut out: Vec<u16> = Vec::new();
        let n = self.ranges.len();
        let mut k: usize = 0;
        assert(seq_set(out@) =~= below(s, 0));
        while k < n
            invariant
                self.wf(),
                s == self@,
                v == self.ranges@,
                within(s, BLOCK_CAPACITY as int),
                n == v.len(),
                k <= n,
                sorted_strict(out@),
                forall|j: int| 0 <= j < out@.len() ==> out@[j] < after(v, k as int),
                seq_set(out@) == below(s, after(v, k as int)),
            decreases n - k,
        {
            let lo = self.ranges[k].0;
            let hi = self.ranges[k].1;
            proof {
                lemma_runs_layout(v, k as int);
                assert(below(s, lo as int) =~= below(s, after(v, k as int)));
            }
            let mut x: u32 = lo as u32;
            while x <= hi as u32
                invariant
                    self.wf(),
                    s == self@,
                    v == self.ranges@,
                    within(s, BLOCK_CAPACITY as int),
                    k < n,
                    n == v.len(),
                    lo == v[k as int].0,
                    hi == v[k as int].1,
                    lo <= x <= hi + 1,
                    forall|y: int| lo <= y <= hi ==> s.contains(y),
                    sorted_strict(out@),
                    forall|j: int| 0 <= j < out@.len() ==> out@[j] < x,
                    seq_set(out@) == below(s, x as int),
                decreases hi + 1 - x,
            {
                let ghost before = out@;
                out.push(x as u16);
                proof {
                    lemma_seq_set_push(before, x as u16);
                    assert(below(s, x + 1) =~= below(s, x as int).insert(x as int));
                }
                x = x + 1;
            }
            k = k + 1;
        }
        proof {
            assert forall|y: int| after(v, k as int) <= y implies !s.contains(y) by {
                lemma_runs_tail(v, y);
            }
            assert(below(s, after(v, k as int)) =~= s);
        }
        out
    }

    /// Builds the ranges of the values of a strictly ascending sequence.
    pub fn from_sorted(vals: &Vec<u16>) -> (r: Rle16)
        requires
            sorted_strict(vals@),
        ensures
            r.wf(),
            r@ == seq_set(vals@),
    {
        let mut r = Rle16::new();
        let mut i: usize = 0;
        while i < vals.len()
            invariant
                r.wf(),
                sorted_strict(vals@),
                i <= vals@.len(),
                r@ == seq_set(vals@.subrange(0, i as int)),
                i == 0 <==> r.ranges@.len() == 0,
                i > 0 ==> r.ranges@.last().1 == vals@[i - 1],
            decreases vals@.len() - i,
        {
            let x = vals[i];
            let ghost v = r.ranges@;
            let ghost old_set = r@;
            proof {
                r.lemma_wf();
                assert(!old_set.contains(x as int)) by {
                    if old_set.contains(x as int) {
                        let j = choose|j: int| 0 <= j < i && (#[trigger] vals@.subrange(0, i as int)[j]) as int == x as int;
                        assert(vals@[j] < vals@[i as int]);
                    }
                }
                lemma_within_len(old_set.insert(x as int), BLOCK_CAPACITY as int);
                assert forall|j: int| 0 <= j < v.len() implies v[j].1 < x by {
                    if j < v.len() - 1 {
                        assert(v[j].1 + 1 < v[v.len() - 1].0);
                    }
                }
            }
            let n = r.ranges.len();
            if n > 0 && r.ranges[n - 1].1 as u32 + 1 == x as u32 {
                let lo = r.ranges[n - 1].0;
                r.ranges.set(n - 1, (lo, x));
                proof {
                    lemma_insert_extend_end(v, n as int, x);
                }
            } else {
                r.ranges.push((x, x));
                proof {
                    assert(r.ranges@ == v.insert(n as int, (x, x)));
                    lemma_insert_new(v, n as int, x);
                }
            }
            r.weight = r.weight + 1;
            proof {
                assert(vals@.subrange(0, i + 1) == vals@.subrange(0, i as int).push(x));
                lemma_seq_set_push(vals@.subrange(0, i as int), x);
            }
            i = i + 1;
        }
        assert(vals@.subrange(0, i as int) == vals@);
        r
    }
}

/// The integers of `[lo, hi]`.
pub open spec fn span(lo: int, hi: int) -> Set<int> {
    vstd::set_lib::set_int_range(lo, hi + 1)
}

/// Appending a range past the last one adds exactly its positions.
pub proof fn lemma_append_run(v: Seq<(u16, u16)>, lo: u16, hi: u16)
    requires
        runs_ok(v),
        lo <= hi,
        v.len() > 0 ==> v.last().1 + 1 < lo,
    ensures
        runs_ok(v.push((lo, hi))),
        runs_set(v.push((lo, hi))) == runs_set(v).union(span(lo as int, hi as int)),
{
    let w = v.push((lo, hi));
    assert forall|i: int, j: int| 0 <= i < j < w.len() implies w[i].1 + 1 < w[j].0 by {
        if j == v.len() && i < v.len() - 1 {
            assert(v[i].1 + 1 < v[v.len() - 1].0);
        }
    }
    assert forall|x: int| #[trigger] runs_set(w).contains(x) == runs_set(v).union(span(lo as int, hi as int)).contains(x) by {
        if runs_set(w).contains(x) {
            let k = choose|k: int| 0 <= k < w.len() && (#[trigger] w[k]).0 <= x <= w[k].1;
            if k < v.len() {
                assert(v[k].0 <= x <= v[k].1);
            }
        }
        if runs_set(v).contains(x) {
            let k = choose|k: int| 0 <= k < v.len() && (#[trigger] v[k]).0 <= x <= v[k].1;
            assert(w[k].0 <= x <= w[k].1);
        }
        if lo <= x <= hi {
            assert(w[v.len() as int].0 <= x <= w[v.len() as int].1);
        }
    }
    assert(runs_set(w) =~= runs_set(v).union(span(lo as int, hi as int)));
}

/// Stretching the last range to end at `hi` adds the positions past its old end.
pub proof fn lemma_extend_run(v: Seq<(u16, u16)>, hi: u16)
    requires
        runs_ok(v),
        v.len() > 0,
        v.last().1 < hi,
    ensures
        runs_ok(v.update(v.len() - 1, (v.last().0, hi))),
        runs_set(v.update(v.len() - 1, (v.last().0, hi))) == runs_set(v).union(
            span(v.last().1 + 1, hi as int),
        ),
{
    let n = v.len() - 1;
    let w = v.update(n, (v.last().0, hi));
    assert forall|x: int| #[trigger] runs_set(w).contains(x) == runs_set(v).union(span(v.last().1 + 1, hi as int)).contains(x) by {
        if runs_set(w).contains(x) {
            let k = choose|k: int| 0 <= k < w.len() && (#[trigger] w[k]).0 <= x <= w[k].1;
            if k < n || x <= v[n].1 {
                assert(v[k].0 <= x <= v[k].1);
            }
        }
        if runs_set(v).contains(x) {
            let k = choose|k: int| 0 <= k < v.len() && (#[trigger] v[k]).0 <= x <= v[k].1;
            assert(w[k].0 <= x <= w[k].1);
        }
        if v.last().1 + 1 <= x <= hi {
            assert(w[n].0 <= x <= w[n].1);
        }
    }
    assert(runs_set(w) =~= runs_set(v).union(span(v.last().1 + 1, hi as int)));
}

/// With ranges before `i` all ending below `pos`, membership is constant on `[pos, next)`.
pub proof fn lemma_window(v: Seq<(u16, u16)>, i: int, pos: int, next: int, inside: bool)
    requires
        runs_ok(v),
        0 <= i <= v.len(),
        forall|k: int| 0 <= k < i ==> v[k].1 < pos,
        i < v.len() ==> v[i].1 >= pos,
        inside == (i < v.len() && v[i].0 <= pos),
        pos < next,
        inside ==> next <= v[i].1 + 1,
        !inside && i < v.len() ==> next <= v[i].0,
    ensures
        forall|x: int| pos <= x < next ==> runs_set(v).contains(x) == inside,
{
    assert forall|x: int| pos <= x < next implies runs_set(v).contains(x) == inside by {
        if inside {
            assert(v[i].0 <= x <= v[i].1);
        } else if runs_set(v).contains(x) {
            let k = choose|k: int| 0 <= k < v.len() && (#[trigger] v[k]).0 <= x <= v[k].1;
            if k > i {
                assert(v[i].1 + 1 < v[k].0);
            }
        }
    }
}

impl Rle16 {
    /// Applies `op` by one sweep over the run boundaries of both operands.
    pub fn pairwise(&self, other: &Rle16, op: SetOp) -> (r: Rle16)
        requires
            self.wf(),
            other.wf(),
        ensures
            r.wf(),
            r@ == apply_op(op, self@, other@),
    {
        let a = &self.ranges;
        let b = &other.ranges;
        let ghost sa = self@;
        let ghost sb = other@;
        let ghost t = apply_op(op, sa, sb);
        proof {
            self.lemma_wf();
            other.lemma_wf();
            crate::bits::lemma_apply_op_within(op, sa, sb, BLOCK_CAPACITY as int);
        }
        let la = a.len();
        let lb = b.len();
        let mut out: Vec<(u16, u16)> = Vec::new();
        let mut weight: u32 = 0;
        let mut i: usize = 0;
        let mut j: usize = 0;
        let mut pos: u32 = 0;
        assert(runs_set(out@) =~= below(t, 0));
        while pos < BLOCK_CAPACITY
            invariant
                runs_ok(a@),
                runs_ok(b@),
                sa == runs_set(a@),
                sb == runs_set(b@),
                t == apply_op(op, sa, sb),
                within(t, BLOCK_CAPACITY as int),
                la == a@.len(),
                lb == b@.len(),
                i <= la,
                j <= lb,
                pos <= BLOCK_CAPACITY,
                forall|k: int| 0 <= k < i ==> a@[k].1 < pos,
                forall|k: int| 0 <= k < j ==> b@[k].1 < pos,
                i < la ==> a@[i as int].1 >= pos,
                j < lb ==> b@[j as int].1 >= pos,
                runs_ok(out@),
                out@.len() > 0 ==> out@.last().1 < pos,
                runs_set(out@) == below(t, pos as int),
                weight == runs_set(out@).len(),
            decreases BLOCK_CAPACITY - pos,
        {
            let in_a = i < la && a[i].0 as u32 <= pos;
            let in_b = j < lb && b[j].0 as u32 <= pos;
            let na: u32 = if i < la {
                if in_a {
                    a[i].1 as u32 + 1
                } else {
                    a[i].0 as u32
                }
            } else {
                BLOCK_CAPACITY
            };
            let nb: u32 = if j < lb {
                if in_b {
                    b[j].1 as u32 + 1
                } else {
                    b[j].0 as u32
                }
            } else {
                BLOCK_CAPACITY
            };
            let next = if na < nb {
                na
            } else {
                nb
            };
            let ghost before = out@;
            proof {
                lemma_window(a@, i as int, pos as int, next as int, in_a);
                lemma_window(b@, j as int, pos as int, next as int, in_b);
                assert forall|x: int| pos <= x < next implies t.contains(x) == keep_spec(op, in_a, in_b) by {}
                crate::bits::lemma_below_finite(t, pos as int);
                assert(within(below(t, pos as int), pos as int));
                lemma_within_len(below(t, pos as int), pos as int);
                vstd::set_lib::lemma_int_range(pos as int, next as int);
            }
            if keep(op, in_a, in_b) {
                let n = out.len();
                if n > 0 && out[n - 1].1 as u32 + 1 == pos {
                    let first = out[n - 1].0;
                    out.set(n - 1, (first, (next - 1) as u16));
                    proof {
                        lemma_extend_run(before, (next - 1) as u16);
                    }
                } else {
                    out.push((pos as u16, (next - 1) as u16));
                    proof {
                        lemma_append_run(before, pos as u16, (next - 1) as u16);
                    }
                }
                proof {
                    assert(below(t, next as int) =~= below(t, pos as int).union(span(pos as int, next - 1)));
                    assert(below(t, pos as int).disjoint(span(pos as int, next - 1)));
                    vstd::set_lib::lemma_set_disjoint_lens(below(t, pos as int), span(pos as int, next - 1));
                }
                weight = weight + (next - pos);
            } else {
                assert(below(t, next as int) =~= below(t, pos as int));
            }
            pos = next;
            if i < la && a[i].1 as u32 + 1 <= pos {
                proof {
                    if i + 1 < la {
                        assert(a@[i as int].1 + 1 < a@[i + 1].0);
                    }
                }
                i = i + 1;
            }
            if j < lb && b[j].1 as u32 + 1 <= pos {
                proof {
                    if j + 1 < lb {
                        assert(b@[j as int].1 + 1 < b@[j + 1].0);
                    }
                }
                j = j + 1;
            }
        }
        proof {
            assert(below(t, pos as int) =~= t);
        }
        Rle16 { weight, ranges: out }
    }
}

} // verus!
