use vstd::prelude::*;

use crate::bits::{
    apply_op, keep, SetOp,
    is_select, is_select0, lemma_rank_full, lemma_rank_mono, lemma_rank_step, lemma_rank_zero,
    lemma_set32_len, lemma_set32_push, lemma_set64_push, lemma_within_len, rank0_of, rank_of,
    set32, set64, sorted64, sorted32, within,
};
use crate::bit_map::BitMap;
use crate::two_level::{
    lemma_compose, lemma_insert_slot, lemma_two_level_absent, lemma_two_level_contains,
    lemma_slot_insert, lemma_two_level_len, lemma_two_level_rank, lemma_two_level_step,
    lemma_two_level_within, lemma_update_slot, level_ok, slot, sum_lens, two_level,
};

verus! {

broadcast use vstd::set::group_set_axioms, vstd::set_lib::group_set_properties;

/// Number of positions that one 32-bit map covers in a 64-bit map.
pub const MAP_SPAN: u64 = 0x1_0000_0000;

/// Size of the universe of a 64-bit map.
pub const UNIVERSE64: u128 = 0x1_0000_0000_0000_0000;

pub open spec fn key_ints(keys: Seq<u32>) -> Seq<int> {
    keys.map_values(|k: u32| k as int)
}

pub open spec fn map_sets(maps: Seq<BitMap>) -> Seq<Set<int>> {
    maps.map_values(|b: BitMap| b@)
}

/// A set of 64-bit values: 32-bit maps keyed by the high 32 bits, in ascending key order.
#[derive(Clone, Debug)]
pub struct Vec64 {
    pub keys: Vec<u32>,
    pub maps: Vec<BitMap>,
}

impl Vec64 {
    pub open spec fn wf(&self) -> bool {
        &&& self.keys@.len() == self.maps@.len()
        &&& sorted32(self.keys@)
        &&& forall|k: int| 0 <= k < self.maps@.len() ==> (#[trigger] self.maps@[k]).wf()
    }

    pub open spec fn view(&self) -> Set<int> {
        two_level(key_ints(self.keys@), map_sets(self.maps@), 4294967296, self.keys@.len() as int)
    }

    pub proof fn lemma_wf(&self)
        requires
            self.wf(),
        ensures
            level_ok(key_ints(self.keys@), map_sets(self.maps@), 4294967296),
            within(self@, UNIVERSE64 as int),
            self@.len() == sum_lens(map_sets(self.maps@), self.keys@.len() as int),
            self@.len() <= UNIVERSE64,
    {
        let ks = key_ints(self.keys@);
        let ss = map_sets(self.maps@);
        assert forall|k: int| 0 <= k < ss.len() implies within(#[trigger] ss[k], 4294967296) by {
            self.maps@[k].lemma_wf();
        }
        assert(level_ok(ks, ss, 4294967296));
        lemma_two_level_len(ks, ss, 4294967296, ks.len() as int);
        lemma_two_level_within(ks, ss, 4294967296, 4294967296);
        lemma_within_len(self@, UNIVERSE64 as int);
    }

    pub fn new() -> (r: Vec64)
        ensures
            r.wf(),
            r@ == Set::<int>::empty(),
    {
        let r = Vec64 { keys: Vec::new(), maps: Vec::new() };
        assert(r@ =~= Set::<int>::empty());
        r
    }

    /// Removes every member.
    pub fn clear(&mut self)
        ensures
            final(self).wf(),
            final(self)@ == Set::<int>::empty(),
    {
        *self = Vec64::new();
    }

    /// Index of the first key not below `hi`.
    fn search(&self, hi: u32) -> (r: usize)
        requires
            self.wf(),
        ensures
            r <= self.keys@.len(),
            forall|j: int| 0 <= j < r ==> self.keys@[j] < hi,
            forall|j: int| r <= j < self.keys@.len() ==> self.keys@[j] >= hi,
    {
        let mut lo: usize = 0;
        let mut hi_idx: usize = self.keys.len();
        while lo < hi_idx
            invariant
                self.wf(),
                lo <= hi_idx <= self.keys@.len(),
                forall|j: int| 0 <= j < lo ==> self.keys@[j] < hi,
                forall|j: int| hi_idx <= j < self.keys@.len() ==> self.keys@[j] >= hi,
            decreases hi_idx - lo,
        {
            let mid = lo + (hi_idx - lo) / 2;
            if self.keys[mid] < hi {
                lo = mid + 1;
            } else {
                hi_idx = mid;
            }
        }
        lo
    }

    /// Whether `x` is a member.
    pub fn contains(&self, x: u64) -> (r: bool)
        requires
            self.wf(),
        ensures
            r == self@.contains(x as int),
    {
        let hi = (x / MAP_SPAN) as u32;
        let lo = (x % MAP_SPAN) as u32;
        let p = self.search(hi);
        let ghost ks = key_ints(self.keys@);
        let ghost ss = map_sets(self.maps@);
        proof {
            self.lemma_wf();
            lemma_compose(x as int, 4294967296);
        }
        if p < self.keys.len() && self.keys[p] == hi {
            proof {
                lemma_two_level_contains(ks, ss, 4294967296, p as int, lo as int);
            }
            self.maps[p].contains(lo)
        } else {
            proof {
                assert forall|k: int| 0 <= k < ks.len() implies ks[k] != x / 4294967296 by {
                    if k > p {
                        assert(self.keys@[p as int] < self.keys@[k]);
                    }
                }
                lemma_two_level_absent(ks, ss, 4294967296, x as int);
            }
            false
        }
    }

    /// Adds `x`; returns whether it was absent.
    pub fn insert(&mut self, x: u64) -> (r: bool)
        requires
            old(self).wf(),
        ensures
            final(self).wf(),
            final(self)@ == old(self)@.insert(x as int),
            r == !old(self)@.contains(x as int),
    {
        let hi = (x / MAP_SPAN) as u32;
        let lo = (x % MAP_SPAN) as u32;
        let p = self.search(hi);
        let ghost ks = key_ints(self.keys@);
        let ghost ss = map_sets(self.maps@);
        let ghost old_view = self@;
        proof {
            self.lemma_wf();
            lemma_compose(x as int, 4294967296);
        }
        if p < self.keys.len() && self.keys[p] == hi {
            proof {
                lemma_two_level_contains(ks, ss, 4294967296, p as int, lo as int);
            }
            let ghost old_block = self.maps@[p as int];
            let r = self.maps[p].insert(lo);
            proof {
                let nb = self.maps@[p as int];
                assert(map_sets(self.maps@) =~= ss.update(p as int, nb@));
                nb.lemma_wf();
                lemma_update_slot(ks, ss, 4294967296, p as int, nb@);
                assert forall|y: int| #[trigger] self@.contains(y) == old_view.insert(x as int).contains(y) by {
                    if y >= 0 && y / 4294967296 == hi as int {
                        lemma_compose(y, 4294967296);
                        lemma_two_level_contains(ks, ss, 4294967296, p as int, y % 4294967296);
                    }
                }
                assert(self@ =~= old_view.insert(x as int));
                assert forall|k: int| 0 <= k < self.maps@.len() implies (#[trigger] self.maps@[k]).wf() by {
                    if k != p {
                        assert(self.maps@[k] == old(self).maps@[k]);
                    }
                }
            }
            r
        } else {
            proof {
                assert forall|k: int| p <= k < ks.len() implies ks[k] > hi by {
                    if k > p {
                        assert(self.keys@[p as int] < self.keys@[k]);
                    }
                }
                assert forall|k: int| 0 <= k < ks.len() implies ks[k] != x / 4294967296 by {}
                lemma_two_level_absent(ks, ss, 4294967296, x as int);
            }
            let mut b = BitMap::new();
            b.insert(lo);
            proof {
                b.lemma_wf();
            }
            self.keys.insert(p, hi);
            self.maps.insert(p, b);
            proof {
                assert(key_ints(self.keys@) =~= ks.insert(p as int, hi as int));
                assert(map_sets(self.maps@) =~= ss.insert(p as int, b@));
                lemma_insert_slot(ks, ss, 4294967296, p as int, hi as int, b@);
                assert forall|y: int| #[trigger] self@.contains(y) == old_view.insert(x as int).contains(y) by {
                    assert(self@.contains(y) == two_level(
                        ks.insert(p as int, hi as int),
                        ss.insert(p as int, b@),
                        4294967296,
                        ks.len() + 1int,
                    ).contains(y));
                    if y >= 0 && y / 4294967296 == hi as int {
                        lemma_compose(y, 4294967296);
                        assert forall|k: int| 0 <= k < ks.len() implies ks[k] != y / 4294967296 by {}
                        lemma_two_level_absent(ks, ss, 4294967296, y);
                        assert(b@.contains(y % 4294967296) == (y % 4294967296 == lo as int));
                    }
                }
                assert(self@ =~= old_view.insert(x as int));
                let nk = self.keys@;
                assert forall|i: int, j: int| 0 <= i < j < nk.len() implies nk[i] < nk[j] by {
                    if i < p && j > p {
                        assert(nk[j] == old(self).keys@[j - 1]);
                    } else if i == p {
                        assert(nk[j] == old(self).keys@[j - 1]);
                    } else if i > p {
                        assert(nk[i] == old(self).keys@[i - 1]);
                        assert(nk[j] == old(self).keys@[j - 1]);
                    }
                }
                assert forall|k: int| 0 <= k < self.maps@.len() implies (#[trigger] self.maps@[k]).wf() by {
                    if k < p {
                        assert(self.maps@[k] == old(self).maps@[k]);
                    } else if k > p {
                        assert(self.maps@[k] == old(self).maps@[k - 1]);
                    }
                }
            }
            true
        }
    }

    /// Removes `x`; returns whether it was present. An emptied 32-bit map stays until `optimize`.
    pub fn remove(&mut self, x: u64) -> (r: bool)
        requires
            old(self).wf(),
        ensures
            final(self).wf(),
            final(self)@ == old(self)@.remove(x as int),
            r == old(self)@.contains(x as int),
    {
        let hi = (x / MAP_SPAN) as u32;
        let lo = (x % MAP_SPAN) as u32;
        let p = self.search(hi);
        let ghost ks = key_ints(self.keys@);
        let ghost ss = map_sets(self.maps@);
        let ghost old_view = self@;
        proof {
            self.lemma_wf();
            lemma_compose(x as int, 4294967296);
        }
        if p < self.keys.len() && self.keys[p] == hi {
            proof {
                lemma_two_level_contains(ks, ss, 4294967296, p as int, lo as int);
            }
            let r = self.maps[p].remove(lo);
            proof {
                let nb = self.maps@[p as int];
                assert(map_sets(self.maps@) =~= ss.update(p as int, nb@));
                nb.lemma_wf();
                lemma_update_slot(ks, ss, 4294967296, p as int, nb@);
                assert forall|y: int| #[trigger] self@.contains(y) == old_view.remove(x as int).contains(y) by {
                    if y >= 0 && y / 4294967296 == hi as int {
                        lemma_compose(y, 4294967296);
                        lemma_two_level_contains(ks, ss, 4294967296, p as int, y % 4294967296);
                    }
                }
                assert(self@ =~= old_view.remove(x as int));
                assert forall|k: int| 0 <= k < self.maps@.len() implies (#[trigger] self.maps@[k]).wf() by {
                    if k != p {
                        assert(self.maps@[k] == old(self).maps@[k]);
                    }
                }
            }
            r
        } else {
            proof {
                assert forall|k: int| 0 <= k < ks.len() implies ks[k] != x / 4294967296 by {
                    if k > p {
                        assert(self.keys@[p as int] < self.keys@[k]);
                    }
                }
                lemma_two_level_absent(ks, ss, 4294967296, x as int);
                assert(self@ =~= old_view.remove(x as int));
            }
            false
        }
    }

    /// Sum of the weights of the first `n` maps.
    fn weight_below(&self, n: usize) -> (r: u128)
        requires
            self.wf(),
            n <= self.keys@.len(),
        ensures
            r == sum_lens(map_sets(self.maps@), n as int),
    {
        let ghost ss = map_sets(self.maps@);
        proof {
            self.lemma_wf();
            crate::bits::lemma_set32_len(self.keys@);
            lemma_within_len(crate::bits::set32(self.keys@), 4294967296);
        }
        let mut acc: u128 = 0;
        let mut k: usize = 0;
        while k < n
            invariant
                self.wf(),
                ss == map_sets(self.maps@),
                k <= n <= self.keys@.len(),
                n <= self.keys@.len(),
                self.keys@.len() <= 4294967296,
                acc == sum_lens(ss, k as int),
                acc <= 4294967296 * k,
            decreases n - k,
        {
            acc = acc + self.maps[k].count_ones() as u128;
            k = k + 1;
        }
        acc
    }

    /// Number of members.
    pub fn count_ones(&self) -> (r: u128)
        requires
            self.wf(),
        ensures
            r == self@.len(),
    {
        proof {
            self.lemma_wf();
        }
        self.weight_below(self.keys.len())
    }

    /// Number of non-members in the universe `[0, 2^64)`.
    pub fn count_zeros(&self) -> (r: u128)
        requires
            self.wf(),
        ensures
            r == UNIVERSE64 - self@.len(),
    {
        proof {
            self.lemma_wf();
        }
        UNIVERSE64 - self.count_ones()
    }
}

impl Vec64 {
    /// Number of members strictly below `i`.
    pub fn rank1(&self, i: u64) -> (r: u128)
        requires
            self.wf(),
        ensures
            r == rank_of(self@, i as int),
    {
        let hi = (i / MAP_SPAN) as u32;
        let lo = (i % MAP_SPAN) as u32;
        let p = self.search(hi);
        let ghost ks = key_ints(self.keys@);
        let ghost ss = map_sets(self.maps@);
        let acc = self.weight_below(p);
        proof {
            self.lemma_wf();
            lemma_compose(i as int, 4294967296);
            lemma_two_level_rank(ks, ss, 4294967296, p as int, hi as int, lo as int);
            crate::bits::lemma_below_finite(self@, i as int);
        }
        if p < self.keys.len() && self.keys[p] == hi {
            acc + self.maps[p].rank1(lo) as u128
        } else {
            acc
        }
    }

    /// Number of non-members strictly below `i`.
    pub fn rank0(&self, i: u64) -> (r: u128)
        requires
            self.wf(),
        ensures
            r == rank0_of(self@, i as int),
    {
        proof {
            self.lemma_wf();
            lemma_rank_mono(self@, 0, i as int);
            lemma_rank_zero(self@, UNIVERSE64 as int);
        }
        i as u128 - self.rank1(i)
    }

    /// Position of the `(c+1)`-th member, or `None` when `c` is not below the count.
    pub fn select1(&self, c: u64) -> (r: Option<u64>)
        requires
            self.wf(),
        ensures
            match r {
                Some(p) => is_select(self@, c as int, p as int),
                None => c >= self@.len(),
            },
    {
        let ghost ks = key_ints(self.keys@);
        let ghost ss = map_sets(self.maps@);
        proof {
            self.lemma_wf();
        }
        if c as u128 >= self.count_ones() {
            return None;
        }
        let n = self.keys.len();
        let mut k: usize = 0;
        let mut acc: u128 = 0;
        while k < n
            invariant
                self.wf(),
                ks == key_ints(self.keys@),
                ss == map_sets(self.maps@),
                level_ok(ks, ss, 4294967296),
                n == self.keys@.len(),
                k <= n,
                acc == sum_lens(ss, k as int),
                acc <= c,
                c < self@.len(),
                self@.len() == sum_lens(ss, n as int),
            decreases n - k,
        {
            let w = self.maps[k].count_ones() as u128;
            if c as u128 - acc < w {
                let sel = self.maps[k].select1((c as u128 - acc) as u64);
                match sel {
                    Some(lo) => {
                        let x = self.keys[k] as u64 * MAP_SPAN + lo as u64;
                        proof {
                            lemma_two_level_contains(ks, ss, 4294967296, k as int, lo as int);
                            assert forall|j: int| k <= j < ks.len() implies ks[j] >= ks[k as int] by {
                                if j > k {
                                    assert(self.keys@[k as int] < self.keys@[j]);
                                }
                            }
                            lemma_two_level_rank(ks, ss, 4294967296, k as int, ks[k as int], lo as int);
                        }
                        return Some(x);
                    },
                    None => {
                        return None;
                    },
                }
            }
            acc = acc + w;
            k = k + 1;
        }
        None
    }

    /// Position of the `(c+1)`-th non-member, found by binary search on `rank0`.
    pub fn select0(&self, c: u64) -> (r: Option<u64>)
        requires
            self.wf(),
        ensures
            match r {
                Some(p) => is_select0(self@, c as int, p as int),
                None => c >= UNIVERSE64 - self@.len(),
            },
    {
        let ghost s = self@;
        proof {
            self.lemma_wf();
            lemma_rank_zero(s, UNIVERSE64 as int);
            lemma_rank_full(s, UNIVERSE64 as int, UNIVERSE64 as int);
        }
        if c as u128 >= self.count_zeros() {
            return None;
        }
        let mut lo: u128 = 0;
        let mut hi: u128 = UNIVERSE64;
        while hi - lo > 1
            invariant
                self.wf(),
                s == self@,
                within(s, UNIVERSE64 as int),
                lo < hi <= UNIVERSE64,
                rank0_of(s, lo as int) <= c,
                c < rank0_of(s, hi as int),
            decreases hi - lo,
        {
            let mid = lo + (hi - lo) / 2;
            if self.rank0(mid as u64) <= c as u128 {
                lo = mid;
            } else {
                hi = mid;
            }
        }
        proof {
            lemma_rank_step(s, lo as int);
        }
        Some(lo as u64)
    }
}

impl Vec64 {
    /// The members in ascending order.
    pub fn iter(&self) -> (r: Vec<u64>)
        requires
            self.wf(),
        ensures
            sorted64(r@),
            set64(r@) == self@,
    {
        let ghost ks = key_ints(self.keys@);
        let ghost ss = map_sets(self.maps@);
        proof {
            self.lemma_wf();
        }
        let n = self.keys.len();
        let mut out: Vec<u64> = Vec::new();
        let mut k: usize = 0;
        assert(set64(out@) =~= two_level(ks, ss, 4294967296, 0));
        while k < n
            invariant
                self.wf(),
                ks == key_ints(self.keys@),
                ss == map_sets(self.maps@),
                level_ok(ks, ss, 4294967296),
                n == self.keys@.len(),
                k <= n,
                sorted64(out@),
                k < n ==> forall|m: int| 0 <= m < out@.len() ==> out@[m] < ks[k as int] * 4294967296,
                set64(out@) == two_level(ks, ss, 4294967296, k as int),
            decreases n - k,
        {
            let key = self.keys[k];
            let vals = self.maps[k].iter();
            let base = key as u64 * MAP_SPAN;
            let ghost start = set64(out@);
            proof {
                lemma_two_level_step(ks, ss, 4294967296, k as int);
                lemma_set32_len(vals@);
            }
            let mut j: usize = 0;
            assert(slot(key as int, set32(vals@.subrange(0, 0)), 4294967296) =~= Set::empty());
            while j < vals.len()
                invariant
                    self.wf(),
                    ks == key_ints(self.keys@),
                    ss == map_sets(self.maps@),
                    level_ok(ks, ss, 4294967296),
                    n == self.keys@.len(),
                    k < n,
                    key == self.keys@[k as int],
                    base == key * 4294967296,
                    sorted32(vals@),
                    j <= vals@.len(),
                    sorted64(out@),
                    forall|m: int| 0 <= m < out@.len() ==> out@[m] < (if j < vals@.len() { base + vals@[j as int] } else { base + 4294967296 }),
                    set64(out@) == start.union(slot(key as int, set32(vals@.subrange(0, j as int)), 4294967296)),
                decreases vals@.len() - j,
            {
                let y = base + vals[j] as u64;
                proof {
                    lemma_set64_push(out@, y);
                    assert(vals@.subrange(0, j + 1) == vals@.subrange(0, j as int).push(vals@[j as int]));
                    lemma_set32_push(vals@.subrange(0, j as int), vals@[j as int]);
                    lemma_slot_insert(key as int, set32(vals@.subrange(0, j as int)), 4294967296, vals@[j as int] as int);
                    if j + 1 < vals@.len() {
                        assert(vals@[j as int] < vals@[j + 1]);
                    }
                }
                out.push(y);
                j = j + 1;
            }
            proof {
                assert(vals@.subrange(0, j as int) == vals@);
                assert(self.maps@[k as int]@ == ss[k as int]);
                if k + 1 < n {
                    assert(self.keys@[k as int] < self.keys@[k + 1]);
                }
            }
            k = k + 1;
        }
        out
    }

    /// Builds a map holding the given values.
    pub fn from_iter(vals: &Vec<u64>) -> (r: Vec64)
        ensures
            r.wf(),
            r@ == set64(vals@),
    {
        let mut r = Vec64::new();
        let mut i: usize = 0;
        while i < vals.len()
            invariant
                r.wf(),
                i <= vals@.len(),
                r@ == set64(vals@.subrange(0, i as int)),
            decreases vals@.len() - i,
        {
            r.insert(vals[i]);
            proof {
                assert(vals@.subrange(0, i + 1) == vals@.subrange(0, i as int).push(vals@[i as int]));
                lemma_set64_push(vals@.subrange(0, i as int), vals@[i as int]);
            }
            i = i + 1;
        }
        assert(vals@.subrange(0, i as int) == vals@);
        r
    }
}

impl Vec64 {
    /// Every 32-bit map is non-empty and has all its blocks optimized.
    pub open spec fn is_optimized(&self) -> bool {
        forall|k: int|
            0 <= k < self.maps@.len() ==> (#[trigger] self.maps@[k])@.len() > 0
                && self.maps@[k].is_optimized()
    }

    /// Optimizes every 32-bit map and drops the empty ones; the members stay the same.
    pub fn optimize(&mut self)
        requires
            old(self).wf(),
        ensures
            final(self).wf(),
            final(self)@ == old(self)@,
            final(self).is_optimized(),
    {
        let ghost ks = key_ints(self.keys@);
        let ghost ss = map_sets(self.maps@);
        let ghost all = self@;
        proof {
            self.lemma_wf();
        }
        let n = self.keys.len();
        let mut keys: Vec<u32> = Vec::new();
        let mut maps: Vec<BitMap> = Vec::new();
        let mut k: usize = 0;
        assert(two_level(key_ints(keys@), map_sets(maps@), 4294967296, 0) =~= Set::empty());
        while k < n
            invariant
                self.wf(),
                ks == key_ints(self.keys@),
                ss == map_sets(self.maps@),
                all == self@,
                level_ok(ks, ss, 4294967296),
                n == self.keys@.len(),
                k <= n,
                keys@.len() == maps@.len(),
                sorted32(keys@),
                forall|j: int| 0 <= j < maps@.len() ==> (#[trigger] maps@[j]).wf(),
                forall|j: int| 0 <= j < maps@.len() ==> (#[trigger] maps@[j])@.len() > 0 && maps@[j].is_optimized(),
                k < n ==> forall|m: int| 0 <= m < keys@.len() ==> keys@[m] < self.keys@[k as int],
                forall|x: int| #[trigger] two_level(key_ints(keys@), map_sets(maps@), 4294967296, keys@.len() as int).contains(x)
                    == (all.contains(x) && (k < n ==> x / 4294967296 < ks[k as int])),
            decreases n - k,
        {
            let mut b = self.maps[k].duplicate();
            b.optimize();
            let ghost nk = key_ints(keys@);
            let ghost ns = map_sets(maps@);
            let ghost key = ks[k as int];
            proof {
                assert(level_ok(nk, ns, 4294967296)) by {
                    assert forall|j: int| 0 <= j < ns.len() implies within(#[trigger] ns[j], 4294967296) by {
                        maps@[j].lemma_wf();
                    }
                }
                b.lemma_wf();
            }
            if b.count_ones() > 0 {
                let ghost before = maps@;
                keys.push(self.keys[k]);
                maps.push(b);
                proof {
                    assert(key_ints(keys@) =~= nk.insert(nk.len() as int, key));
                    assert(map_sets(maps@) =~= ns.insert(ns.len() as int, b@));
                    lemma_insert_slot(nk, ns, 4294967296, nk.len() as int, key, b@);
                    assert forall|j: int| 0 <= j < maps@.len() implies (#[trigger] maps@[j]).wf() by {
                        if j < before.len() {
                            assert(maps@[j] == before[j]);
                        }
                    }
                    assert forall|j: int| 0 <= j < maps@.len() implies (#[trigger] maps@[j])@.len() > 0
                        && maps@[j].is_optimized() by {
                        if j < before.len() {
                            assert(maps@[j] == before[j]);
                        }
                    }
                }
            }
            proof {
                if k + 1 < n {
                    assert(self.keys@[k as int] < self.keys@[k + 1]);
                }
                assert forall|x: int| #[trigger] two_level(key_ints(keys@), map_sets(maps@), 4294967296, keys@.len() as int).contains(x)
                    == (all.contains(x) && (k + 1 < n ==> x / 4294967296 < ks[k + 1])) by {
                    if x >= 0 {
                        lemma_compose(x, 4294967296);
                        if x / 4294967296 == key {
                            lemma_two_level_contains(ks, ss, 4294967296, k as int, x % 4294967296);
                        } else if key < x / 4294967296 && (k + 1 < n ==> x / 4294967296 < ks[k + 1]) {
                            assert forall|j: int| 0 <= j < ks.len() implies ks[j] != x / 4294967296 by {
                                if j < k {
                                    assert(ks[j] < ks[k as int]);
                                } else if j > k + 1 {
                                    assert(ks[k + 1] < ks[j]);
                                }
                            }
                            lemma_two_level_absent(ks, ss, 4294967296, x);
                        }
                    }
                }
            }
            k = k + 1;
        }
        self.keys = keys;
        self.maps = maps;
        proof {
            assert(self@ =~= all);
        }
    }
}

/// Sum of the projected sizes of the first `n` 32-bit maps.
pub open spec fn maps_mem(maps: Seq<BitMap>, n: int) -> int
    decreases n,
{
    if n <= 0 {
        0
    } else {
        maps_mem(maps, n - 1) + maps[n - 1].mem_spec()
    }
}

impl Vec64 {
    /// Projected size in bytes: the sum of the sizes of all blocks.
    pub fn mem_size(&self) -> (r: u128)
        requires
            self.wf(),
        ensures
            r == maps_mem(self.maps@, self.maps@.len() as int),
    {
        let mut acc: u128 = 0;
        let mut k: usize = 0;
        while k < self.maps.len()
            invariant
                self.wf(),
                k <= self.maps@.len(),
                acc == maps_mem(self.maps@, k as int),
                acc <= 17181179904 * (k as int),
                k <= usize::MAX,
            decreases self.maps@.len() - k,
        {
            acc = acc + self.maps[k].mem_size() as u128;
            k = k + 1;
        }
        acc
    }

    /// Membership of `i`, as the indexing operator reports it.
    pub fn index(&self, i: u64) -> (r: bool)
        requires
            self.wf(),
        ensures
            r == self@.contains(i as int),
    {
        self.contains(i)
    }
}

impl Vec64 {
    /// The result of `op` on the members of `self` and `that`, as a new map: 32-bit maps under a key
    /// present on both sides are combined, a 32-bit map present on one side is kept or dropped.
    pub fn pairwise(&self, that: &Vec64, op: SetOp) -> (r: Vec64)
        requires
            self.wf(),
            that.wf(),
        ensures
            r.wf(),
            r@ == apply_op(op, self@, that@),
    {
        let ghost ka = key_ints(self.keys@);
        let ghost sa = map_sets(self.maps@);
        let ghost kb = key_ints(that.keys@);
        let ghost sb = map_sets(that.maps@);
        let ghost t = apply_op(op, self@, that@);
        proof {
            self.lemma_wf();
            that.lemma_wf();
        }
        let la = self.keys.len();
        let lb = that.keys.len();
        let mut keys: Vec<u32> = Vec::new();
        let mut maps: Vec<BitMap> = Vec::new();
        let mut i: usize = 0;
        let mut j: usize = 0;
        assert(two_level(key_ints(keys@), map_sets(maps@), 4294967296, 0) =~= Set::empty());
        while i < la || j < lb
            invariant
                self.wf(),
                that.wf(),
                ka == key_ints(self.keys@),
                sa == map_sets(self.maps@),
                kb == key_ints(that.keys@),
                sb == map_sets(that.maps@),
                level_ok(ka, sa, 4294967296),
                level_ok(kb, sb, 4294967296),
                t == apply_op(op, self@, that@),
                la == self.keys@.len(),
                lb == that.keys@.len(),
                i <= la,
                j <= lb,
                keys@.len() == maps@.len(),
                sorted32(keys@),
                forall|k: int| 0 <= k < maps@.len() ==> (#[trigger] maps@[k]).wf(),
                forall|m: int| 0 <= m < keys@.len() ==> keys@[m] < next_key(self.keys@, that.keys@, i as int, j as int),
                forall|m: int| 0 <= m < i ==> self.keys@[m] < next_key(self.keys@, that.keys@, i as int, j as int),
                forall|m: int| 0 <= m < j ==> that.keys@[m] < next_key(self.keys@, that.keys@, i as int, j as int),
                forall|x: int| #[trigger] two_level(key_ints(keys@), map_sets(maps@), 4294967296, keys@.len() as int).contains(x)
                    == (t.contains(x) && x / 4294967296 < next_key(self.keys@, that.keys@, i as int, j as int)),
            decreases la + lb - i - j,
        {
            let ghost nk = key_ints(keys@);
            let ghost ns = map_sets(maps@);
            let ghost lo_key = next_key(self.keys@, that.keys@, i as int, j as int);
            let ghost i0 = i as int;
            let ghost j0 = j as int;
            proof {
                assert(level_ok(nk, ns, 4294967296)) by {
                    assert forall|m: int| 0 <= m < ns.len() implies within(#[trigger] ns[m], 4294967296) by {
                        maps@[m].lemma_wf();
                    }
                }
            }
            let key: u32;
            let produced: Option<BitMap>;
            let in_a: bool;
            let in_b: bool;
            if i < la && j < lb && self.keys[i] == that.keys[j] {
                key = self.keys[i];
                in_a = true;
                in_b = true;
                produced = Some(self.maps[i].pairwise(&that.maps[j], op));
                i = i + 1;
                j = j + 1;
            } else if i < la && (j >= lb || self.keys[i] < that.keys[j]) {
                key = self.keys[i];
                in_a = true;
                in_b = false;
                produced = if keep(op, true, false) {
                    Some(self.maps[i].duplicate())
                } else {
                    None
                };
                i = i + 1;
            } else {
                key = that.keys[j];
                in_a = false;
                in_b = true;
                produced = if keep(op, false, true) {
                    Some(that.maps[j].duplicate())
                } else {
                    None
                };
                j = j + 1;
            }
            proof {
                assert(key as int == lo_key);
                assert(in_a ==> i0 < la && self.keys@[i0] == key);
                assert(!in_a && i0 < la ==> self.keys@[i0] > key);
                assert(in_b ==> j0 < lb && that.keys@[j0] == key);
                assert(!in_b && j0 < lb ==> that.keys@[j0] > key);
                assert(i == (if in_a { i0 + 1 } else { i0 }));
                assert(j == (if in_b { j0 + 1 } else { j0 }));
                assert forall|m: int| i0 < m < la implies self.keys@[m] > key by {
                    assert(self.keys@[i0] < self.keys@[m]);
                }
                assert forall|m: int| j0 < m < lb implies that.keys@[m] > key by {
                    assert(that.keys@[j0] < that.keys@[m]);
                }
                // membership of the slot of `key` on each side
                assert forall|x: int| x >= 0 && x / 4294967296 == key as int implies #[trigger] self@.contains(x)
                    == (in_a && sa[i0].contains(x % 4294967296)) by {
                    lemma_compose(x, 4294967296);
                    if in_a {
                        lemma_two_level_contains(ka, sa, 4294967296, i0, x % 4294967296);
                    } else {
                        assert forall|m: int| 0 <= m < ka.len() implies ka[m] != x / 4294967296 by {
                            if m > i0 && i0 < la {
                                assert(self.keys@[i0] < self.keys@[m]);
                            }
                        }
                        lemma_two_level_absent(ka, sa, 4294967296, x);
                    }
                }
                assert forall|x: int| x >= 0 && x / 4294967296 == key as int implies #[trigger] that@.contains(x)
                    == (in_b && sb[j0].contains(x % 4294967296)) by {
                    lemma_compose(x, 4294967296);
                    if in_b {
                        lemma_two_level_contains(kb, sb, 4294967296, j0, x % 4294967296);
                    } else {
                        assert forall|m: int| 0 <= m < kb.len() implies kb[m] != x / 4294967296 by {
                            if m > j0 && j0 < lb {
                                assert(that.keys@[j0] < that.keys@[m]);
                            }
                        }
                        lemma_two_level_absent(kb, sb, 4294967296, x);
                    }
                }
                // no member of either side lies strictly between `key` and the next key
                assert forall|x: int| x >= 0 && key < x / 4294967296 < next_key(self.keys@, that.keys@, i as int, j as int)
                    implies !self@.contains(x) && !that@.contains(x) by {
                    assert forall|m: int| 0 <= m < ka.len() implies ka[m] != x / 4294967296 by {
                        if m < i0 {
                            assert(ka[m] < key);
                        }
                    }
                    lemma_two_level_absent(ka, sa, 4294967296, x);
                    assert forall|m: int| 0 <= m < kb.len() implies kb[m] != x / 4294967296 by {
                        if m < j0 {
                            assert(kb[m] < key);
                        }
                    }
                    lemma_two_level_absent(kb, sb, 4294967296, x);
                }
            }
            match produced {
                Some(b) => {
                    let ghost before = maps@;
                    proof {
                        b.lemma_wf();
                    }
                    keys.push(key);
                    maps.push(b);
                    proof {
                        assert(key_ints(keys@) =~= nk.insert(nk.len() as int, key as int));
                        assert(map_sets(maps@) =~= ns.insert(ns.len() as int, b@));
                        lemma_insert_slot(nk, ns, 4294967296, nk.len() as int, key as int, b@);
                        assert forall|m: int| 0 <= m < maps@.len() implies (#[trigger] maps@[m]).wf() by {
                            if m < before.len() {
                                assert(maps@[m] == before[m]);
                            }
                        }
                        assert forall|x: int| #[trigger] two_level(key_ints(keys@), map_sets(maps@), 4294967296, keys@.len() as int).contains(x)
                            == (t.contains(x) && x / 4294967296 < next_key(self.keys@, that.keys@, i as int, j as int)) by {
                            if x >= 0 && x / 4294967296 == key as int {
                                assert(self@.contains(x) == (in_a && sa[i0].contains(x % 4294967296)));
                                assert(that@.contains(x) == (in_b && sb[j0].contains(x % 4294967296)));
                            }
                        }
                    }
                },
                None => {
                    proof {
                        assert forall|x: int| #[trigger] two_level(nk, ns, 4294967296, nk.len() as int).contains(x)
                            == (t.contains(x) && x / 4294967296 < next_key(self.keys@, that.keys@, i as int, j as int)) by {
                            if x >= 0 && x / 4294967296 == key as int {
                                assert(self@.contains(x) == (in_a && sa[i0].contains(x % 4294967296)));
                                assert(that@.contains(x) == (in_b && sb[j0].contains(x % 4294967296)));
                            }
                        }
                    }
                },
            }
        }
        let r = Vec64 { keys, maps };
        proof {
            assert forall|x: int| #[trigger] r@.contains(x) == t.contains(x) by {
                if t.contains(x) {
                    assert(self@.contains(x) || that@.contains(x));
                    if self@.contains(x) {
                        assert(within(self@, UNIVERSE64 as int));
                    } else {
                        assert(within(that@, UNIVERSE64 as int));
                    }
                    lemma_compose(x, 4294967296);
                    assert(x / 4294967296 < 4294967296);
                }
            }
            assert(r@ =~= t);
        }
        r
    }

    pub fn intersection(&self, that: &Vec64) -> (r: Vec64)
        requires
            self.wf(),
            that.wf(),
        ensures
            r.wf(),
            r@ == self@.intersect(that@),
    {
        let r = self.pairwise(that, SetOp::Intersection);
        assert(r@ =~= self@.intersect(that@));
        r
    }

    pub fn union(&self, that: &Vec64) -> (r: Vec64)
        requires
            self.wf(),
            that.wf(),
        ensures
            r.wf(),
            r@ == self@.union(that@),
    {
        let r = self.pairwise(that, SetOp::Union);
        assert(r@ =~= self@.union(that@));
        r
    }

    pub fn difference(&self, that: &Vec64) -> (r: Vec64)
        requires
            self.wf(),
            that.wf(),
        ensures
            r.wf(),
            r@ == self@.difference(that@),
    {
        let r = self.pairwise(that, SetOp::Difference);
        assert(r@ =~= self@.difference(that@));
        r
    }

    pub fn symmetric_difference(&self, that: &Vec64) -> (r: Vec64)
        requires
            self.wf(),
            that.wf(),
        ensures
            r.wf(),
            r@ == self@.union(that@).difference(self@.intersect(that@)),
    {
        let r = self.pairwise(that, SetOp::SymmetricDifference);
        assert(r@ =~= self@.union(that@).difference(self@.intersect(that@)));
        r
    }

    /// Replaces the members with the result of `op` on them and those of `that`.
    pub fn pairwise_with(&mut self, that: &Vec64, op: SetOp)
        requires
            old(self).wf(),
            that.wf(),
        ensures
            final(self).wf(),
            final(self)@ == apply_op(op, old(self)@, that@),
    {
        *self = self.pairwise(that, op);
    }
}

/// The smaller of the next unread keys of two key sequences, or one past the largest key.
pub open spec fn next_key(a: Seq<u32>, b: Seq<u32>, i: int, j: int) -> int {
    let x = if i < a.len() { a[i] as int } else { 4294967296 };
    let y = if j < b.len() { b[j] as int } else { 4294967296 };
    if x < y { x } else { y }
}

impl Vec64 {
    pub fn intersection_with(&mut self, that: &Vec64)
        requires
            old(self).wf(),
            that.wf(),
        ensures
            final(self).wf(),
            final(self)@ == old(self)@.intersect(that@),
    {
        self.pairwise_with(that, SetOp::Intersection);
        assert(self@ =~= old(self)@.intersect(that@));
    }

    pub fn union_with(&mut self, that: &Vec64)
        requires
            old(self).wf(),
            that.wf(),
        ensures
            final(self).wf(),
            final(self)@ == old(self)@.union(that@),
    {
        self.pairwise_with(that, SetOp::Union);
        assert(self@ =~= old(self)@.union(that@));
    }

    pub fn difference_with(&mut self, that: &Vec64)
        requires
            old(self).wf(),
            that.wf(),
        ensures
            final(self).wf(),
            final(self)@ == old(self)@.difference(that@),
    {
        self.pairwise_with(that, SetOp::Difference);
        assert(self@ =~= old(self)@.difference(that@));
    }

    pub fn symmetric_difference_with(&mut self, that: &Vec64)
        requires
            old(self).wf(),
            that.wf(),
        ensures
            final(self).wf(),
            final(self)@ == old(self)@.union(that@).difference(old(self)@.intersect(that@)),
    {
        self.pairwise_with(that, SetOp::SymmetricDifference);
        assert(self@ =~= old(self)@.union(that@).difference(old(self)@.intersect(that@)));
    }
}

impl Default for Vec64 {
    fn default() -> (r: Vec64)
        ensures
            r.wf(),
            r@ == Set::<int>::empty(),
    {
        Vec64::new()
    }
}

} // verus!
