use vstd::prelude::*;

use crate::bits::{
    apply_op, keep, SetOp,
    is_select, is_select0, lemma_rank_full, lemma_rank_mono, lemma_rank_step, lemma_rank_zero,
    lemma_seq_set_len, lemma_seq_set_push, lemma_set32_push, lemma_within_len, rank0_of, rank_of,
    seq_set, set32, sorted32, sorted_strict, within,
};
use crate::block::{preferred_kind, size_spec, Block};
use crate::rle16::runs_of;
use crate::two_level::{
    lemma_compose, lemma_insert_slot, lemma_two_level_absent, lemma_two_level_contains,
    lemma_slot_insert, lemma_two_level_len, lemma_two_level_rank, lemma_two_level_step,
    lemma_two_level_within, lemma_update_slot, level_ok, slot, sum_lens, two_level,
};

verus! {

broadcast use vstd::set::group_set_axioms, vstd::set_lib::group_set_properties;

/// Number of positions that one block covers in a 32-bit map.
pub const BLOCK_SPAN: u32 = 65536;

/// Size of the universe of a 32-bit map.
pub const UNIVERSE32: u64 = 0x1_0000_0000;

pub open spec fn key_ints(keys: Seq<u16>) -> Seq<int> {
    keys.map_values(|k: u16| k as int)
}

pub open spec fn block_sets(blocks: Seq<Block>) -> Seq<Set<int>> {
    blocks.map_values(|b: Block| b@)
}

/// A set of 32-bit values: blocks keyed by the high 16 bits, in ascending key order.
#[derive(Clone, Debug)]
pub struct BitMap {
    pub keys: Vec<u16>,
    pub blocks: Vec<Block>,
}

impl BitMap {
    pub open spec fn wf(&self) -> bool {
        &&& self.keys@.len() == self.blocks@.len()
        &&& sorted_strict(self.keys@)
        &&& forall|k: int| 0 <= k < self.blocks@.len() ==> (#[trigger] self.blocks@[k]).wf()
    }

    pub open spec fn view(&self) -> Set<int> {
        two_level(key_ints(self.keys@), block_sets(self.blocks@), 65536, self.keys@.len() as int)
    }

    pub proof fn lemma_wf(&self)
        requires
            self.wf(),
        ensures
            level_ok(key_ints(self.keys@), block_sets(self.blocks@), 65536),
            within(self@, UNIVERSE32 as int),
            self@.len() == sum_lens(block_sets(self.blocks@), self.keys@.len() as int),
            self@.len() <= UNIVERSE32,
    {
        let ks = key_ints(self.keys@);
        let ss = block_sets(self.blocks@);
        assert forall|k: int| 0 <= k < ss.len() implies within(#[trigger] ss[k], 65536) by {
            self.blocks@[k].lemma_wf();
        }
        assert(level_ok(ks, ss, 65536));
        lemma_two_level_len(ks, ss, 65536, ks.len() as int);
        lemma_two_level_within(ks, ss, 65536, 65536);
        lemma_within_len(self@, UNIVERSE32 as int);
    }

    pub fn new() -> (r: BitMap)
        ensures
            r.wf(),
            r@ == Set::<int>::empty(),
    {
        let r = BitMap { keys: Vec::new(), blocks: Vec::new() };
        assert(r@ =~= Set::<int>::empty());
        r
    }

    /// Removes every member.
    pub fn clear(&mut self)
        ensures
            final(self).wf(),
            final(self)@ == Set::<int>::empty(),
    {
        *self = BitMap::new();
    }

    /// Index of the first key not below `hi`.
    fn search(&self, hi: u16) -> (r: usize)
        requires
            self.wf(),
        ensures
            r <= self.keys@.len(),
            forall|j: int| 0 <= j < r ==> self.keys@[j] < hi,
            forall|j: int| r <= j < self.keys@.len() ==> self.keys@[j] >= hi,
    {
        let mut lo: usize = 0;
        let mut hi_idx: usize = self.keys.len();
        while lo < hi_idx
            invariant
                self.wf(),
                lo <= hi_idx <= self.keys@.len(),
                forall|j: int| 0 <= j < lo ==> self.keys@[j] < hi,
                forall|j: int| hi_idx <= j < self.keys@.len() ==> self.keys@[j] >= hi,
            decreases hi_idx - lo,
        {
            let mid = lo + (hi_idx - lo) / 2;
            if self.keys[mid] < hi {
                lo = mid + 1;
            } else {
                hi_idx = mid;
            }
        }
        lo
    }

    /// Whether `x` is a member.
    pub fn contains(&self, x: u32) -> (r: bool)
        requires
            self.wf(),
        ensures
            r == self@.contains(x as int),
    {
        let hi = (x / BLOCK_SPAN) as u16;
        let lo = (x % BLOCK_SPAN) as u16;
        let p = self.search(hi);
        let ghost ks = key_ints(self.keys@);
        let ghost ss = block_sets(self.blocks@);
        proof {
            self.lemma_wf();
            lemma_compose(x as int, 65536);
        }
        if p < self.keys.len() && self.keys[p] == hi {
            proof {
                lemma_two_level_contains(ks, ss, 65536, p as int, lo as int);
            }
            self.blocks[p].contains(lo)
        } else {
            proof {
                assert forall|k: int| 0 <= k < ks.len() implies ks[k] != x / 65536 by {
                    if k > p {
                        assert(self.keys@[p as int] < self.keys@[k]);
                    }
                }
                lemma_two_level_absent(ks, ss, 65536, x as int);
            }
            false
        }
    }

    /// Adds `x`; returns whether it was absent.
    pub fn insert(&mut self, x: u32) -> (r: bool)
        requires
            old(self).wf(),
        ensures
            final(self).wf(),
            final(self)@ == old(self)@.insert(x as int),
            r == !old(self)@.contains(x as int),
    {
        let hi = (x / BLOCK_SPAN) as u16;
        let lo = (x % BLOCK_SPAN) as u16;
        let p = self.search(hi);
        let ghost ks = key_ints(self.keys@);
        let ghost ss = block_sets(self.blocks@);
        let ghost old_view = self@;
        proof {
            self.lemma_wf();
            lemma_compose(x as int, 65536);
        }
        if p < self.keys.len() && self.keys[p] == hi {
            proof {
                lemma_two_level_contains(ks, ss, 65536, p as int, lo as int);
            }
            let ghost old_block = self.blocks@[p as int];
            let r = self.blocks[p].insert(lo);
            proof {
                let nb = self.blocks@[p as int];
                assert(block_sets(self.blocks@) =~= ss.update(p as int, nb@));
                nb.lemma_wf();
                lemma_update_slot(ks, ss, 65536, p as int, nb@);
                assert forall|y: int| #[trigger] self@.contains(y) == old_view.insert(x as int).contains(y) by {
                    if y >= 0 && y / 65536 == hi as int {
                        lemma_compose(y, 65536);
                        lemma_two_level_contains(ks, ss, 65536, p as int, y % 65536);
                    }
                }
                assert(self@ =~= old_view.insert(x as int));
                assert forall|k: int| 0 <= k < self.blocks@.len() implies (#[trigger] self.blocks@[k]).wf() by {
                    if k != p {
                        assert(self.blocks@[k] == old(self).blocks@[k]);
                    }
                }
            }
            r
        } else {
            proof {
                assert forall|k: int| p <= k < ks.len() implies ks[k] > hi by {
                    if k > p {
                        assert(self.keys@[p as int] < self.keys@[k]);
                    }
                }
                assert forall|k: int| 0 <= k < ks.len() implies ks[k] != x / 65536 by {}
                lemma_two_level_absent(ks, ss, 65536, x as int);
            }
            let mut b = Block::new();
            b.insert(lo);
            proof {
                b.lemma_wf();
            }
            self.keys.insert(p, hi);
            self.blocks.insert(p, b);
            proof {
                assert(key_ints(self.keys@) =~= ks.insert(p as int, hi as int));
                assert(block_sets(self.blocks@) =~= ss.insert(p as int, b@));
                lemma_insert_slot(ks, ss, 65536, p as int, hi as int, b@);
                assert forall|y: int| #[trigger] self@.contains(y) == old_view.insert(x as int).contains(y) by {
                    assert(self@.contains(y) == two_level(
                        ks.insert(p as int, hi as int),
                        ss.insert(p as int, b@),
                        65536,
                        ks.len() + 1int,
                    ).contains(y));
                    if y >= 0 && y / 65536 == hi as int {
                        lemma_compose(y, 65536);
                        assert forall|k: int| 0 <= k < ks.len() implies ks[k] != y / 65536 by {}
                        lemma_two_level_absent(ks, ss, 65536, y);
                        assert(b@.contains(y % 65536) == (y % 65536 == lo as int));
                    }
                }
                assert(self@ =~= old_view.insert(x as int));
                let nk = self.keys@;
                assert forall|i: int, j: int| 0 <= i < j < nk.len() implies nk[i] < nk[j] by {
                    if i < p && j > p {
                        assert(nk[j] == old(self).keys@[j - 1]);
                    } else if i == p {
                        assert(nk[j] == old(self).keys@[j - 1]);
                    } else if i > p {
                        assert(nk[i] == old(self).keys@[i - 1]);
                        assert(nk[j] == old(self).keys@[j - 1]);
                    }
                }
                assert forall|k: int| 0 <= k < self.blocks@.len() implies (#[trigger] self.blocks@[k]).wf() by {
                    if k < p {
                        assert(self.blocks@[k] == old(self).blocks@[k]);
                    } else if k > p {
                        assert(self.blocks@[k] == old(self).blocks@[k - 1]);
                    }
                }
            }
            true
        }
    }

    /// Removes `x`; returns whether it was present. An emptied block stays until `optimize`.
    pub fn remove(&mut self, x: u32) -> (r: bool)
        requires
            old(self).wf(),
        ensures
            final(self).wf(),
            final(self)@ == old(self)@.remove(x as int),
            r == old(self)@.contains(x as int),
    {
        let hi = (x / BLOCK_SPAN) as u16;
        let lo = (x % BLOCK_SPAN) as u16;
        let p = self.search(hi);
        let ghost ks = key_ints(self.keys@);
        let ghost ss = block_sets(self.blocks@);
        let ghost old_view = self@;
        proof {
            self.lemma_wf();
            lemma_compose(x as int, 65536);
        }
        if p < self.keys.len() && self.keys[p] == hi {
            proof {
                lemma_two_level_contains(ks, ss, 65536, p as int, lo as int);
            }
            let r = self.blocks[p].remove(lo);
            proof {
                let nb = self.blocks@[p as int];
                assert(block_sets(self.blocks@) =~= ss.update(p as int, nb@));
                nb.lemma_wf();
                lemma_update_slot(ks, ss, 65536, p as int, nb@);
                assert forall|y: int| #[trigger] self@.contains(y) == old_view.remove(x as int).contains(y) by {
                    if y >= 0 && y / 65536 == hi as int {
                        lemma_compose(y, 65536);
                        lemma_two_level_contains(ks, ss, 65536, p as int, y % 65536);
                    }
                }
                assert(self@ =~= old_view.remove(x as int));
                assert forall|k: int| 0 <= k < self.blocks@.len() implies (#[trigger] self.blocks@[k]).wf() by {
                    if k != p {
                        assert(self.blocks@[k] == old(self).blocks@[k]);
                    }
                }
            }
            r
        } else {
            proof {
                assert forall|k: int| 0 <= k < ks.len() implies ks[k] != x / 65536 by {
                    if k > p {
                        assert(self.keys@[p as int] < self.keys@[k]);
                    }
                }
                lemma_two_level_absent(ks, ss, 65536, x as int);
                assert(self@ =~= old_view.remove(x as int));
            }
            false
        }
    }

    /// Sum of the weights of the first `n` blocks.
    fn weight_below(&self, n: usize) -> (r: u64)
        requires
            self.wf(),
            n <= self.keys@.len(),
        ensures
            r == sum_lens(block_sets(self.blocks@), n as int),
    {
        let ghost ss = block_sets(self.blocks@);
        proof {
            self.lemma_wf();
            crate::bits::lemma_seq_set_len(self.keys@);
            lemma_within_len(crate::bits::seq_set(self.keys@), 65536);
        }
        let mut acc: u64 = 0;
        let mut k: usize = 0;
        while k < n
            invariant
                self.wf(),
                ss == block_sets(self.blocks@),
                k <= n <= self.keys@.len(),
                n <= self.keys@.len(),
                self.keys@.len() <= 65536,
                acc == sum_lens(ss, k as int),
                acc <= 65536 * k,
            decreases n - k,
        {
            acc = acc + self.blocks[k].count_ones() as u64;
            k = k + 1;
        }
        acc
    }

    /// Number of members.
    pub fn count_ones(&self) -> (r: u64)
        requires
            self.wf(),
        ensures
            r == self@.len(),
            r <= UNIVERSE32,
    {
        proof {
            self.lemma_wf();
        }
        self.weight_below(self.keys.len())
    }

    /// Number of non-members in the universe `[0, 2^32)`.
    pub fn count_zeros(&self) -> (r: u64)
        requires
            self.wf(),
        ensures
            r == UNIVERSE32 - self@.len(),
    {
        proof {
            self.lemma_wf();
        }
        UNIVERSE32 - self.count_ones()
    }
}

impl BitMap {
    /// Number of members strictly below `i`.
    pub fn rank1(&self, i: u32) -> (r: u64)
        requires
            self.wf(),
        ensures
            r == rank_of(self@, i as int),
    {
        let hi = (i / BLOCK_SPAN) as u16;
        let lo = (i % BLOCK_SPAN) as u16;
        let p = self.search(hi);
        let ghost ks = key_ints(self.keys@);
        let ghost ss = block_sets(self.blocks@);
        let acc = self.weight_below(p);
        proof {
            self.lemma_wf();
            lemma_compose(i as int, 65536);
            lemma_two_level_rank(ks, ss, 65536, p as int, hi as int, lo as int);
            crate::bits::lemma_below_finite(self@, i as int);
        }
        if p < self.keys.len() && self.keys[p] == hi {
            acc + self.blocks[p].rank1(lo) as u64
        } else {
            acc
        }
    }

    /// Number of non-members strictly below `i`.
    pub fn rank0(&self, i: u32) -> (r: u64)
        requires
            self.wf(),
        ensures
            r == rank0_of(self@, i as int),
    {
        proof {
            self.lemma_wf();
            lemma_rank_mono(self@, 0, i as int);
            lemma_rank_zero(self@, UNIVERSE32 as int);
        }
        i as u64 - self.rank1(i)
    }

    /// Position of the `(c+1)`-th member, or `None` when `c` is not below the count.
    pub fn select1(&self, c: u64) -> (r: Option<u32>)
        requires
            self.wf(),
        ensures
            match r {
                Some(p) => is_select(self@, c as int, p as int),
                None => c >= self@.len(),
            },
    {
        let ghost ks = key_ints(self.keys@);
        let ghost ss = block_sets(self.blocks@);
        proof {
            self.lemma_wf();
        }
        if c >= self.count_ones() {
            return None;
        }
        let n = self.keys.len();
        let mut k: usize = 0;
        let mut acc: u64 = 0;
        while k < n
            invariant
                self.wf(),
                ks == key_ints(self.keys@),
                ss == block_sets(self.blocks@),
                level_ok(ks, ss, 65536),
                n == self.keys@.len(),
                k <= n,
                acc == sum_lens(ss, k as int),
                acc <= c,
                c < self@.len(),
                self@.len() == sum_lens(ss, n as int),
            decreases n - k,
        {
            let w = self.blocks[k].count_ones() as u64;
            if c - acc < w {
                let sel = self.blocks[k].select1((c - acc) as u32);
                match sel {
                    Some(lo) => {
                        let x = self.keys[k] as u32 * BLOCK_SPAN + lo as u32;
                        proof {
                            lemma_two_level_contains(ks, ss, 65536, k as int, lo as int);
                            assert forall|j: int| k <= j < ks.len() implies ks[j] >= ks[k as int] by {
                                if j > k {
                                    assert(self.keys@[k as int] < self.keys@[j]);
                                }
                            }
                            lemma_two_level_rank(ks, ss, 65536, k as int, ks[k as int], lo as int);
                        }
                        return Some(x);
                    },
                    None => {
                        return None;
                    },
                }
            }
            acc = acc + w;
            k = k + 1;
        }
        None
    }

    /// Position of the `(c+1)`-th non-member, found by binary search on `rank0`.
    pub fn select0(&self, c: u64) -> (r: Option<u32>)
        requires
            self.wf(),
        ensures
            match r {
                Some(p) => is_select0(self@, c as int, p as int),
                None => c >= UNIVERSE32 - self@.len(),
            },
    {
        let ghost s = self@;
        proof {
            self.lemma_wf();
            lemma_rank_zero(s, UNIVERSE32 as int);
            lemma_rank_full(s, UNIVERSE32 as int, UNIVERSE32 as int);
        }
        if c >= self.count_zeros() {
            return None;
        }
        let mut lo: u64 = 0;
        let mut hi: u64 = UNIVERSE32;
        while hi - lo > 1
            invariant
                self.wf(),
                s == self@,
                within(s, UNIVERSE32 as int),
                lo < hi <= UNIVERSE32,
                rank0_of(s, lo as int) <= c,
                c < rank0_of(s, hi as int),
            decreases hi - lo,
        {
            let mid = lo + (hi - lo) / 2;
            if self.rank0(mid as u32) <= c {
                lo = mid;
            } else {
                hi = mid;
            }
        }
        proof {
            lemma_rank_step(s, lo as int);
        }
        Some(lo as u32)
    }
}

impl BitMap {
    /// The members in ascending order.
    pub fn iter(&self) -> (r: Vec<u32>)
        requires
            self.wf(),
        ensures
            sorted32(r@),
            set32(r@) == self@,
    {
        let ghost ks = key_ints(self.keys@);
        let ghost ss = block_sets(self.blocks@);
        proof {
            self.lemma_wf();
        }
        let n = self.keys.len();
        let mut out: Vec<u32> = Vec::new();
        let mut k: usize = 0;
        assert(set32(out@) =~= two_level(ks, ss, 65536, 0));
        while k < n
            invariant
                self.wf(),
                ks == key_ints(self.keys@),
                ss == block_sets(self.blocks@),
                level_ok(ks, ss, 65536),
                n == self.keys@.len(),
                k <= n,
                sorted32(out@),
                k < n ==> forall|m: int| 0 <= m < out@.len() ==> out@[m] < ks[k as int] * 65536,
                set32(out@) == two_level(ks, ss, 65536, k as int),
            decreases n - k,
        {
            let key = self.keys[k];
            let vals = self.blocks[k].iter();
            let base = key as u32 * BLOCK_SPAN;
            let ghost start = set32(out@);
            proof {
                lemma_two_level_step(ks, ss, 65536, k as int);
                lemma_seq_set_len(vals@);
            }
            let mut j: usize = 0;
            assert(slot(key as int, seq_set(vals@.subrange(0, 0)), 65536) =~= Set::empty());
            while j < vals.len()
                invariant
                    self.wf(),
                    ks == key_ints(self.keys@),
                    ss == block_sets(self.blocks@),
                    level_ok(ks, ss, 65536),
                    n == self.keys@.len(),
                    k < n,
                    key == self.keys@[k as int],
                    base == key * 65536,
                    sorted_strict(vals@),
                    j <= vals@.len(),
                    sorted32(out@),
                    forall|m: int| 0 <= m < out@.len() ==> out@[m] < (if j < vals@.len() { base + vals@[j as int] } else { base + 65536 }),
                    set32(out@) == start.union(slot(key as int, seq_set(vals@.subrange(0, j as int)), 65536)),
                decreases vals@.len() - j,
            {
                let y = base + vals[j] as u32;
                proof {
                    lemma_set32_push(out@, y);
                    assert(vals@.subrange(0, j + 1) == vals@.subrange(0, j as int).push(vals@[j as int]));
                    lemma_seq_set_push(vals@.subrange(0, j as int), vals@[j as int]);
                    lemma_slot_insert(key as int, seq_set(vals@.subrange(0, j as int)), 65536, vals@[j as int] as int);
                    if j + 1 < vals@.len() {
                        assert(vals@[j as int] < vals@[j + 1]);
                    }
                }
                out.push(y);
                j = j + 1;
            }
            proof {
                assert(vals@.subrange(0, j as int) == vals@);
                assert(self.blocks@[k as int]@ == ss[k as int]);
                if k + 1 < n {
                    assert(self.keys@[k as int] < self.keys@[k + 1]);
                }
            }
            k = k + 1;
        }
        out
    }

    /// Builds a map holding the given values.
    pub fn from_iter(vals: &Vec<u32>) -> (r: BitMap)
        ensures
            r.wf(),
            r@ == set32(vals@),
    {
        let mut r = BitMap::new();
        let mut i: usize = 0;
        while i < vals.len()
            invariant
                r.wf(),
                i <= vals@.len(),
                r@ == set32(vals@.subrange(0, i as int)),
            decreases vals@.len() - i,
        {
            r.insert(vals[i]);
            proof {
                assert(vals@.subrange(0, i + 1) == vals@.subrange(0, i as int).push(vals@[i as int]));
                lemma_set32_push(vals@.subrange(0, i as int), vals@[i as int]);
            }
            i = i + 1;
        }
        assert(vals@.subrange(0, i as int) == vals@);
        r
    }
}

impl BitMap {
    /// Every block is non-empty and in the representation that the reshape policy prefers.
    pub open spec fn is_optimized(&self) -> bool {
        forall|k: int|
            0 <= k < self.blocks@.len() ==> (#[trigger] self.blocks@[k])@.len() > 0
                && self.blocks@[k].kind_spec() == preferred_kind(
                self.blocks@[k]@.len() as int,
                runs_of(self.blocks@[k]@) as int,
            )
    }

    /// Reshapes every block and drops the empty ones; the members stay the same.
    pub fn optimize(&mut self)
        requires
            old(self).wf(),
        ensures
            final(self).wf(),
            final(self)@ == old(self)@,
            final(self).is_optimized(),
    {
        let ghost ks = key_ints(self.keys@);
        let ghost ss = block_sets(self.blocks@);
        let ghost all = self@;
        proof {
            self.lemma_wf();
        }
        let n = self.keys.len();
        let mut keys: Vec<u16> = Vec::new();
        let mut blocks: Vec<Block> = Vec::new();
        let mut k: usize = 0;
        assert(two_level(key_ints(keys@), block_sets(blocks@), 65536, 0) =~= Set::empty());
        while k < n
            invariant
                self.wf(),
                ks == key_ints(self.keys@),
                ss == block_sets(self.blocks@),
                all == self@,
                level_ok(ks, ss, 65536),
                n == self.keys@.len(),
                k <= n,
                keys@.len() == blocks@.len(),
                sorted_strict(keys@),
                forall|j: int| 0 <= j < blocks@.len() ==> (#[trigger] blocks@[j]).wf(),
                (BitMap { keys, blocks }).is_optimized(),
                k < n ==> forall|m: int| 0 <= m < keys@.len() ==> keys@[m] < self.keys@[k as int],
                forall|x: int| #[trigger] two_level(key_ints(keys@), block_sets(blocks@), 65536, keys@.len() as int).contains(x)
                    == (all.contains(x) && (k < n ==> x / 65536 < ks[k as int])),
            decreases n - k,
        {
            let mut b = self.blocks[k].duplicate();
            b.optimize();
            let ghost nk = key_ints(keys@);
            let ghost ns = block_sets(blocks@);
            let ghost key = ks[k as int];
            proof {
                assert(level_ok(nk, ns, 65536)) by {
                    assert forall|j: int| 0 <= j < ns.len() implies within(#[trigger] ns[j], 65536) by {
                        blocks@[j].lemma_wf();
                    }
                }
                b.lemma_wf();
            }
            if b.count_ones() > 0 {
                let ghost before = blocks@;
                keys.push(self.keys[k]);
                blocks.push(b);
                proof {
                    assert(key_ints(keys@) =~= nk.insert(nk.len() as int, key));
                    assert(block_sets(blocks@) =~= ns.insert(ns.len() as int, b@));
                    lemma_insert_slot(nk, ns, 65536, nk.len() as int, key, b@);
                    assert forall|j: int| 0 <= j < blocks@.len() implies (#[trigger] blocks@[j]).wf() by {
                        if j < before.len() {
                            assert(blocks@[j] == before[j]);
                        }
                    }
                    assert((BitMap { keys, blocks }).is_optimized()) by {
                        assert forall|j: int| 0 <= j < blocks@.len() implies (#[trigger] blocks@[j])@.len() > 0
                            && blocks@[j].kind_spec() == preferred_kind(blocks@[j]@.len() as int, runs_of(blocks@[j]@) as int) by {
                            if j < before.len() {
                                assert(blocks@[j] == before[j]);
                                assert((BitMap { keys: keys, blocks: blocks }).blocks@[j] == blocks@[j]);
                            }
                        }
                    }
                }
            }
            proof {
                if k + 1 < n {
                    assert(self.keys@[k as int] < self.keys@[k + 1]);
                }
                assert forall|x: int| #[trigger] two_level(key_ints(keys@), block_sets(blocks@), 65536, keys@.len() as int).contains(x)
                    == (all.contains(x) && (k + 1 < n ==> x / 65536 < ks[k + 1])) by {
                    if x >= 0 {
                        lemma_compose(x, 65536);
                        if x / 65536 == key {
                            lemma_two_level_contains(ks, ss, 65536, k as int, x % 65536);
                        } else if key < x / 65536 && (k + 1 < n ==> x / 65536 < ks[k + 1]) {
                            assert forall|j: int| 0 <= j < ks.len() implies ks[j] != x / 65536 by {
                                if j < k {
                                    assert(ks[j] < ks[k as int]);
                                } else if j > k + 1 {
                                    assert(ks[k + 1] < ks[j]);
                                }
                            }
                            lemma_two_level_absent(ks, ss, 65536, x);
                        }
                    }
                }
            }
            k = k + 1;
        }
        self.keys = keys;
        self.blocks = blocks;
        proof {
            assert(self@ =~= all);
        }
    }
}

impl BitMap {
    /// A copy with the same keys and, key by key, blocks of the same representation and members.
    pub fn duplicate(&self) -> (r: BitMap)
        requires
            self.wf(),
        ensures
            r.wf(),
            r.keys@ == self.keys@,
            r.blocks@.len() == self.blocks@.len(),
            forall|k: int| 0 <= k < r.blocks@.len() ==> (#[trigger] r.blocks@[k])@ == self.blocks@[k]@
                && r.blocks@[k].kind_spec() == self.blocks@[k].kind_spec(),
            r@ == self@,
    {
        let keys = self.keys.clone();
        assert(keys@ =~= self.keys@);
        let mut blocks: Vec<Block> = Vec::new();
        let mut k: usize = 0;
        while k < self.blocks.len()
            invariant
                self.wf(),
                k <= self.blocks@.len(),
                blocks@.len() == k,
                forall|j: int| 0 <= j < k ==> (#[trigger] blocks@[j]).wf() && blocks@[j]@ == self.blocks@[j]@
                    && blocks@[j].kind_spec() == self.blocks@[j].kind_spec(),
            decreases self.blocks@.len() - k,
        {
            let b = self.blocks[k].duplicate();
            blocks.push(b);
            k = k + 1;
        }
        let r = BitMap { keys, blocks };
        assert(block_sets(r.blocks@) =~= block_sets(self.blocks@));
        r
    }
}

/// Sum of the projected sizes of the first `n` blocks.
pub open spec fn blocks_mem(blocks: Seq<Block>, n: int) -> int
    decreases n,
{
    if n <= 0 {
        0
    } else {
        blocks_mem(blocks, n - 1) + size_spec(
            blocks[n - 1].kind_spec(),
            blocks[n - 1]@.len() as int,
            runs_of(blocks[n - 1]@) as int,
        )
    }
}

impl BitMap {
    /// Projected size in bytes of all blocks.
    pub open spec fn mem_spec(&self) -> int {
        blocks_mem(self.blocks@, self.blocks@.len() as int)
    }

    /// Projected size in bytes: the sum of the sizes of the blocks.
    pub fn mem_size(&self) -> (r: u64)
        requires
            self.wf(),
        ensures
            r == self.mem_spec(),
            r <= 17181179904,
    {
        proof {
            crate::bits::lemma_seq_set_len(self.keys@);
            lemma_within_len(crate::bits::seq_set(self.keys@), 65536);
        }
        let mut acc: u64 = 0;
        let mut k: usize = 0;
        while k < self.blocks.len()
            invariant
                self.wf(),
                self.blocks@.len() <= 65536,
                k <= self.blocks@.len(),
                acc == blocks_mem(self.blocks@, k as int),
                acc <= 262160 * k,
            decreases self.blocks@.len() - k,
        {
            acc = acc + self.blocks[k].mem_size() as u64;
            k = k + 1;
        }
        acc
    }

    /// Membership of `i`, as the indexing operator reports it.
    pub fn index(&self, i: u32) -> (r: bool)
        requires
            self.wf(),
        ensures
            r == self@.contains(i as int),
    {
        self.contains(i)
    }
}

impl BitMap {
    /// The result of `op` on the members of `self` and `that`, as a new map: blocks under a key
    /// present on both sides are combined, a block present on one side is kept or dropped.
    pub fn pairwise(&self, that: &BitMap, op: SetOp) -> (r: BitMap)
        requires
            self.wf(),
            that.wf(),
        ensures
            r.wf(),
            r@ == apply_op(op, self@, that@),
    {
        let ghost ka = key_ints(self.keys@);
        let ghost sa = block_sets(self.blocks@);
        let ghost kb = key_ints(that.keys@);
        let ghost sb = block_sets(that.blocks@);
        let ghost t = apply_op(op, self@, that@);
        proof {
            self.lemma_wf();
            that.lemma_wf();
        }
        let la = self.keys.len();
        let lb = that.keys.len();
        let mut keys: Vec<u16> = Vec::new();
        let mut blocks: Vec<Block> = Vec::new();
        let mut i: usize = 0;
        let mut j: usize = 0;
        assert(two_level(key_ints(keys@), block_sets(blocks@), 65536, 0) =~= Set::empty());
        while i < la || j < lb
            invariant
                self.wf(),
                that.wf(),
                ka == key_ints(self.keys@),
                sa == block_sets(self.blocks@),
                kb == key_ints(that.keys@),
                sb == block_sets(that.blocks@),
                level_ok(ka, sa, 65536),
                level_ok(kb, sb, 65536),
                t == apply_op(op, self@, that@),
                la == self.keys@.len(),
                lb == that.keys@.len(),
                i <= la,
                j <= lb,
                keys@.len() == blocks@.len(),
                sorted_strict(keys@),
                forall|k: int| 0 <= k < blocks@.len() ==> (#[trigger] blocks@[k]).wf(),
                forall|m: int| 0 <= m < keys@.len() ==> keys@[m] < next_key(self.keys@, that.keys@, i as int, j as int),
                forall|m: int| 0 <= m < i ==> self.keys@[m] < next_key(self.keys@, that.keys@, i as int, j as int),
                forall|m: int| 0 <= m < j ==> that.keys@[m] < next_key(self.keys@, that.keys@, i as int, j as int),
                forall|x: int| #[trigger] two_level(key_ints(keys@), block_sets(blocks@), 65536, keys@.len() as int).contains(x)
                    == (t.contains(x) && x / 65536 < next_key(self.keys@, that.keys@, i as int, j as int)),
            decreases la + lb - i - j,
        {
            let ghost nk = key_ints(keys@);
            let ghost ns = block_sets(blocks@);
            let ghost lo_key = next_key(self.keys@, that.keys@, i as int, j as int);
            let ghost i0 = i as int;
            let ghost j0 = j as int;
            proof {
                assert(level_ok(nk, ns, 65536)) by {
                    assert forall|m: int| 0 <= m < ns.len() implies within(#[trigger] ns[m], 65536) by {
                        blocks@[m].lemma_wf();
                    }
                }
            }
            let key: u16;
            let produced: Option<Block>;
            let in_a: bool;
            let in_b: bool;
            if i < la && j < lb && self.keys[i] == that.keys[j] {
                key = self.keys[i];
                in_a = true;
                in_b = true;
                produced = Some(self.blocks[i].pairwise(&that.blocks[j], op));
                i = i + 1;
                j = j + 1;
            } else if i < la && (j >= lb || self.keys[i] < that.keys[j]) {
                key = self.keys[i];
                in_a = true;
                in_b = false;
                produced = if keep(op, true, false) {
                    Some(self.blocks[i].duplicate())
                } else {
                    None
                };
                i = i + 1;
            } else {
                key = that.keys[j];
                in_a = false;
                in_b = true;
                produced = if keep(op, false, true) {
                    Some(that.blocks[j].duplicate())
                } else {
                    None
                };
                j = j + 1;
            }
            proof {
                assert(key as int == lo_key);
                assert(in_a ==> i0 < la && self.keys@[i0] == key);
                assert(!in_a && i0 < la ==> self.keys@[i0] > key);
                assert(in_b ==> j0 < lb && that.keys@[j0] == key);
                assert(!in_b && j0 < lb ==> that.keys@[j0] > key);
                assert(i == (if in_a { i0 + 1 } else { i0 }));
                assert(j == (if in_b { j0 + 1 } else { j0 }));
                assert forall|m: int| i0 < m < la implies self.keys@[m] > key by {
                    assert(self.keys@[i0] < self.keys@[m]);
                }
                assert forall|m: int| j0 < m < lb implies that.keys@[m] > key by {
                    assert(that.keys@[j0] < that.keys@[m]);
                }
                // membership of the slot of `key` on each side
                assert forall|x: int| x >= 0 && x / 65536 == key as int implies #[trigger] self@.contains(x)
                    == (in_a && sa[i0].contains(x % 65536)) by {
                    lemma_compose(x, 65536);
                    if in_a {
                        lemma_two_level_contains(ka, sa, 65536, i0, x % 65536);
                    } else {
                        assert forall|m: int| 0 <= m < ka.len() implies ka[m] != x / 65536 by {
                            if m > i0 && i0 < la {
                                assert(self.keys@[i0] < self.keys@[m]);
                            }
                        }
                        lemma_two_level_absent(ka, sa, 65536, x);
                    }
                }
                assert forall|x: int| x >= 0 && x / 65536 == key as int implies #[trigger] that@.contains(x)
                    == (in_b && sb[j0].contains(x % 65536)) by {
                    lemma_compose(x, 65536);
                    if in_b {
                        lemma_two_level_contains(kb, sb, 65536, j0, x % 65536);
                    } else {
                        assert forall|m: int| 0 <= m < kb.len() implies kb[m] != x / 65536 by {
                            if m > j0 && j0 < lb {
                                assert(that.keys@[j0] < that.keys@[m]);
                            }
                        }
                        lemma_two_level_absent(kb, sb, 65536, x);
                    }
                }
                // no member of either side lies strictly between `key` and the next key
                assert forall|x: int| x >= 0 && key < x / 65536 < next_key(self.keys@, that.keys@, i as int, j as int)
                    implies !self@.contains(x) && !that@.contains(x) by {
                    assert forall|m: int| 0 <= m < ka.len() implies ka[m] != x / 65536 by {
                        if m < i0 {
                            assert(ka[m] < key);
                        }
                    }
                    lemma_two_level_absent(ka, sa, 65536, x);
                    assert forall|m: int| 0 <= m < kb.len() implies kb[m] != x / 65536 by {
                        if m < j0 {
                            assert(kb[m] < key);
                        }
                    }
                    lemma_two_level_absent(kb, sb, 65536, x);
                }
            }
            match produced {
                Some(b) => {
                    let ghost before = blocks@;
                    proof {
                        b.lemma_wf();
                    }
                    keys.push(key);
                    blocks.push(b);
                    proof {
                        assert(key_ints(keys@) =~= nk.insert(nk.len() as int, key as int));
                        assert(block_sets(blocks@) =~= ns.insert(ns.len() as int, b@));
                        lemma_insert_slot(nk, ns, 65536, nk.len() as int, key as int, b@);
                        assert forall|m: int| 0 <= m < blocks@.len() implies (#[trigger] blocks@[m]).wf() by {
                            if m < before.len() {
                                assert(blocks@[m] == before[m]);
                            }
                        }
                        assert forall|x: int| #[trigger] two_level(key_ints(keys@), block_sets(blocks@), 65536, keys@.len() as int).contains(x)
                            == (t.contains(x) && x / 65536 < next_key(self.keys@, that.keys@, i as int, j as int)) by {
                            if x >= 0 && x / 65536 == key as int {
                                assert(self@.contains(x) == (in_a && sa[i0].contains(x % 65536)));
                                assert(that@.contains(x) == (in_b && sb[j0].contains(x % 65536)));
                            }
                        }
                    }
                },
                None => {
                    proof {
                        assert forall|x: int| #[trigger] two_level(nk, ns, 65536, nk.len() as int).contains(x)
                            == (t.contains(x) && x / 65536 < next_key(self.keys@, that.keys@, i as int, j as int)) by {
                            if x >= 0 && x / 65536 == key as int {
                                assert(self@.contains(x) == (in_a && sa[i0].contains(x % 65536)));
                                assert(that@.contains(x) == (in_b && sb[j0].contains(x % 65536)));
                            }
                        }
                    }
                },
            }
        }
        let r = BitMap { keys, blocks };
        proof {
            assert forall|x: int| #[trigger] r@.contains(x) == t.contains(x) by {
                if t.contains(x) {
                    assert(self@.contains(x) || that@.contains(x));
                    if self@.contains(x) {
                        assert(within(self@, UNIVERSE32 as int));
                    } else {
                        assert(within(that@, UNIVERSE32 as int));
                    }
                    lemma_compose(x, 65536);
                    assert(x / 65536 < 65536);
                }
            }
            assert(r@ =~= t);
        }
        r
    }

    pub fn intersection(&self, that: &BitMap) -> (r: BitMap)
        requires
            self.wf(),
            that.wf(),
        ensures
            r.wf(),
            r@ == self@.intersect(that@),
    {
        let r = self.pairwise(that, SetOp::Intersection);
        assert(r@ =~= self@.intersect(that@));
        r
    }

    pub fn union(&self, that: &BitMap) -> (r: BitMap)
        requires
            self.wf(),
            that.wf(),
        ensures
            r.wf(),
            r@ == self@.union(that@),
    {
        let r = self.pairwise(that, SetOp::Union);
        assert(r@ =~= self@.union(that@));
        r
    }

    pub fn difference(&self, that: &BitMap) -> (r: BitMap)
        requires
            self.wf(),
            that.wf(),
        ensures
            r.wf(),
            r@ == self@.difference(that@),
    {
        let r = self.pairwise(that, SetOp::Difference);
        assert(r@ =~= self@.difference(that@));
        r
    }

    pub fn symmetric_difference(&self, that: &BitMap) -> (r: BitMap)
        requires
            self.wf(),
            that.wf(),
        ensures
            r.wf(),
            r@ == self@.union(that@).difference(self@.intersect(that@)),
    {
        let r = self.pairwise(that, SetOp::SymmetricDifference);
        assert(r@ =~= self@.union(that@).difference(self@.intersect(that@)));
        r
    }

    /// Replaces the members with the result of `op` on them and those of `that`.
    pub fn pairwise_with(&mut self, that: &BitMap, op: SetOp)
        requires
            old(self).wf(),
            that.wf(),
        ensures
            final(self).wf(),
            final(self)@ == apply_op(op, old(self)@, that@),
    {
        *self = self.pairwise(that, op);
    }
}

/// The smaller of the next unread keys of two key sequences, or one past the largest key.
pub open spec fn next_key(a: Seq<u16>, b: Seq<u16>, i: int, j: int) -> int {
    let x = if i < a.len() { a[i] as int } else { 65536 };
    let y = if j < b.len() { b[j] as int } else { 65536 };
    if x < y { x } else { y }
}

impl BitMap {
    pub fn intersection_with(&mut self, that: &BitMap)
        requires
            old(self).wf(),
            that.wf(),
        ensures
            final(self).wf(),
            final(self)@ == old(self)@.intersect(that@),
    {
        self.pairwise_with(that, SetOp::Intersection);
        assert(self@ =~= old(self)@.intersect(that@));
    }

    pub fn union_with(&mut self, that: &BitMap)
        requires
            old(self).wf(),
            that.wf(),
        ensures
            final(self).wf(),
            final(self)@ == old(self)@.union(that@),
    {
        self.pairwise_with(that, SetOp::Union);
        assert(self@ =~= old(self)@.union(that@));
    }

    pub fn difference_with(&mut self, that: &BitMap)
        requires
            old(self).wf(),
            that.wf(),
        ensures
            final(self).wf(),
            final(self)@ == old(self)@.difference(that@),
    {
        self.pairwise_with(that, SetOp::Difference);
        assert(self@ =~= old(self)@.difference(that@));
    }

    pub fn symmetric_difference_with(&mut self, that: &BitMap)
        requires
            old(self).wf(),
            that.wf(),
        ensures
            final(self).wf(),
            final(self)@ == old(self)@.union(that@).difference(old(self)@.intersect(that@)),
    {
        self.pairwise_with(that, SetOp::SymmetricDifference);
        assert(self@ =~= old(self)@.union(that@).difference(old(self)@.intersect(that@)));
    }
}

impl Default for BitMap {
    fn default() -> (r: BitMap)
        ensures
            r.wf(),
            r@ == Set::<int>::empty(),
    {
        BitMap::new()
    }
}

} // verus!
