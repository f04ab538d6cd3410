use vstd::prelude::*;

use crate::bits::{
    apply_op, is_select, is_select0, lemma_rank_step, lemma_rank_zero, lemma_rank_full,
    lemma_seq_set_len, rank0_of, rank_of, seq_set, sorted_strict, within, SetOp,
    BLOCK_CAPACITY,
};
use crate::rle16::{runs_of, Rle16};
use crate::seq16::Seq16;
use crate::seq64::Seq64;

verus! {

broadcast use vstd::set::group_set_axioms, vstd::set_lib::group_set_properties;

/// Weight above which the sorted sequence is never preferred.
pub const SEQ16_THRESHOLD: usize = 4096;

/// Number of words of the dense representation.
pub const SEQ64_THRESHOLD: usize = 1024;

/// The physical representation of a block.
#[derive(Clone, Copy, Debug, PartialEq, Eq, Structural)]
pub enum Kind {
    Seq16,
    Seq64,
    Rle16,
}

/// Projected size in bytes of a sorted sequence of `n` values.
pub open spec fn seq16_size(n: int) -> int {
    16 + 2 * n
}

/// Size in bytes of the dense representation.
pub open spec fn seq64_size() -> int {
    8208
}

/// Projected size in bytes of `r` ranges.
pub open spec fn rle16_size(r: int) -> int {
    16 + 4 * r
}

/// The representation that the reshape policy picks for `weight` members in `runs` runs:
/// the smallest projected size, ties going to ranges, then to the sorted sequence.
pub open spec fn preferred_kind(weight: int, runs: int) -> Kind {
    if rle16_size(runs) <= seq64_size() && rle16_size(runs) <= seq16_size(weight) {
        Kind::Rle16
    } else if weight <= 4096 {
        Kind::Seq16
    } else {
        Kind::Seq64
    }
}

/// Size in bytes that `stats` and `mem_size` report for a representation.
pub open spec fn size_spec(kind: Kind, weight: int, runs: int) -> int {
    match kind {
        Kind::Seq16 => seq16_size(weight),
        Kind::Seq64 => seq64_size(),
        Kind::Rle16 => rle16_size(runs),
    }
}

/// Counts and size of a block: `ones` set bits, about `size` bytes.
#[derive(Clone, Copy, Debug)]
pub struct Stats {
    pub kind: Kind,
    pub ones: u64,
    pub size: usize,
}

/// A set of 16-bit values in one of three representations.
#[derive(Clone, Debug)]
pub enum Block {
    Seq16(Seq16),
    Seq64(Seq64),
    Rle16(Rle16),
}

/// `new` is `old` reshaped by the policy: same members, the preferred representation, and
/// no change at all where `old` already had it.
pub open spec fn optimized(old: Block, new: Block) -> bool {
    &&& new.wf()
    &&& new@ == old@
    &&& new.kind_spec() == preferred_kind(old@.len() as int, runs_of(old@) as int)
    &&& old.kind_spec() == preferred_kind(old@.len() as int, runs_of(old@) as int) ==> new == old
}

/// Relies on `Vec::shrink_to_fit`: it releases spare capacity and keeps the elements.
#[verifier::external_body]
fn shrink_vec<T>(v: &mut Vec<T>)
    ensures
        final(v)@ == old(v)@,
{
    v.shrink_to_fit()
}

impl Block {
    pub open spec fn wf(&self) -> bool {
        match self {
            Block::Seq16(b) => b.wf(),
            Block::Seq64(b) => b.wf(),
            Block::Rle16(b) => b.wf(),
        }
    }

    pub open spec fn view(&self) -> Set<int> {
        match self {
            Block::Seq16(b) => b@,
            Block::Seq64(b) => b@,
            Block::Rle16(b) => b@,
        }
    }

    pub open spec fn kind_spec(&self) -> Kind {
        match self {
            Block::Seq16(_) => Kind::Seq16,
            Block::Seq64(_) => Kind::Seq64,
            Block::Rle16(_) => Kind::Rle16,
        }
    }

    pub proof fn lemma_wf(&self)
        requires
            self.wf(),
        ensures
            within(self@, BLOCK_CAPACITY as int),
            self@.len() <= BLOCK_CAPACITY,
    {
        match self {
            Block::Seq16(b) => b.lemma_wf(),
            Block::Seq64(b) => b.lemma_wf(),
            Block::Rle16(b) => b.lemma_wf(),
        }
    }

    /// An empty block, stored densely.
    pub fn new() -> (r: Block)
        ensures
            r.wf(),
            r@ == Set::<int>::empty(),
            r.kind_spec() == Kind::Seq64,
    {
        Block::Seq64(Seq64::new())
    }

    /// Removes every member; the block becomes an empty dense one.
    pub fn clear(&mut self)
        ensures
            final(self).wf(),
            final(self)@ == Set::<int>::empty(),
            final(self).kind_spec() == Kind::Seq64,
    {
        *self = Block::new();
    }

    pub fn kind(&self) -> (r: Kind)
        ensures
            r == self.kind_spec(),
    {
        match self {
            Block::Seq16(_) => Kind::Seq16,
            Block::Seq64(_) => Kind::Seq64,
            Block::Rle16(_) => Kind::Rle16,
        }
    }

    /// A copy with the same representation and members.
    pub fn duplicate(&self) -> (r: Block)
        requires
            self.wf(),
        ensures
            r.wf(),
            r@ == self@,
            r.kind_spec() == self.kind_spec(),
    {
        match self {
            Block::Seq16(b) => {
                let vector = b.vector.clone();
                assert(vector@ =~= b.vector@);
                Block::Seq16(Seq16 { weight: b.weight, vector })
            },
            Block::Seq64(b) => {
                let vector = b.vector.clone();
                assert(vector@ =~= b.vector@);
                Block::Seq64(Seq64 { weight: b.weight, vector })
            },
            Block::Rle16(b) => {
                Block::Rle16(b.copy())
            },
        }
    }

    /// Number of members.
    pub fn count_ones(&self) -> (r: u32)
        requires
            self.wf(),
        ensures
            r == self@.len(),
            r <= BLOCK_CAPACITY,
    {
        match self {
            Block::Seq16(b) => {
                proof {
                    b.lemma_wf();
                }
                b.weight
            },
            Block::Seq64(b) => {
                proof {
                    b.lemma_wf();
                }
                b.weight
            },
            Block::Rle16(b) => {
                proof {
                    b.lemma_wf();
                }
                b.weight
            },
        }
    }

    /// Number of non-members among the 65536 positions.
    pub fn count_zeros(&self) -> (r: u32)
        requires
            self.wf(),
        ensures
            r == BLOCK_CAPACITY - self@.len(),
    {
        BLOCK_CAPACITY - self.count_ones()
    }

    pub fn contains(&self, bit: u16) -> (r: bool)
        requires
            self.wf(),
        ensures
            r == self@.contains(bit as int),
    {
        match self {
            Block::Seq16(b) => b.contains(bit),
            Block::Seq64(b) => b.contains(bit),
            Block::Rle16(b) => b.contains(bit),
        }
    }

    /// Membership of `bit`, as the indexing operator reports it.
    pub fn index(&self, bit: u16) -> (r: bool)
        requires
            self.wf(),
        ensures
            r == self@.contains(bit as int),
    {
        self.contains(bit)
    }

    /// Adds `bit`; returns whether it was absent. The representation is kept.
    pub fn insert(&mut self, bit: u16) -> (r: bool)
        requires
            old(self).wf(),
        ensures
            final(self).wf(),
            final(self)@ == old(self)@.insert(bit as int),
            r == !old(self)@.contains(bit as int),
            final(self).kind_spec() == old(self).kind_spec(),
    {
        match self {
            Block::Seq16(b) => b.insert(bit),
            Block::Seq64(b) => b.insert(bit),
            Block::Rle16(b) => b.insert(bit),
        }
    }

    /// Removes `bit`; returns whether it was present. The representation is kept.
    pub fn remove(&mut self, bit: u16) -> (r: bool)
        requires
            old(self).wf(),
        ensures
            final(self).wf(),
            final(self)@ == old(self)@.remove(bit as int),
            r == old(self)@.contains(bit as int),
            final(self).kind_spec() == old(self).kind_spec(),
    {
        match self {
            Block::Seq16(b) => b.remove(bit),
            Block::Seq64(b) => b.remove(bit),
            Block::Rle16(b) => b.remove(bit),
        }
    }

    /// The members in ascending order.
    pub fn iter(&self) -> (r: Vec<u16>)
        requires
            self.wf(),
        ensures
            sorted_strict(r@),
            seq_set(r@) == self@,
    {
        match self {
            Block::Seq16(b) => b.to_vec(),
            Block::Seq64(b) => b.to_vec(),
            Block::Rle16(b) => b.to_vec(),
        }
    }

    /// Builds a block, stored densely, that holds the given values.
    pub fn from_iter(vals: &Vec<u16>) -> (r: Block)
        ensures
            r.wf(),
            r@ == seq_set(vals@),
            r.kind_spec() == Kind::Seq64,
    {
        Block::Seq64(Seq64::from_values(vals))
    }

    /// Projected size in bytes of the current representation.
    pub fn mem_size(&self) -> (r: usize)
        requires
            self.wf(),
        ensures
            r == size_spec(self.kind_spec(), self@.len() as int, runs_of(self@) as int),
            r <= 16 + 4 * BLOCK_CAPACITY,
    {
        match self {
            Block::Seq16(b) => {
                proof {
                    b.lemma_wf();
                }
                16 + 2 * b.weight as usize
            },
            Block::Seq64(_) => 16 + 8 * SEQ64_THRESHOLD,
            Block::Rle16(b) => {
                proof {
                    b.lemma_wf();
                }
                16 + 4 * b.ranges.len()
            },
        }
    }

    pub fn stats(&self) -> (r: Stats)
        requires
            self.wf(),
        ensures
            r.kind == self.kind_spec(),
            r.ones == self@.len(),
            r.size == size_spec(self.kind_spec(), self@.len() as int, runs_of(self@) as int),
    {
        Stats { kind: self.kind(), ones: self.count_ones() as u64, size: self.mem_size() }
    }

    /// Releases spare capacity of the backing storage.
    pub fn shrink_to_fit(&mut self)
        requires
            old(self).wf(),
        ensures
            final(self).wf(),
            final(self)@ == old(self)@,
            final(self).kind_spec() == old(self).kind_spec(),
    {
        match self {
            Block::Seq16(b) => shrink_vec(&mut b.vector),
            Block::Seq64(b) => shrink_vec(&mut b.vector),
            Block::Rle16(b) => shrink_vec(&mut b.ranges),
        }
    }

    /// Reshapes into the dense representation.
    pub fn as_seq64(&mut self)
        requires
            old(self).wf(),
        ensures
            final(self).wf(),
            final(self)@ == old(self)@,
            final(self).kind_spec() == Kind::Seq64,
    {
        if let Block::Seq64(_) = self {
            return;
        }
        let vals = self.iter();
        *self = Block::Seq64(Seq64::from_values(&vals));
    }

    /// Reshapes into the representation with the smallest projected size.
    pub fn optimize(&mut self)
        requires
            old(self).wf(),
        ensures
            optimized(*old(self), *final(self)),
    {
        proof {
            self.lemma_wf();
        }
        let weight = self.count_ones() as usize;
        let vals = self.iter();
        let rle = Rle16::from_sorted(&vals);
        proof {
            rle.lemma_wf();
            lemma_seq_set_len(vals@);
        }
        let runs = rle.ranges.len();
        let mem_rle16 = 16 + 4 * runs;
        let mem_seq16 = 16 + 2 * weight;
        let mem_seq64 = 16 + 8 * SEQ64_THRESHOLD;
        let target = if mem_rle16 <= mem_seq64 && mem_rle16 <= mem_seq16 {
            Kind::Rle16
        } else if weight <= SEQ16_THRESHOLD {
            Kind::Seq16
        } else {
            Kind::Seq64
        };
        if target == self.kind() {
            return;
        }
        match target {
            Kind::Rle16 => {
                *self = Block::Rle16(rle);
            },
            Kind::Seq16 => {
                *self = Block::Seq16(Seq16::from_sorted(vals));
            },
            Kind::Seq64 => {
                *self = Block::Seq64(Seq64::from_values(&vals));
            },
        }
    }

    /// Number of members strictly below `i`.
    pub fn rank1(&self, i: u16) -> (r: u32)
        requires
            self.wf(),
        ensures
            r == rank_of(self@, i as int),
    {
        match self {
            Block::Seq16(b) => b.rank1(i),
            Block::Seq64(b) => b.rank1(i),
            Block::Rle16(b) => b.rank1(i),
        }
    }

    /// Number of non-members strictly below `i`.
    pub fn rank0(&self, i: u16) -> (r: u32)
        requires
            self.wf(),
        ensures
            r == rank0_of(self@, i as int),
    {
        proof {
            self.lemma_wf();
            crate::bits::lemma_rank_mono(self@, 0, i as int);
            lemma_rank_zero(self@, BLOCK_CAPACITY as int);
        }
        i as u32 - self.rank1(i)
    }

    /// Position of the `(c+1)`-th member, or `None` when `c` is not below the weight.
    pub fn select1(&self, c: u32) -> (r: Option<u16>)
        requires
            self.wf(),
        ensures
            match r {
                Some(p) => is_select(self@, c as int, p as int),
                None => c >= self@.len(),
            },
    {
        match self {
            Block::Seq16(b) => b.select1(c),
            Block::Seq64(b) => b.select1(c),
            Block::Rle16(b) => b.select1(c),
        }
    }

    /// Position of the `(c+1)`-th non-member, or `None` when there are not that many.
    pub fn select0(&self, c: u32) -> (r: Option<u16>)
        requires
            self.wf(),
        ensures
            match r {
                Some(p) => is_select0(self@, c as int, p as int),
                None => c >= BLOCK_CAPACITY - self@.len(),
            },
    {
        if let Block::Seq64(b) = self {
            return b.select0(c);
        }
        self.select0_by_rank(c)
    }

    /// Finds the `(c+1)`-th non-member by binary search on `rank0`.
    fn select0_by_rank(&self, c: u32) -> (r: Option<u16>)
        requires
            self.wf(),
        ensures
            match r {
                Some(p) => is_select0(self@, c as int, p as int),
                None => c >= BLOCK_CAPACITY - self@.len(),
            },
    {
        let ghost s = self@;
        proof {
            self.lemma_wf();
            lemma_rank_zero(s, BLOCK_CAPACITY as int);
            lemma_rank_full(s, BLOCK_CAPACITY as int, BLOCK_CAPACITY as int);
        }
        if c >= self.count_zeros() {
            return None;
        }
        let mut lo: u32 = 0;
        let mut hi: u32 = BLOCK_CAPACITY;
        while hi - lo > 1
            invariant
                self.wf(),
                s == self@,
                within(s, BLOCK_CAPACITY as int),
                lo < hi <= BLOCK_CAPACITY,
                rank0_of(s, lo as int) <= c,
                c < rank0_of(s, hi as int),
            decreases hi - lo,
        {
            let mid = lo + (hi - lo) / 2;
            if self.rank0(mid as u16) <= c {
                lo = mid;
            } else {
                hi = mid;
            }
        }
        proof {
            lemma_rank_step(s, lo as int);
        }
        Some(lo as u16)
    }
}

/// Applies `op` to a dense left operand and any right operand, in place.
fn seq64_with(b1: &mut Seq64, that: &Block, op: SetOp)
    requires
        old(b1).wf(),
        that.wf(),
    ensures
        final(b1).wf(),
        final(b1)@ == apply_op(op, old(b1)@, that@),
{
    match that {
        Block::Seq64(b2) => b1.pairwise_with(b2, op),
        Block::Seq16(b2) => b1.apply_values(&b2.vector, op),
        Block::Rle16(b2) => {
            let vals = b2.to_vec();
            b1.apply_values(&vals, op);
        },
    }
}

impl Block {
    /// Replaces the members with the result of `op` on them and those of `that`.
    /// The representation may change; `optimize` is not applied.
    pub fn pairwise_with(&mut self, that: &Block, op: SetOp)
        requires
            old(self).wf(),
            that.wf(),
        ensures
            final(self).wf(),
            final(self)@ == apply_op(op, old(self)@, that@),
    {
        let this_kind = self.kind();
        let that_kind = that.kind();
        if this_kind == Kind::Seq16 && that_kind == Kind::Seq16 {
            if let (Block::Seq16(b1), Block::Seq16(b2)) = (&*self, that) {
                let r = b1.pairwise(b2, op);
                *self = Block::Seq16(r);
            }
            return;
        }
        if this_kind == Kind::Seq16 && that_kind == Kind::Seq64 && op == SetOp::Intersection {
            if let (Block::Seq16(b1), Block::Seq64(b2)) = (&mut *self, that) {
                b1.retain_in(b2);
            }
            return;
        }
        if this_kind == Kind::Rle16 && that_kind == Kind::Rle16 {
            if let (Block::Rle16(b1), Block::Rle16(b2)) = (&*self, that) {
                let r = b1.pairwise(b2, op);
                *self = Block::Rle16(r);
            }
            return;
        }
        self.as_seq64();
        if let Block::Seq64(b1) = self {
            seq64_with(b1, that, op);
        }
    }

    /// The result of `op` on the members of `self` and `that`, as a new block.
    pub fn pairwise(&self, that: &Block, op: SetOp) -> (r: Block)
        requires
            self.wf(),
            that.wf(),
        ensures
            r.wf(),
            r@ == apply_op(op, self@, that@),
    {
        match (self, that) {
            (Block::Seq16(b1), Block::Seq16(b2)) => Block::Seq16(b1.pairwise(b2, op)),
            (Block::Rle16(b1), Block::Rle16(b2)) => Block::Rle16(b1.pairwise(b2, op)),
            _ => {
                let mut this = self.duplicate();
                this.pairwise_with(that, op);
                this
            },
        }
    }

    pub fn intersection(&self, that: &Block) -> (r: Block)
        requires
            self.wf(),
            that.wf(),
        ensures
            r.wf(),
            r@ == self@.intersect(that@),
    {
        let r = self.pairwise(that, SetOp::Intersection);
        assert(r@ =~= self@.intersect(that@));
        r
    }

    pub fn union(&self, that: &Block) -> (r: Block)
        requires
            self.wf(),
            that.wf(),
        ensures
            r.wf(),
            r@ == self@.union(that@),
    {
        let r = self.pairwise(that, SetOp::Union);
        assert(r@ =~= self@.union(that@));
        r
    }

    pub fn difference(&self, that: &Block) -> (r: Block)
        requires
            self.wf(),
            that.wf(),
        ensures
            r.wf(),
            r@ == self@.difference(that@),
    {
        let r = self.pairwise(that, SetOp::Difference);
        assert(r@ =~= self@.difference(that@));
        r
    }

    pub fn symmetric_difference(&self, that: &Block) -> (r: Block)
        requires
            self.wf(),
            that.wf(),
        ensures
            r.wf(),
            r@ == self@.union(that@).difference(self@.intersect(that@)),
    {
        let r = self.pairwise(that, SetOp::SymmetricDifference);
        assert(r@ =~= self@.union(that@).difference(self@.intersect(that@)));
        r
    }

    pub fn intersection_with(&mut self, that: &Block)
        requires
            old(self).wf(),
            that.wf(),
        ensures
            final(self).wf(),
            final(self)@ == old(self)@.intersect(that@),
    {
        self.pairwise_with(that, SetOp::Intersection);
        assert(self@ =~= old(self)@.intersect(that@));
    }

    pub fn union_with(&mut self, that: &Block)
        requires
            old(self).wf(),
            that.wf(),
        ensures
            final(self).wf(),
            final(self)@ == old(self)@.union(that@),
    {
        self.pairwise_with(that, SetOp::Union);
        assert(self@ =~= old(self)@.union(that@));
    }

    pub fn difference_with(&mut self, that: &Block)
        requires
            old(self).wf(),
            that.wf(),
        ensures
            final(self).wf(),
            final(self)@ == old(self)@.difference(that@),
    {
        self.pairwise_with(that, SetOp::Difference);
        assert(self@ =~= old(self)@.difference(that@));
    }

    pub fn symmetric_difference_with(&mut self, that: &Block)
        requires
            old(self).wf(),
            that.wf(),
        ensures
            final(self).wf(),
            final(self)@ == old(self)@.union(that@).difference(old(self)@.intersect(that@)),
    {
        self.pairwise_with(that, SetOp::SymmetricDifference);
        assert(self@ =~= old(self)@.union(that@).difference(old(self)@.intersect(that@)));
    }
}

impl Default for Block {
    fn default() -> (r: Block)
        ensures
            r.wf(),
            r@ == Set::<int>::empty(),
    {
        Block::new()
    }
}

} // verus!
