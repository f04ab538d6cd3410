use vstd::prelude::*;

use crate::bit_map::BitMap;
use crate::bits::{
    apply_op, lemma_seq_set_len, lemma_sorted_unique, seq_set, set32, set64, sorted_strict,
    SetOp,
};
use crate::block::{optimized, Block};
use crate::vec64::Vec64;

verus! {

/// Reshaping twice gives what reshaping once gave, and neither changes the members.
pub proof fn lemma_optimize_idempotent(b0: Block, b1: Block, b2: Block)
    requires
        b0.wf(),
        optimized(b0, b1),
        optimized(b1, b2),
    ensures
        b2 == b1,
        b2@ == b0@,
{
}

/// Whatever the representation, the ascending iteration of a set is the same sequence.
pub proof fn lemma_iteration_agrees(a: Block, b: Block, va: Seq<u16>, vb: Seq<u16>)
    requires
        a.wf(),
        b.wf(),
        a@ == b@,
        sorted_strict(va),
        seq_set(va) == a@,
        sorted_strict(vb),
        seq_set(vb) == b@,
    ensures
        va == vb,
{
    lemma_sorted_unique(va, vb);
}

/// The weight of a block equals the number of values its iteration yields.
pub proof fn lemma_weight_is_iteration_len(b: Block, v: Seq<u16>)
    requires
        b.wf(),
        sorted_strict(v),
        seq_set(v) == b@,
    ensures
        v.len() == b@.len(),
{
    lemma_seq_set_len(v);
}

/// Inserting the same value twice: the second insertion changes nothing and reports `false`.
pub proof fn lemma_insert_twice(s0: Set<int>, s1: Set<int>, s2: Set<int>, x: int, r2: bool)
    requires
        s1 == s0.insert(x),
        s2 == s1.insert(x),
        r2 == !s1.contains(x),
    ensures
        s2 == s1,
        !r2,
{
    assert(s2 =~= s1);
}

/// Inserting an absent value and removing it restores the set, both calls reporting `true`.
pub proof fn lemma_insert_remove(
    s0: Set<int>,
    s1: Set<int>,
    s2: Set<int>,
    x: int,
    r1: bool,
    r2: bool,
)
    requires
        !s0.contains(x),
        s1 == s0.insert(x),
        r1 == !s0.contains(x),
        s2 == s1.remove(x),
        r2 == s1.contains(x),
    ensures
        s2 == s0,
        r1,
        r2,
{
    assert(s2 =~= s0);
}

/// Union and intersection are commutative and associative; difference is intersection with
/// the complement; symmetric difference is the union less the intersection.
pub proof fn lemma_pairwise_algebra(a: Set<int>, b: Set<int>, c: Set<int>)
    ensures
        apply_op(SetOp::Union, a, b) == apply_op(SetOp::Union, b, a),
        apply_op(SetOp::Union, apply_op(SetOp::Union, a, b), c) == apply_op(
            SetOp::Union,
            a,
            apply_op(SetOp::Union, b, c),
        ),
        apply_op(SetOp::Intersection, a, b) == apply_op(SetOp::Intersection, b, a),
        apply_op(SetOp::Intersection, apply_op(SetOp::Intersection, a, b), c) == apply_op(
            SetOp::Intersection,
            a,
            apply_op(SetOp::Intersection, b, c),
        ),
        apply_op(SetOp::Difference, a, b) == a.intersect(b.complement()),
        apply_op(SetOp::SymmetricDifference, a, b) == apply_op(
            SetOp::Difference,
            apply_op(SetOp::Union, a, b),
            apply_op(SetOp::Intersection, a, b),
        ),
{
    assert(apply_op(SetOp::Union, a, b) =~= apply_op(SetOp::Union, b, a));
    assert(apply_op(SetOp::Union, apply_op(SetOp::Union, a, b), c) =~= apply_op(
        SetOp::Union,
        a,
        apply_op(SetOp::Union, b, c),
    ));
    assert(apply_op(SetOp::Intersection, a, b) =~= apply_op(SetOp::Intersection, b, a));
    assert(apply_op(SetOp::Intersection, apply_op(SetOp::Intersection, a, b), c) =~= apply_op(
        SetOp::Intersection,
        a,
        apply_op(SetOp::Intersection, b, c),
    ));
    assert(apply_op(SetOp::Difference, a, b) =~= a.intersect(b.complement()));
    assert(apply_op(SetOp::SymmetricDifference, a, b) =~= apply_op(
        SetOp::Difference,
        apply_op(SetOp::Union, a, b),
        apply_op(SetOp::Intersection, a, b),
    ));
}

/// Building a block from the iteration of another gives the same set.
pub proof fn lemma_block_round_trip(b: Block, v: Seq<u16>, r: Block)
    requires
        b.wf(),
        seq_set(v) == b@,
        r@ == seq_set(v),
    ensures
        r@ == b@,
{
}

/// Building a 32-bit map from the iteration of another gives the same set.
pub proof fn lemma_bit_map_round_trip(m: BitMap, v: Seq<u32>, r: BitMap)
    requires
        m.wf(),
        set32(v) == m@,
        r@ == set32(v),
    ensures
        r@ == m@,
{
}

/// Building a 64-bit map from the iteration of another gives the same set.
pub proof fn lemma_vec64_round_trip(m: Vec64, v: Seq<u64>, r: Vec64)
    requires
        m.wf(),
        set64(v) == m@,
        r@ == set64(v),
    ensures
        r@ == m@,
{
}

} // verus!
