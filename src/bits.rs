use vstd::prelude::*;

verus! {

broadcast use vstd::set::group_set_axioms, vstd::set_lib::group_set_properties;

/// Number of positions in one block.
pub const BLOCK_CAPACITY: u32 = 65536;

/// The members of `s` that lie strictly below `i`.
pub open spec fn below(s: Set<int>, i: int) -> Set<int> {
    s.filter(|y: int| y < i)
}

/// Number of members of `s` strictly below `i`.
pub open spec fn rank_of(s: Set<int>, i: int) -> nat {
    below(s, i).len()
}

/// Number of non-members of `s` in `[0, i)`.
pub open spec fn rank0_of(s: Set<int>, i: int) -> int {
    i - rank_of(s, i)
}

/// `s` is a finite set of integers in `[0, n)`.
pub open spec fn within(s: Set<int>, n: int) -> bool {
    s.finite() && forall|x: int| #[trigger] s.contains(x) ==> 0 <= x < n
}

/// `p` is the position of the `(k+1)`-th member of `s`.
pub open spec fn is_select(s: Set<int>, k: int, p: int) -> bool {
    s.contains(p) && rank_of(s, p) == k
}

/// `p` is the position of the `(k+1)`-th non-member of `s`, counted from zero.
pub open spec fn is_select0(s: Set<int>, k: int, p: int) -> bool {
    0 <= p && !s.contains(p) && rank0_of(s, p) == k
}

/// Whether bit `b` of word `w` is set.
pub open spec fn word_bit(w: u64, b: u64) -> bool {
    (w >> b) & 1u64 == 1u64
}

pub proof fn lemma_below_finite(s: Set<int>, i: int)
    requires
        s.finite(),
    ensures
        below(s, i).finite(),
        below(s, i).subset_of(s),
        rank_of(s, i) <= s.len(),
{
    s.lemma_len_filter(|y: int| y < i);
}

/// Moving the bound up by one adds the bound itself when it is a member.
pub proof fn lemma_rank_step(s: Set<int>, i: int)
    requires
        s.finite(),
    ensures
        rank_of(s, i + 1) == rank_of(s, i) + (if s.contains(i) { 1nat } else { 0nat }),
{
    lemma_below_finite(s, i);
    if s.contains(i) {
        assert(below(s, i + 1) =~= below(s, i).insert(i));
    } else {
        assert(below(s, i + 1) =~= below(s, i));
    }
}

pub proof fn lemma_rank_zero(s: Set<int>, n: int)
    requires
        within(s, n),
    ensures
        rank_of(s, 0) == 0,
{
    assert(below(s, 0) =~= Set::empty());
}

pub proof fn lemma_rank_full(s: Set<int>, n: int, i: int)
    requires
        within(s, n),
        n <= i,
    ensures
        rank_of(s, i) == s.len(),
{
    assert(below(s, i) =~= s);
}

/// Rank never decreases as the bound grows.
pub proof fn lemma_rank_mono(s: Set<int>, i: int, j: int)
    requires
        s.finite(),
        i <= j,
    ensures
        rank_of(s, i) <= rank_of(s, j),
        rank_of(s, j) <= rank_of(s, i) + (j - i),
    decreases j - i,
{
    if i < j {
        lemma_rank_mono(s, i, j - 1);
        lemma_rank_step(s, j - 1);
    }
}

/// Rank grows by exactly the width of an interval of members.
pub proof fn lemma_rank_full_interval(s: Set<int>, lo: int, hi: int)
    requires
        s.finite(),
        lo <= hi,
        forall|x: int| lo <= x < hi ==> s.contains(x),
    ensures
        rank_of(s, hi) == rank_of(s, lo) + (hi - lo),
    decreases hi - lo,
{
    if lo < hi {
        lemma_rank_full_interval(s, lo, hi - 1);
        lemma_rank_step(s, hi - 1);
    }
}

/// Rank stays put across an interval of non-members.
pub proof fn lemma_rank_empty_interval(s: Set<int>, lo: int, hi: int)
    requires
        s.finite(),
        lo <= hi,
        forall|x: int| lo <= x < hi ==> !s.contains(x),
    ensures
        rank_of(s, hi) == rank_of(s, lo),
    decreases hi - lo,
{
    if lo < hi {
        lemma_rank_empty_interval(s, lo, hi - 1);
        lemma_rank_step(s, hi - 1);
    }
}

/// Rank is equal on sets that agree below the bound.
pub proof fn lemma_rank_agree(s: Set<int>, t: Set<int>, i: int)
    requires
        forall|x: int| x < i ==> (s.contains(x) == t.contains(x)),
    ensures
        rank_of(s, i) == rank_of(t, i),
{
    assert(below(s, i) =~= below(t, i));
}

/// A member that lies beyond position `p` makes the rank at `p` smaller than the size.
pub proof fn lemma_rank_lt_len(s: Set<int>, p: int, x: int)
    requires
        s.finite(),
        s.contains(x),
        p <= x,
    ensures
        rank_of(s, p) < s.len(),
{
    lemma_below_finite(s, p);
    assert(!below(s, p).contains(x));
    vstd::set_lib::lemma_len_subset(below(s, p).insert(x), s);
}

/// The select position for a given `k` is unique.
pub proof fn lemma_select_unique(s: Set<int>, k: int, p: int, q: int)
    requires
        s.finite(),
        is_select(s, k, p),
        is_select(s, k, q),
    ensures
        p == q,
{
    if p < q {
        lemma_rank_step(s, p);
        lemma_rank_mono(s, p + 1, q);
    } else if q < p {
        lemma_rank_step(s, q);
        lemma_rank_mono(s, q + 1, p);
    }
}

pub proof fn lemma_bit_set(w: u64, b: u64, c: u64)
    requires
        b < 64,
        c < 64,
    ensures
        word_bit(w | (1u64 << b), c) == (word_bit(w, c) || b == c),
{
    assert(((w | (1u64 << b)) >> c) & 1u64 == 1u64 <==> (((w >> c) & 1u64 == 1u64) || b == c))
        by (bit_vector)
        requires
            b < 64,
            c < 64,
    ;
}

pub proof fn lemma_bit_clear(w: u64, b: u64, c: u64)
    requires
        b < 64,
        c < 64,
    ensures
        word_bit(w & !(1u64 << b), c) == (word_bit(w, c) && b != c),
{
    assert(((w & !(1u64 << b)) >> c) & 1u64 == 1u64 <==> (((w >> c) & 1u64 == 1u64) && b != c))
        by (bit_vector)
        requires
            b < 64,
            c < 64,
    ;
}

pub proof fn lemma_bit_ops(a: u64, b: u64, c: u64)
    requires
        c < 64,
    ensures
        word_bit(a & b, c) == (word_bit(a, c) && word_bit(b, c)),
        word_bit(a | b, c) == (word_bit(a, c) || word_bit(b, c)),
        word_bit(a & !b, c) == (word_bit(a, c) && !word_bit(b, c)),
        word_bit(a ^ b, c) == (word_bit(a, c) != word_bit(b, c)),
{
    assert(((a & b) >> c) & 1u64 == 1u64 <==> (((a >> c) & 1u64 == 1u64) && ((b >> c) & 1u64
        == 1u64))) by (bit_vector);
    assert(((a | b) >> c) & 1u64 == 1u64 <==> (((a >> c) & 1u64 == 1u64) || ((b >> c) & 1u64
        == 1u64))) by (bit_vector);
    assert(((a & !b) >> c) & 1u64 == 1u64 <==> (((a >> c) & 1u64 == 1u64) && !((b >> c) & 1u64
        == 1u64))) by (bit_vector);
    assert(((a ^ b) >> c) & 1u64 == 1u64 <==> (((a >> c) & 1u64 == 1u64) != ((b >> c) & 1u64
        == 1u64))) by (bit_vector);
}

pub proof fn lemma_bit_zero(c: u64)
    requires
        c < 64,
    ensures
        !word_bit(0u64, c),
{
    assert((0u64 >> c) & 1u64 != 1u64) by (bit_vector);
}


/// The four pairwise set operations.
#[derive(Clone, Copy, Debug, PartialEq, Eq, Structural)]
pub enum SetOp {
    Intersection,
    Union,
    Difference,
    SymmetricDifference,
}

/// Whether an element that is in the left operand (`in_a`) and/or the right one (`in_b`)
/// belongs to the result of `op`.
pub open spec fn keep_spec(op: SetOp, in_a: bool, in_b: bool) -> bool {
    match op {
        SetOp::Intersection => in_a && in_b,
        SetOp::Union => in_a || in_b,
        SetOp::Difference => in_a && !in_b,
        SetOp::SymmetricDifference => in_a != in_b,
    }
}

/// The result set of `op` on `a` and `b`.
pub open spec fn apply_op(op: SetOp, a: Set<int>, b: Set<int>) -> Set<int> {
    Set::new(|x: int| keep_spec(op, a.contains(x), b.contains(x)))
}

pub fn keep(op: SetOp, in_a: bool, in_b: bool) -> (r: bool)
    ensures
        r == keep_spec(op, in_a, in_b),
{
    match op {
        SetOp::Intersection => in_a && in_b,
        SetOp::Union => in_a || in_b,
        SetOp::Difference => in_a && !in_b,
        SetOp::SymmetricDifference => in_a != in_b,
    }
}

pub proof fn lemma_apply_op_within(op: SetOp, a: Set<int>, b: Set<int>, n: int)
    requires
        within(a, n),
        within(b, n),
    ensures
        within(apply_op(op, a, b), n),
{
    assert(apply_op(op, a, b).subset_of(a.union(b)));
    vstd::set_lib::lemma_len_subset(apply_op(op, a, b), a.union(b));
}

/// A set within `[0, n)` has at most `n` members.
pub proof fn lemma_within_len(s: Set<int>, n: int)
    requires
        within(s, n),
        0 <= n,
    ensures
        s.len() <= n,
{
    vstd::set_lib::lemma_int_range(0, n);
    vstd::set_lib::lemma_len_subset(s, vstd::set_lib::set_int_range(0, n));
}

/// A strictly ascending sequence of 16-bit values.
pub open spec fn sorted_strict(v: Seq<u16>) -> bool {
    forall|i: int, j: int| 0 <= i < j < v.len() ==> v[i] < v[j]
}

/// The set of values that a sequence holds.
pub open spec fn seq_set(v: Seq<u16>) -> Set<int> {
    Set::new(|x: int| exists|j: int| 0 <= j < v.len() && v[j] as int == x)
}

pub proof fn lemma_seq_set_push(v: Seq<u16>, x: u16)
    ensures
        seq_set(v.push(x)) == seq_set(v).insert(x as int),
{
    assert forall|y: int| seq_set(v.push(x)).contains(y) implies seq_set(v).insert(x as int).contains(y) by {
        let j = choose|j: int| 0 <= j < v.len() + 1 && v.push(x)[j] as int == y;
        if j < v.len() {
            assert(v[j] as int == y);
        }
    }
    assert forall|y: int| seq_set(v).insert(x as int).contains(y) implies seq_set(v.push(x)).contains(y) by {
        if y == x as int {
            assert(v.push(x)[v.len() as int] as int == y);
        } else {
            let j = choose|j: int| 0 <= j < v.len() && v[j] as int == y;
            assert(v.push(x)[j] as int == y);
        }
    }
    assert(seq_set(v.push(x)) =~= seq_set(v).insert(x as int));
}

/// A strictly ascending sequence holds as many values as it is long.
pub proof fn lemma_seq_set_len(v: Seq<u16>)
    requires
        sorted_strict(v),
    ensures
        within(seq_set(v), BLOCK_CAPACITY as int),
        seq_set(v).len() == v.len(),
    decreases v.len(),
{
    if v.len() == 0 {
        assert(seq_set(v) =~= Set::empty());
    } else {
        let w = v.drop_last();
        lemma_seq_set_len(w);
        assert(v == w.push(v.last()));
        lemma_seq_set_push(w, v.last());
        assert(!seq_set(w).contains(v.last() as int)) by {
            if seq_set(w).contains(v.last() as int) {
                let j = choose|j: int| 0 <= j < w.len() && w[j] as int == v.last() as int;
                assert(v[j] < v[v.len() - 1]);
            }
        }
    }
}

/// In a strictly ascending sequence, the number of values below `i` is the index that
/// separates the values below `i` from the others.
pub proof fn lemma_seq_rank(v: Seq<u16>, p: int, i: int)
    requires
        sorted_strict(v),
        0 <= p <= v.len(),
        forall|j: int| 0 <= j < p ==> v[j] < i,
        forall|j: int| p <= j < v.len() ==> v[j] >= i,
    ensures
        rank_of(seq_set(v), i) == p,
{
    let u = v.subrange(0, p);
    assert forall|x: int| below(seq_set(v), i).contains(x) implies seq_set(u).contains(x) by {
        let j = choose|j: int| 0 <= j < v.len() && v[j] as int == x;
        assert(u[j] == v[j]);
    }
    assert forall|x: int| seq_set(u).contains(x) implies below(seq_set(v), i).contains(x) by {
        let j = choose|j: int| 0 <= j < u.len() && u[j] as int == x;
        assert(v[j] == u[j]);
    }
    assert(below(seq_set(v), i) =~= seq_set(u));
    lemma_seq_set_len(u);
}

/// The value at index `k` of a strictly ascending sequence is the `(k+1)`-th member.
pub proof fn lemma_seq_select(v: Seq<u16>, k: int)
    requires
        sorted_strict(v),
        0 <= k < v.len(),
    ensures
        is_select(seq_set(v), k, v[k] as int),
{
    lemma_seq_rank(v, k, v[k] as int);
}

/// Two strictly ascending sequences that hold the same values are equal.
pub proof fn lemma_sorted_unique(a: Seq<u16>, b: Seq<u16>)
    requires
        sorted_strict(a),
        sorted_strict(b),
        seq_set(a) == seq_set(b),
    ensures
        a == b,
{
    lemma_seq_set_len(a);
    lemma_seq_set_len(b);
    assert forall|k: int| 0 <= k < a.len() implies a[k] == b[k] by {
        lemma_seq_select(a, k);
        lemma_seq_select(b, k);
        lemma_select_unique(seq_set(a), k, a[k] as int, b[k] as int);
    }
    assert(a =~= b);
}


/// A strictly ascending sequence of 32-bit values.
pub open spec fn sorted32(v: Seq<u32>) -> bool {
    forall|i: int, j: int| 0 <= i < j < v.len() ==> v[i] < v[j]
}

/// The set of values that a sequence of 32-bit values holds.
pub open spec fn set32(v: Seq<u32>) -> Set<int> {
    Set::new(|x: int| exists|j: int| 0 <= j < v.len() && v[j] as int == x)
}

pub proof fn lemma_set32_push(v: Seq<u32>, x: u32)
    ensures
        set32(v.push(x)) == set32(v).insert(x as int),
{
    assert forall|y: int| set32(v.push(x)).contains(y) implies set32(v).insert(x as int).contains(y) by {
        let j = choose|j: int| 0 <= j < v.len() + 1 && v.push(x)[j] as int == y;
        if j < v.len() {
            assert(v[j] as int == y);
        }
    }
    assert forall|y: int| set32(v).insert(x as int).contains(y) implies set32(v.push(x)).contains(y) by {
        if y == x as int {
            assert(v.push(x)[v.len() as int] as int == y);
        } else {
            let j = choose|j: int| 0 <= j < v.len() && v[j] as int == y;
            assert(v.push(x)[j] as int == y);
        }
    }
    assert(set32(v.push(x)) =~= set32(v).insert(x as int));
}

/// A strictly ascending sequence of 64-bit values.
pub open spec fn sorted64(v: Seq<u64>) -> bool {
    forall|i: int, j: int| 0 <= i < j < v.len() ==> v[i] < v[j]
}

/// The set of values that a sequence of 64-bit values holds.
pub open spec fn set64(v: Seq<u64>) -> Set<int> {
    Set::new(|x: int| exists|j: int| 0 <= j < v.len() && v[j] as int == x)
}

pub proof fn lemma_set64_push(v: Seq<u64>, x: u64)
    ensures
        set64(v.push(x)) == set64(v).insert(x as int),
{
    assert forall|y: int| set64(v.push(x)).contains(y) implies set64(v).insert(x as int).contains(y) by {
        let j = choose|j: int| 0 <= j < v.len() + 1 && v.push(x)[j] as int == y;
        if j < v.len() {
            assert(v[j] as int == y);
        }
    }
    assert forall|y: int| set64(v).insert(x as int).contains(y) implies set64(v.push(x)).contains(y) by {
        if y == x as int {
            assert(v.push(x)[v.len() as int] as int == y);
        } else {
            let j = choose|j: int| 0 <= j < v.len() && v[j] as int == y;
            assert(v.push(x)[j] as int == y);
        }
    }
    assert(set64(v.push(x)) =~= set64(v).insert(x as int));
}


/// A strictly ascending sequence of 32-bit values holds as many values as it is long.
pub proof fn lemma_set32_len(v: Seq<u32>)
    requires
        sorted32(v),
    ensures
        within(set32(v), 0x1_0000_0000),
        set32(v).len() == v.len(),
    decreases v.len(),
{
    if v.len() == 0 {
        assert(set32(v) =~= Set::empty());
    } else {
        let w = v.drop_last();
        lemma_set32_len(w);
        assert(v == w.push(v.last()));
        lemma_set32_push(w, v.last());
        assert(!set32(w).contains(v.last() as int)) by {
            if set32(w).contains(v.last() as int) {
                let j = choose|j: int| 0 <= j < w.len() && w[j] as int == v.last() as int;
                assert(v[j] < v[v.len() - 1]);
            }
        }
    }
}

} // verus!
