use vstd::prelude::*;

use crate::bits::{below, rank_of, within};

verus! {

broadcast use vstd::set::group_set_axioms, vstd::set_lib::group_set_properties;

/// Keys ascend strictly, are non-negative, and each slot set lies in `[0, width)`.
pub open spec fn level_ok(keys: Seq<int>, sets: Seq<Set<int>>, width: int) -> bool {
    &&& width > 0
    &&& keys.len() == sets.len()
    &&& forall|i: int, j: int| 0 <= i < j < keys.len() ==> keys[i] < keys[j]
    &&& forall|k: int| 0 <= k < keys.len() ==> keys[k] >= 0
    &&& forall|k: int| 0 <= k < sets.len() ==> within(#[trigger] sets[k], width)
}

/// The members of slot `h` holding `s`: `h * width + y` for each `y` of `s`.
pub open spec fn slot(h: int, s: Set<int>, width: int) -> Set<int> {
    Set::new(|x: int| x >= 0 && x / width == h && s.contains(x % width))
}

/// The union of the first `n` slots.
pub open spec fn two_level(keys: Seq<int>, sets: Seq<Set<int>>, width: int, n: int) -> Set<int> {
    Set::new(
        |x: int|
            x >= 0 && exists|k: int|
                0 <= k < n && #[trigger] keys[k] == x / width && sets[k].contains(x % width),
    )
}

/// Sum of the sizes of the first `n` slot sets.
pub open spec fn sum_lens(sets: Seq<Set<int>>, n: int) -> nat
    decreases n,
{
    if n <= 0 {
        0
    } else {
        sum_lens(sets, n - 1) + sets[n - 1].len()
    }
}

pub proof fn lemma_div_mod(x: int, h: int, y: int, width: int)
    requires
        width > 0,
        0 <= y < width,
        x == h * width + y,
    ensures
        x / width == h,
        x % width == y,
{
    vstd::arithmetic::div_mod::lemma_fundamental_div_mod_converse(x, width, h, y);
}

pub proof fn lemma_compose(x: int, width: int)
    requires
        width > 0,
        x >= 0,
    ensures
        x == (x / width) * width + x % width,
        0 <= x % width < width,
        x / width >= 0,
{
    vstd::arithmetic::div_mod::lemma_fundamental_div_mod(x, width);
    assert(x / width >= 0) by (nonlinear_arith)
        requires
            width > 0,
            x >= 0,
    ;
    assert((x / width) * width == width * (x / width)) by (nonlinear_arith);
}

/// A member of a lower slot lies below every member of a higher slot.
pub proof fn lemma_slot_order(x: int, y: int, width: int)
    requires
        width > 0,
        x >= 0,
        y >= 0,
        x / width < y / width,
    ensures
        x < y,
{
    lemma_compose(x, width);
    lemma_compose(y, width);
    let a = x / width;
    let b = y / width;
    assert(a * width + width <= b * width) by (nonlinear_arith)
        requires
            a < b,
            width > 0,
    ;
}

pub proof fn lemma_slot_len(h: int, s: Set<int>, width: int)
    requires
        width > 0,
        h >= 0,
        within(s, width),
    ensures
        slot(h, s, width).finite(),
        slot(h, s, width).len() == s.len(),
{
    let f = |y: int| h * width + y;
    assert forall|x: int| slot(h, s, width).contains(x) implies s.map(f).contains(x) by {
        lemma_compose(x, width);
        assert(f(x % width) == x);
    }
    assert forall|x: int| s.map(f).contains(x) implies slot(h, s, width).contains(x) by {
        let y = choose|y: int| s.contains(y) && f(y) == x;
        lemma_div_mod(x, h, y, width);
        assert(h * width >= 0) by (nonlinear_arith)
            requires
                h >= 0,
                width > 0,
        ;
    }
    assert(slot(h, s, width) =~= s.map(f));
    assert(vstd::relations::injective_on(f, s));
    vstd::set_lib::lemma_map_size(s, slot(h, s, width), f);
}

/// The first `n` slots hold as many members as their sets together.
pub proof fn lemma_two_level_len(keys: Seq<int>, sets: Seq<Set<int>>, width: int, n: int)
    requires
        level_ok(keys, sets, width),
        0 <= n <= keys.len(),
    ensures
        two_level(keys, sets, width, n).finite(),
        two_level(keys, sets, width, n).len() == sum_lens(sets, n),
    decreases n,
{
    if n == 0 {
        assert(two_level(keys, sets, width, n) =~= Set::empty());
    } else {
        lemma_two_level_len(keys, sets, width, n - 1);
        let prev = two_level(keys, sets, width, n - 1);
        let last = slot(keys[n - 1], sets[n - 1], width);
        lemma_slot_len(keys[n - 1], sets[n - 1], width);
        assert(two_level(keys, sets, width, n) =~= prev.union(last));
        assert(prev.disjoint(last)) by {
            assert forall|x: int| prev.contains(x) implies !last.contains(x) by {
                let k = choose|k: int|
                    0 <= k < n - 1 && #[trigger] keys[k] == x / width && sets[k].contains(
                        x % width,
                    );
                assert(keys[k] < keys[n - 1]);
            }
        }
        vstd::set_lib::lemma_set_disjoint_lens(prev, last);
    }
}

/// Membership of `h * width + l`: slot `h` is present and holds `l`.
pub proof fn lemma_two_level_contains(
    keys: Seq<int>,
    sets: Seq<Set<int>>,
    width: int,
    k: int,
    l: int,
)
    requires
        level_ok(keys, sets, width),
        0 <= k < keys.len(),
        0 <= l < width,
    ensures
        two_level(keys, sets, width, keys.len() as int).contains(keys[k] * width + l)
            == sets[k].contains(l),
{
    let x = keys[k] * width + l;
    lemma_div_mod(x, keys[k], l, width);
    assert(keys[k] * width >= 0) by (nonlinear_arith)
        requires
            keys[k] >= 0,
            width > 0,
    ;
    if two_level(keys, sets, width, keys.len() as int).contains(x) {
        let j = choose|j: int|
            0 <= j < keys.len() && #[trigger] keys[j] == x / width && sets[j].contains(x % width);
        if j < k {
            assert(keys[j] < keys[k]);
        } else if j > k {
            assert(keys[k] < keys[j]);
        }
    }
}

/// No member lies in a slot whose key is absent.
pub proof fn lemma_two_level_absent(keys: Seq<int>, sets: Seq<Set<int>>, width: int, x: int)
    requires
        level_ok(keys, sets, width),
        x >= 0,
        forall|k: int| 0 <= k < keys.len() ==> keys[k] != x / width,
    ensures
        !two_level(keys, sets, width, keys.len() as int).contains(x),
{
}

/// The rank of `h * width + l` sums the slots with smaller keys, then ranks inside slot `h`.
pub proof fn lemma_two_level_rank(
    keys: Seq<int>,
    sets: Seq<Set<int>>,
    width: int,
    p: int,
    h: int,
    l: int,
)
    requires
        level_ok(keys, sets, width),
        0 <= p <= keys.len(),
        h >= 0,
        0 <= l <= width,
        forall|k: int| 0 <= k < p ==> keys[k] < h,
        forall|k: int| p <= k < keys.len() ==> keys[k] >= h,
    ensures
        rank_of(two_level(keys, sets, width, keys.len() as int), h * width + l) == sum_lens(
            sets,
            p,
        ) + (if p < keys.len() && keys[p] == h {
            rank_of(sets[p], l)
        } else {
            0
        }),
{
    let n = keys.len() as int;
    let all = two_level(keys, sets, width, n);
    let i = h * width + l;
    let lower = two_level(keys, sets, width, p);
    let part = if p < n && keys[p] == h {
        slot(h, below(sets[p], l), width)
    } else {
        Set::empty()
    };
    assert(h * width >= 0) by (nonlinear_arith)
        requires
            h >= 0,
            width > 0,
    ;
    assert forall|x: int| below(all, i).contains(x) implies lower.union(part).contains(x) by {
        let k = choose|k: int|
            0 <= k < n && #[trigger] keys[k] == x / width && sets[k].contains(x % width);
        lemma_compose(x, width);
        if k >= p {
            if keys[k] > h {
                lemma_div_mod(h * width, h, 0, width);
                assert((h * width) / width < x / width);
                if l < width {
                    lemma_div_mod(i, h, l, width);
                    lemma_slot_order(i, x, width);
                } else {
                    assert(h * width + width == (h + 1) * width) by (nonlinear_arith);
                    lemma_div_mod(i, h + 1, 0, width);
                    if keys[k] > h + 1 {
                        lemma_slot_order(i, x, width);
                    } else {
                        assert(x >= i);
                    }
                }
            } else {
                assert(k == p) by {
                    if k > p {
                        assert(keys[p] < keys[k]);
                    }
                }
                assert(x % width < l);
            }
        }
    }
    assert forall|x: int| lower.union(part).contains(x) implies below(all, i).contains(x) by {
        lemma_compose(x, width);
        if lower.contains(x) {
            let k = choose|k: int|
                0 <= k < p && #[trigger] keys[k] == x / width && sets[k].contains(x % width);
            lemma_div_mod(h * width, h, 0, width);
            lemma_slot_order(x, h * width, width);
        } else {
            assert(keys[p] == x / width);
            assert(x == h * width + x % width);
        }
    }
    assert(below(all, i) =~= lower.union(part));
    lemma_two_level_len(keys, sets, width, p);
    if p < n && keys[p] == h {
        crate::bits::lemma_below_finite(sets[p], l);
        assert(within(below(sets[p], l), width));
        lemma_slot_len(h, below(sets[p], l), width);
        assert(lower.disjoint(part)) by {
            assert forall|x: int| lower.contains(x) implies !part.contains(x) by {
                let k = choose|k: int|
                    0 <= k < p && #[trigger] keys[k] == x / width && sets[k].contains(x % width);
            }
        }
        vstd::set_lib::lemma_set_disjoint_lens(lower, part);
    } else {
        assert(lower.union(part) =~= lower);
    }
}

/// Every member lies below `bound * width` when every key lies below `bound`.
pub proof fn lemma_two_level_within(keys: Seq<int>, sets: Seq<Set<int>>, width: int, bound: int)
    requires
        level_ok(keys, sets, width),
        bound > 0,
        forall|k: int| 0 <= k < keys.len() ==> keys[k] < bound,
    ensures
        within(two_level(keys, sets, width, keys.len() as int), bound * width),
{
    lemma_two_level_len(keys, sets, width, keys.len() as int);
    assert forall|x: int| #[trigger] two_level(keys, sets, width, keys.len() as int).contains(x)
        implies 0 <= x < bound * width by {
        let k = choose|k: int|
            0 <= k < keys.len() && #[trigger] keys[k] == x / width && sets[k].contains(x % width);
        lemma_div_mod(bound * width, bound, 0, width);
        lemma_slot_order(x, bound * width, width);
    }
}

/// Replacing the set of slot `p` changes the members of that slot only.
pub proof fn lemma_update_slot(keys: Seq<int>, sets: Seq<Set<int>>, width: int, p: int, s: Set<int>)
    requires
        level_ok(keys, sets, width),
        0 <= p < keys.len(),
        within(s, width),
    ensures
        level_ok(keys, sets.update(p, s), width),
        forall|x: int| #[trigger] two_level(keys, sets.update(p, s), width, keys.len() as int).contains(x)
            == if x >= 0 && x / width == keys[p] {
            s.contains(x % width)
        } else {
            two_level(keys, sets, width, keys.len() as int).contains(x)
        },
{
    let n = keys.len() as int;
    let t = sets.update(p, s);
    assert forall|k: int| 0 <= k < t.len() implies within(#[trigger] t[k], width) by {
        if k != p {
            assert(t[k] == sets[k]);
        }
    }
    assert forall|x: int| #[trigger] two_level(keys, t, width, n).contains(x)
        == if x >= 0 && x / width == keys[p] {
            s.contains(x % width)
        } else {
            two_level(keys, sets, width, n).contains(x)
        } by {
        if x >= 0 && x / width == keys[p] {
            if two_level(keys, t, width, n).contains(x) {
                let k = choose|k: int|
                    0 <= k < n && #[trigger] keys[k] == x / width && t[k].contains(x % width);
                if k < p {
                    assert(keys[k] < keys[p]);
                } else if k > p {
                    assert(keys[p] < keys[k]);
                }
            }
            if s.contains(x % width) {
                assert(keys[p] == x / width && t[p].contains(x % width));
            }
        } else {
            if two_level(keys, t, width, n).contains(x) {
                let k = choose|k: int|
                    0 <= k < n && #[trigger] keys[k] == x / width && t[k].contains(x % width);
                assert(sets[k] == t[k]);
            }
            if two_level(keys, sets, width, n).contains(x) {
                let k = choose|k: int|
                    0 <= k < n && #[trigger] keys[k] == x / width && sets[k].contains(x % width);
                assert(sets[k] == t[k]);
            }
        }
    }
}

/// Adding a slot with a new key `h` at index `p` adds the members of that slot only.
pub proof fn lemma_insert_slot(
    keys: Seq<int>,
    sets: Seq<Set<int>>,
    width: int,
    p: int,
    h: int,
    s: Set<int>,
)
    requires
        level_ok(keys, sets, width),
        0 <= p <= keys.len(),
        h >= 0,
        forall|k: int| 0 <= k < p ==> keys[k] < h,
        forall|k: int| p <= k < keys.len() ==> keys[k] > h,
        within(s, width),
    ensures
        level_ok(keys.insert(p, h), sets.insert(p, s), width),
        forall|x: int| #[trigger] two_level(keys.insert(p, h), sets.insert(p, s), width, keys.len() + 1int).contains(x)
            == if x >= 0 && x / width == h {
            s.contains(x % width)
        } else {
            two_level(keys, sets, width, keys.len() as int).contains(x)
        },
{
    let n = keys.len() as int;
    let ks = keys.insert(p, h);
    let t = sets.insert(p, s);
    assert forall|k: int| 0 <= k < t.len() implies within(#[trigger] t[k], width) by {
        if k < p {
            assert(t[k] == sets[k]);
        } else if k > p {
            assert(t[k] == sets[k - 1]);
        }
    }
    assert forall|i: int, j: int| 0 <= i < j < ks.len() implies ks[i] < ks[j] by {
        if j < p {
        } else if j == p {
        } else if i < p {
            assert(ks[j] == keys[j - 1]);
        } else if i == p {
            assert(ks[j] == keys[j - 1]);
        } else {
            assert(ks[i] == keys[i - 1] && ks[j] == keys[j - 1]);
        }
    }
    assert forall|k: int| 0 <= k < ks.len() implies ks[k] >= 0 by {
        if k < p {
        } else if k > p {
            assert(ks[k] == keys[k - 1]);
        }
    }
    assert forall|x: int| #[trigger] two_level(ks, t, width, n + 1).contains(x)
        == if x >= 0 && x / width == h {
            s.contains(x % width)
        } else {
            two_level(keys, sets, width, n).contains(x)
        } by {
        if two_level(ks, t, width, n + 1).contains(x) {
            let k = choose|k: int|
                0 <= k < n + 1 && #[trigger] ks[k] == x / width && t[k].contains(x % width);
            if k < p {
                assert(keys[k] == x / width && sets[k].contains(x % width));
            } else if k > p {
                assert(keys[k - 1] == x / width && sets[k - 1].contains(x % width));
            }
        }
        if x >= 0 && x / width == h {
            if s.contains(x % width) {
                assert(ks[p] == x / width && t[p].contains(x % width));
            }
            if two_level(keys, sets, width, n).contains(x) {
                let k = choose|k: int|
                    0 <= k < n && #[trigger] keys[k] == x / width && sets[k].contains(x % width);
            }
        } else if two_level(keys, sets, width, n).contains(x) {
            let k = choose|k: int|
                0 <= k < n && #[trigger] keys[k] == x / width && sets[k].contains(x % width);
            if k < p {
                assert(ks[k] == x / width && t[k].contains(x % width));
            } else {
                assert(ks[k + 1] == x / width && t[k + 1].contains(x % width));
            }
        }
    }
}

/// The first `n + 1` slots are the first `n` together with slot `n`.
pub proof fn lemma_two_level_step(keys: Seq<int>, sets: Seq<Set<int>>, width: int, n: int)
    requires
        level_ok(keys, sets, width),
        0 <= n < keys.len(),
    ensures
        two_level(keys, sets, width, n + 1) == two_level(keys, sets, width, n).union(
            slot(keys[n], sets[n], width),
        ),
{
    assert(two_level(keys, sets, width, n + 1) =~= two_level(keys, sets, width, n).union(
        slot(keys[n], sets[n], width),
    ));
}

/// Adding `y` to the set of a slot adds `h * width + y` to the slot's members.
pub proof fn lemma_slot_insert(h: int, s: Set<int>, width: int, y: int)
    requires
        width > 0,
        h >= 0,
        0 <= y < width,
    ensures
        slot(h, s.insert(y), width) == slot(h, s, width).insert(h * width + y),
{
    lemma_div_mod(h * width + y, h, y, width);
    assert(h * width >= 0) by (nonlinear_arith)
        requires
            h >= 0,
            width > 0,
    ;
    assert forall|x: int| #[trigger] slot(h, s.insert(y), width).contains(x) == slot(h, s, width).insert(h * width + y).contains(x) by {
        if x >= 0 && x / width == h {
            lemma_compose(x, width);
        }
    }
    assert(slot(h, s.insert(y), width) =~= slot(h, s, width).insert(h * width + y));
}

} // verus!
