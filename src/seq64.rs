use vstd::prelude::*;

use crate::bits::{
    apply_op, below, is_select, is_select0, keep_spec, lemma_bit_clear, lemma_bit_ops,
    lemma_bit_set, lemma_bit_zero, lemma_rank_empty_interval, lemma_rank_full, lemma_rank_step,
    lemma_rank_zero, lemma_seq_set_push, lemma_within_len, rank0_of, rank_of, seq_set, sorted_strict, within, word_bit, SetOp, BLOCK_CAPACITY,
};

verus! {

broadcast use vstd::set::group_set_axioms, vstd::set_lib::group_set_properties;

/// Number of words of a dense block.
pub const SEQ64_WORDS: usize = 1024;

/// The positions whose bit is set in a sequence of words.
pub open spec fn bits_view(v: Seq<u64>) -> Set<int> {
    Set::new(|x: int| 0 <= x < 64 * v.len() && word_bit(v[x / 64], (x % 64) as u64))
}

pub proof fn lemma_pos(q: int, b: int)
    requires
        0 <= b < 64,
    ensures
        (64 * q + b) / 64 == q,
        (64 * q + b) % 64 == b,
{
    assert((64 * q + b) / 64 == q && (64 * q + b) % 64 == b) by (nonlinear_arith)
        requires
            0 <= b < 64,
    ;
}

pub proof fn lemma_bits_view_within(v: Seq<u64>)
    requires
        v.len() == SEQ64_WORDS,
    ensures
        within(bits_view(v), BLOCK_CAPACITY as int),
{
    vstd::set_lib::lemma_int_range(0, BLOCK_CAPACITY as int);
    assert(bits_view(v).subset_of(vstd::set_lib::set_int_range(0, BLOCK_CAPACITY as int)));
    vstd::set_lib::lemma_len_subset(
        bits_view(v),
        vstd::set_lib::set_int_range(0, BLOCK_CAPACITY as int),
    );
}

/// Counts the set bits of word `q` below bit `upto`.
fn word_rank(v: &Vec<u64>, q: usize, upto: u64) -> (r: u32)
    requires
        v@.len() == SEQ64_WORDS,
        q < SEQ64_WORDS,
        upto <= 64,
    ensures
        r as int + rank_of(bits_view(v@), 64 * q) == rank_of(bits_view(v@), 64 * q + upto),
        r <= upto,
{
    let ghost s = bits_view(v@);
    proof {
        lemma_bits_view_within(v@);
    }
    let w = v[q];
    if w == 0 {
        proof {
            assert forall|x: int| 64 * q <= x < 64 * q + upto implies !s.contains(x) by {
                lemma_pos(q as int, x - 64 * q);
                lemma_bit_zero((x - 64 * q) as u64);
            }
            lemma_rank_empty_interval(s, 64 * q, 64 * q + upto);
        }
        return 0;
    }
    let mut c: u32 = 0;
    let mut b: u64 = 0;
    while b < upto
        invariant
            s == bits_view(v@),
            within(s, BLOCK_CAPACITY as int),
            v@.len() == SEQ64_WORDS,
            q < SEQ64_WORDS,
            w == v@[q as int],
            b <= upto <= 64,
            c <= b,
            c as int + rank_of(s, 64 * q) == rank_of(s, 64 * q + b),
        decreases upto - b,
    {
        proof {
            lemma_pos(q as int, b as int);
            lemma_rank_step(s, 64 * q + b);
        }
        if (w >> b) & 1 == 1 {
            c = c + 1;
        }
        b = b + 1;
    }
    c
}

/// Counts the set bits below position `n`.
fn count_below(v: &Vec<u64>, n: u32) -> (r: u32)
    requires
        v@.len() == SEQ64_WORDS,
        n <= BLOCK_CAPACITY,
    ensures
        r == rank_of(bits_view(v@), n as int),
{
    let ghost s = bits_view(v@);
    proof {
        lemma_bits_view_within(v@);
        lemma_rank_zero(s, BLOCK_CAPACITY as int);
    }
    let qn = (n / 64) as usize;
    let mut q: usize = 0;
    let mut c: u32 = 0;
    while q < qn
        invariant
            s == bits_view(v@),
            within(s, BLOCK_CAPACITY as int),
            v@.len() == SEQ64_WORDS,
            q <= qn,
            qn == n / 64,
            n <= BLOCK_CAPACITY,
            c <= 64 * q,
            c == rank_of(s, 64 * q),
        decreases qn - q,
    {
        let wr = word_rank(v, q, 64);
        c = c + wr;
        q = q + 1;
    }
    if q < SEQ64_WORDS {
        let wr = word_rank(v, q, (n % 64) as u64);
        c = c + wr;
    }
    c
}

/// A block stored as a dense array of 1024 words, one bit per position.
#[derive(Clone, Debug)]
pub struct Seq64 {
    pub weight: u32,
    pub vector: Vec<u64>,
}

impl Seq64 {
    pub open spec fn wf(&self) -> bool {
        self.vector@.len() == SEQ64_WORDS && self.weight as int == bits_view(self.vector@).len()
    }

    pub open spec fn view(&self) -> Set<int> {
        bits_view(self.vector@)
    }

    pub proof fn lemma_wf(&self)
        requires
            self.wf(),
        ensures
            within(self@, BLOCK_CAPACITY as int),
            self@.len() == self.weight,
            self.weight <= BLOCK_CAPACITY,
    {
        lemma_bits_view_within(self.vector@);
        lemma_within_len(self@, BLOCK_CAPACITY as int);
    }

    pub fn new() -> (r: Seq64)
        ensures
            r.wf(),
            r@ == Set::<int>::empty(),
    {
        let r = Seq64 { weight: 0, vector: vec![0u64; SEQ64_WORDS] };
        proof {
            assert forall|x: int| !r@.contains(x) by {
                if 0 <= x < BLOCK_CAPACITY {
                    lemma_bit_zero((x % 64) as u64);
                }
            }
            assert(r@ =~= Set::<int>::empty());
        }
        r
    }

    pub fn contains(&self, x: u16) -> (r: bool)
        requires
            self.wf(),
        ensures
            r == self@.contains(x as int),
    {
        (self.vector[(x / 64) as usize] >> ((x % 64) as u64)) & 1 == 1
    }

    pub fn insert(&mut self, x: u16) -> (r: bool)
        requires
            old(self).wf(),
        ensures
            final(self).wf(),
            final(self)@ == old(self)@.insert(x as int),
            r == !old(self)@.contains(x as int),
    {
        if self.contains(x) {
            assert(self@ =~= old(self)@.insert(x as int));
            return false;
        }
        proof {
            self.lemma_wf();
            lemma_within_len(self@.insert(x as int), BLOCK_CAPACITY as int);
        }
        let q = (x / 64) as usize;
        let b = (x % 64) as u64;
        let w = self.vector[q];
        self.vector.set(q, w | (1u64 << b));
        self.weight = self.weight + 1;
        proof {
            assert forall|y: int| self@.contains(y) == old(self)@.insert(x as int).contains(y) by {
                if 0 <= y < BLOCK_CAPACITY && y / 64 == q {
                    lemma_bit_set(w, b, (y % 64) as u64);
                }
            }
            assert(self@ =~= old(self)@.insert(x as int));
        }
        true
    }

    pub fn remove(&mut self, x: u16) -> (r: bool)
        requires
            old(self).wf(),
        ensures
            final(self).wf(),
            final(self)@ == old(self)@.remove(x as int),
            r == old(self)@.contains(x as int),
    {
        if !self.contains(x) {
            assert(self@ =~= old(self)@.remove(x as int));
            return false;
        }
        proof {
            self.lemma_wf();
        }
        let q = (x / 64) as usize;
        let b = (x % 64) as u64;
        let w = self.vector[q];
        self.vector.set(q, w & !(1u64 << b));
        self.weight = self.weight - 1;
        proof {
            assert forall|y: int| self@.contains(y) == old(self)@.remove(x as int).contains(y) by {
                if 0 <= y < BLOCK_CAPACITY && y / 64 == q {
                    lemma_bit_clear(w, b, (y % 64) as u64);
                }
            }
            assert(self@ =~= old(self)@.remove(x as int));
        }
        true
    }

    /// Number of set bits strictly below `i`.
    pub fn rank1(&self, i: u16) -> (r: u32)
        requires
            self.wf(),
        ensures
            r == rank_of(self@, i as int),
    {
        count_below(&self.vector, i as u32)
    }

    /// Position of the `(c+1)`-th set bit.
    pub fn select1(&self, c: u32) -> (r: Option<u16>)
        requires
            self.wf(),
        ensures
            match r {
                Some(p) => is_select(self@, c as int, p as int),
                None => c >= self@.len(),
            },
    {
        let ghost s = self@;
        proof {
            self.lemma_wf();
            lemma_rank_zero(s, BLOCK_CAPACITY as int);
        }
        if c >= self.weight {
            return None;
        }
        let mut q: usize = 0;
        let mut acc: u32 = 0;
        while q < SEQ64_WORDS
            invariant
                self.wf(),
                s == self@,
                within(s, BLOCK_CAPACITY as int),
                c < s.len(),
                s.len() <= BLOCK_CAPACITY,
                q <= SEQ64_WORDS,
                acc <= c,
                acc == rank_of(s, 64 * q),
            decreases SEQ64_WORDS - q,
        {
            let wr = word_rank(&self.vector, q, 64);
            if acc + wr > c {
                let w = self.vector[q];
                let mut b: u64 = 0;
                let mut d: u32 = acc;
                while b < 64
                    invariant
                        self.wf(),
                        s == self@,
                        within(s, BLOCK_CAPACITY as int),
                        q < SEQ64_WORDS,
                        w == self.vector@[q as int],
                        b <= 64,
                        d <= c,
                        d == rank_of(s, 64 * q + b),
                        c < rank_of(s, 64 * q + 64),
                    decreases 64 - b,
                {
                    proof {
                        lemma_pos(q as int, b as int);
                        lemma_rank_step(s, 64 * q + b);
                    }
                    if (w >> b) & 1 == 1 {
                        if d == c {
                            return Some((64 * q as u64 + b) as u16);
                        }
                        d = d + 1;
                    }
                    b = b + 1;
                }
                return None;
            }
            acc = acc + wr;
            q = q + 1;
        }
        proof {
            lemma_rank_full(s, BLOCK_CAPACITY as int, 64 * q);
        }
        None
    }

    /// Position of the `(c+1)`-th unset bit.
    pub fn select0(&self, c: u32) -> (r: Option<u16>)
        requires
            self.wf(),
        ensures
            match r {
                Some(p) => is_select0(self@, c as int, p as int),
                None => c >= BLOCK_CAPACITY - self@.len(),
            },
    {
        let ghost s = self@;
        proof {
            self.lemma_wf();
            lemma_rank_zero(s, BLOCK_CAPACITY as int);
        }
        if c >= BLOCK_CAPACITY - self.weight {
            return None;
        }
        let mut q: usize = 0;
        let mut acc: u32 = 0;
        while q < SEQ64_WORDS
            invariant
                self.wf(),
                s == self@,
                within(s, BLOCK_CAPACITY as int),
                c < BLOCK_CAPACITY - s.len(),
                q <= SEQ64_WORDS,
                acc <= c,
                acc == rank0_of(s, 64 * q),
            decreases SEQ64_WORDS - q,
        {
            let wr = 64 - word_rank(&self.vector, q, 64);
            if acc + wr > c {
                let w = self.vector[q];
                let mut b: u64 = 0;
                let mut d: u32 = acc;
                while b < 64
                    invariant
                        self.wf(),
                        s == self@,
                        within(s, BLOCK_CAPACITY as int),
                        q < SEQ64_WORDS,
                        w == self.vector@[q as int],
                        b <= 64,
                        d <= c,
                        d == rank0_of(s, 64 * q + b),
                        c < rank0_of(s, 64 * q + 64),
                    decreases 64 - b,
                {
                    proof {
                        lemma_pos(q as int, b as int);
                        lemma_rank_step(s, 64 * q + b);
                    }
                    if (w >> b) & 1 != 1 {
                        if d == c {
                            return Some((64 * q as u64 + b) as u16);
                        }
                        d = d + 1;
                    }
                    b = b + 1;
                }
                return None;
            }
            acc = acc + wr;
            q = q + 1;
        }
        proof {
            lemma_rank_full(s, BLOCK_CAPACITY as int, 64 * q);
        }
        None
    }

    /// The set positions in ascending order.
    pub fn to_vec(&self) -> (r: Vec<u16>)
        requires
            self.wf(),
        ensures
            sorted_strict(r@),
            seq_set(r@) == self@,
    {
        let ghost s = self@;
        proof {
            self.lemma_wf();
        }
        let mut out: Vec<u16> = Vec::new();
        let mut q: usize = 0;
        while q < SEQ64_WORDS
            invariant
                self.wf(),
                s == self@,
                within(s, BLOCK_CAPACITY as int),
                q <= SEQ64_WORDS,
                sorted_strict(out@),
                forall|k: int| 0 <= k < out@.len() ==> out@[k] < 64 * q,
                seq_set(out@) == below(s, 64 * q),
            decreases SEQ64_WORDS - q,
        {
            let w = self.vector[q];
            let mut b: u64 = 0;
            if w == 0 {
                proof {
                    assert forall|x: int| 64 * q <= x < 64 * q + 64 implies !s.contains(x) by {
                        lemma_pos(q as int, x - 64 * q);
                        lemma_bit_zero((x - 64 * q) as u64);
                    }
                    assert(below(s, 64 * q + 64) =~= below(s, 64 * q));
                }
                b = 64;
            }
            while b < 64
                invariant
                    self.wf(),
                    s == self@,
                    within(s, BLOCK_CAPACITY as int),
                    q < SEQ64_WORDS,
                    w == self.vector@[q as int],
                    b <= 64,
                    sorted_strict(out@),
                    forall|k: int| 0 <= k < out@.len() ==> out@[k] < 64 * q + b,
                    seq_set(out@) == below(s, 64 * q + b),
                decreases 64 - b,
            {
                proof {
                    lemma_pos(q as int, b as int);
                }
                let ghost before = out@;
                if (w >> b) & 1 == 1 {
                    let x = (64 * q as u64 + b) as u16;
                    out.push(x);
                    proof {
                        lemma_seq_set_push(before, x);
                        assert(below(s, 64 * q + b + 1) =~= below(s, 64 * q + b).insert(x as int));
                    }
                } else {
                    assert(below(s, 64 * q + b + 1) =~= below(s, 64 * q + b));
                }
                b = b + 1;
            }
            q = q + 1;
        }
        proof {
            assert(below(s, 64 * q) =~= s);
        }
        out
    }

    /// Builds a dense block that holds the values of `v`.
    pub fn from_values(v: &Vec<u16>) -> (r: Seq64)
        ensures
            r.wf(),
            r@ == seq_set(v@),
    {
        let mut r = Seq64::new();
        let mut i: usize = 0;
        while i < v.len()
            invariant
                r.wf(),
                i <= v@.len(),
                r@ == seq_set(v@.subrange(0, i as int)),
            decreases v@.len() - i,
        {
            r.insert(v[i]);
            proof {
                assert(v@.subrange(0, i + 1) == v@.subrange(0, i as int).push(v@[i as int]));
                lemma_seq_set_push(v@.subrange(0, i as int), v@[i as int]);
            }
            i = i + 1;
        }
        assert(v@.subrange(0, i as int) == v@);
        r
    }

    /// Applies `op` word by word with the words of `other`.
    pub fn pairwise_with(&mut self, other: &Seq64, op: SetOp)
        requires
            old(self).wf(),
            other.wf(),
        ensures
            final(self).wf(),
            final(self)@ == apply_op(op, old(self)@, other@),
    {
        let ghost a = old(self)@;
        let ghost b = other@;
        let mut q: usize = 0;
        while q < SEQ64_WORDS
            invariant
                self.vector@.len() == SEQ64_WORDS,
                other.wf(),
                b == other@,
                a == bits_view(old(self).vector@),
                old(self).vector@.len() == SEQ64_WORDS,
                q <= SEQ64_WORDS,
                forall|j: int| q <= j < SEQ64_WORDS ==> self.vector@[j] == old(self).vector@[j],
                forall|x: int| 0 <= x < 64 * q ==> (bits_view(self.vector@).contains(x) == keep_spec(op, a.contains(x), b.contains(x))),
            decreases SEQ64_WORDS - q,
        {
            let x = self.vector[q];
            let y = other.vector[q];
            let z = match op {
                SetOp::Intersection => x & y,
                SetOp::Union => x | y,
                SetOp::Difference => x & !y,
                SetOp::SymmetricDifference => x ^ y,
            };
            let ghost prev = self.vector@;
            self.vector.set(q, z);
            proof {
                assert forall|p: int| 0 <= p < 64 * (q + 1) implies (bits_view(self.vector@).contains(p) == keep_spec(op, a.contains(p), b.contains(p))) by {
                    if p < 64 * q {
                        assert(p / 64 < q) by (nonlinear_arith)
                            requires
                                0 <= p < 64 * q,
                        ;
                        assert(bits_view(prev).contains(p) == bits_view(self.vector@).contains(p));
                    } else {
                        lemma_pos(q as int, p - 64 * q);
                        lemma_bit_ops(x, y, (p - 64 * q) as u64);
                    }
                }
            }
            q = q + 1;
        }
        let n = count_below(&self.vector, BLOCK_CAPACITY);
        self.weight = n;
        proof {
            lemma_bits_view_within(self.vector@);
            lemma_rank_full(self@, BLOCK_CAPACITY as int, BLOCK_CAPACITY as int);
            assert(self@ =~= apply_op(op, a, b));
        }
    }
}

impl Seq64 {
    /// Applies `op` with the values of a strictly ascending sequence, one bit at a time.
    pub fn apply_values(&mut self, vals: &Vec<u16>, op: SetOp)
        requires
            old(self).wf(),
            sorted_strict(vals@),
        ensures
            final(self).wf(),
            final(self)@ == apply_op(op, old(self)@, seq_set(vals@)),
    {
        if op == SetOp::Intersection {
            let other = Seq64::from_values(vals);
            self.pairwise_with(&other, op);
            return;
        }
        let ghost a = old(self)@;
        let mut i: usize = 0;
        while i < vals.len()
            invariant
                self.wf(),
                op != SetOp::Intersection,
                sorted_strict(vals@),
                i <= vals@.len(),
                forall|x: int| #![auto] self@.contains(x) == (if seq_set(vals@.subrange(0, i as int)).contains(x) {
                    keep_spec(op, a.contains(x), true)
                } else {
                    a.contains(x)
                }),
            decreases vals@.len() - i,
        {
            let x = vals[i];
            let ghost pre = vals@.subrange(0, i as int);
            proof {
                assert(vals@.subrange(0, i + 1) == pre.push(x));
                lemma_seq_set_push(pre, x);
                assert(!seq_set(pre).contains(x as int)) by {
                    if seq_set(pre).contains(x as int) {
                        let j = choose|j: int| 0 <= j < pre.len() && pre[j] as int == x as int;
                        assert(vals@[j] < vals@[i as int]);
                    }
                }
            }
            match op {
                SetOp::Union => {
                    self.insert(x);
                },
                SetOp::Difference => {
                    self.remove(x);
                },
                _ => {
                    if self.contains(x) {
                        self.remove(x);
                    } else {
                        self.insert(x);
                    }
                },
            }
            i = i + 1;
        }
        proof {
            assert(vals@.subrange(0, i as int) == vals@);
            assert(self@ =~= apply_op(op, a, seq_set(vals@)));
        }
    }
}

} // verus!
