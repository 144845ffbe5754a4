//! Order-independent reductions over sequences.
//!
//! The threshold state machines read their ring buffers only through sums
//! and maxima.  These spec functions define those reductions over the
//! chronological contents of a window, and the lemmas let executable code
//! fold over the storage-order copy a window hands out instead: a rotation
//! of a sequence changes neither its sum nor its maximum.

use vstd::prelude::*;

verus! {

/// Sum of a sequence of `i64` values, as a mathematical integer.
pub open spec fn sum_i64(s: Seq<i64>) -> int
    decreases s.len(),
{
    if s.len() == 0 {
        0
    } else {
        sum_i64(s.drop_last()) + s.last()
    }
}

/// Sum of a sequence of `u32` values, as a mathematical integer.
pub open spec fn sum_u32(s: Seq<u32>) -> int
    decreases s.len(),
{
    if s.len() == 0 {
        0
    } else {
        sum_u32(s.drop_last()) + s.last()
    }
}

/// Maximum of a sequence of `i64` values and zero: the fold the F machine
/// uses over its short window, which starts from a zero accumulator.
pub open spec fn max0_i64(s: Seq<i64>) -> int
    decreases s.len(),
{
    if s.len() == 0 {
        0
    } else {
        let rest = max0_i64(s.drop_last());
        if s.last() > rest {
            s.last() as int
        } else {
            rest
        }
    }
}

/// A sequence of machine integers read as mathematical integers.
pub open spec fn seq_to_int(s: Seq<i64>) -> Seq<int> {
    s.map_values(|v: i64| v as int)
}

/// A sequence of unsigned machine integers read as mathematical integers.
pub open spec fn seq_u32_to_int(s: Seq<u32>) -> Seq<int> {
    s.map_values(|v: u32| v as int)
}

/// Reading the entries as mathematical integers preserves the sum.
pub proof fn lemma_sum_u32_to_int(s: Seq<u32>)
    ensures
        sum_int(seq_u32_to_int(s)) == sum_u32(s),
    decreases s.len(),
{
    if s.len() > 0 {
        lemma_sum_u32_to_int(s.drop_last());
        assert(seq_u32_to_int(s).drop_last() =~= seq_u32_to_int(s.drop_last()));
    }
}

/// A sum of bounded entries is bounded by the entry bounds times the length.
pub proof fn lemma_sum_u32_bounds(s: Seq<u32>, hi: int)
    requires
        forall|i: int| 0 <= i < s.len() ==> #[trigger] s[i] <= hi,
    ensures
        0 <= sum_u32(s) <= s.len() * hi,
    decreases s.len(),
{
    if s.len() == 0 {
    } else {
        lemma_sum_u32_bounds(s.drop_last(), hi);
        assert((s.len() - 1) * hi + hi == s.len() * hi) by (nonlinear_arith);
    }
}

/// Sum of a sequence of mathematical integers.
pub open spec fn sum_int(s: Seq<int>) -> int
    decreases s.len(),
{
    if s.len() == 0 {
        0
    } else {
        sum_int(s.drop_last()) + s.last()
    }
}

/// Maximum of a sequence of mathematical integers and zero.
pub open spec fn max0_int(s: Seq<int>) -> int
    decreases s.len(),
{
    if s.len() == 0 {
        0
    } else {
        let rest = max0_int(s.drop_last());
        if s.last() > rest {
            s.last()
        } else {
            rest
        }
    }
}

/// Reading the entries as mathematical integers preserves the sum.
pub proof fn lemma_sum_to_int(s: Seq<i64>)
    ensures
        sum_int(seq_to_int(s)) == sum_i64(s),
    decreases s.len(),
{
    if s.len() > 0 {
        lemma_sum_to_int(s.drop_last());
        assert(seq_to_int(s).drop_last() =~= seq_to_int(s.drop_last()));
    }
}

/// Reading the entries as mathematical integers preserves the maximum.
pub proof fn lemma_max0_to_int(s: Seq<i64>)
    ensures
        max0_int(seq_to_int(s)) == max0_i64(s),
    decreases s.len(),
{
    if s.len() > 0 {
        lemma_max0_to_int(s.drop_last());
        assert(seq_to_int(s).drop_last() =~= seq_to_int(s.drop_last()));
    }
}

/// A sum of bounded entries is bounded by the entry bounds times the length.
pub proof fn lemma_sum_int_bounds(s: Seq<int>, lo: int, hi: int)
    requires
        forall|i: int| 0 <= i < s.len() ==> lo <= #[trigger] s[i] <= hi,
    ensures
        s.len() * lo <= sum_int(s) <= s.len() * hi,
    decreases s.len(),
{
    if s.len() == 0 {
    } else {
        lemma_sum_int_bounds(s.drop_last(), lo, hi);
        assert((s.len() - 1) * lo + lo == s.len() * lo) by (nonlinear_arith);
        assert((s.len() - 1) * hi + hi == s.len() * hi) by (nonlinear_arith);
    }
}

pub proof fn lemma_sum_int_concat(a: Seq<int>, b: Seq<int>)
    ensures
        sum_int(a + b) == sum_int(a) + sum_int(b),
    decreases b.len(),
{
    if b.len() == 0 {
        assert(a + b =~= a);
    } else {
        lemma_sum_int_concat(a, b.drop_last());
        assert((a + b).drop_last() =~= a + b.drop_last());
    }
}

/// A push into a full ring replaces the oldest entry in the sum.
pub proof fn lemma_sum_int_ring(s: Seq<int>, v: int)
    requires
        s.len() >= 1,
    ensures
        sum_int(s.drop_first().push(v)) == sum_int(s) - s[0] + v,
{
    let rest = s.drop_first();
    let single = seq![s[0]];
    assert(s =~= single + rest);
    lemma_sum_int_concat(single, rest);
    assert(single.drop_last() =~= Seq::<int>::empty());
    assert(sum_int(single) == sum_int(single.drop_last()) + single.last());
    assert(sum_int(single) == s[0]);
    assert(rest.push(v).drop_last() =~= rest);
    assert(sum_int(rest.push(v)) == sum_int(rest) + v);
}

/// The zero-floored maximum lies between zero and any bound on the entries.
pub proof fn lemma_max0_int_bounds(s: Seq<int>, hi: int)
    requires
        forall|i: int| 0 <= i < s.len() ==> #[trigger] s[i] <= hi,
        hi >= 0,
    ensures
        0 <= max0_int(s) <= hi,
    decreases s.len(),
{
    if s.len() > 0 {
        lemma_max0_int_bounds(s.drop_last(), hi);
    }
}

/// The zero-floored maximum of a non-empty constant sequence.
pub proof fn lemma_max0_int_constant(s: Seq<int>, c: int)
    requires
        s.len() >= 1,
        forall|i: int| 0 <= i < s.len() ==> #[trigger] s[i] == c,
    ensures
        max0_int(s) == if c > 0 {
            c
        } else {
            0
        },
    decreases s.len(),
{
    assert(s[s.len() - 1] == c);
    assert(s.last() == s[s.len() - 1]);
    if s.len() > 1 {
        assert(forall|i: int|
            0 <= i < s.drop_last().len() ==> #[trigger] s.drop_last()[i] == s[i]);
        lemma_max0_int_constant(s.drop_last(), c);
        assert(max0_int(s.drop_last()) == if c > 0 {
            c
        } else {
            0
        });
        assert(max0_int(s) == if s.last() > max0_int(s.drop_last()) {
            s.last()
        } else {
            max0_int(s.drop_last())
        });
    } else {
        assert(s.drop_last() =~= Seq::<int>::empty());
        assert(max0_int(s.drop_last()) == 0);
        assert(max0_int(s) == if s.last() > 0 {
            s.last()
        } else {
            0
        });
    }
}

/// Floor division distributes super-additively over a sum: rounding two
/// parts down separately loses at least as much as rounding their sum.
pub proof fn lemma_div_sum_ge(a: int, b: int, d: int)
    requires
        d >= 1,
    ensures
        a / d + b / d <= (a + b) / d,
{
    let qa = a / d;
    let qb = b / d;
    let ra = a % d;
    let rb = b % d;
    vstd::arithmetic::div_mod::lemma_fundamental_div_mod(a, d);
    vstd::arithmetic::div_mod::lemma_fundamental_div_mod(b, d);
    vstd::arithmetic::div_mod::lemma_mod_division_less_than_divisor(a, d);
    vstd::arithmetic::div_mod::lemma_mod_division_less_than_divisor(b, d);
    assert(d * qa + d * qb == (qa + qb) * d) by (nonlinear_arith);
    if ra + rb < d {
        vstd::arithmetic::div_mod::lemma_fundamental_div_mod_converse_div(
            a + b,
            d,
            qa + qb,
            ra + rb,
        );
    } else {
        assert((qa + qb + 1) * d == (qa + qb) * d + d) by (nonlinear_arith);
        vstd::arithmetic::div_mod::lemma_fundamental_div_mod_converse_div(
            a + b,
            d,
            qa + qb + 1,
            ra + rb - d,
        );
    }
}

pub proof fn lemma_sum_i64_concat(a: Seq<i64>, b: Seq<i64>)
    ensures
        sum_i64(a + b) == sum_i64(a) + sum_i64(b),
    decreases b.len(),
{
    if b.len() == 0 {
        assert(a + b =~= a);
    } else {
        lemma_sum_i64_concat(a, b.drop_last());
        assert((a + b).drop_last() =~= a + b.drop_last());
    }
}

pub proof fn lemma_sum_u32_concat(a: Seq<u32>, b: Seq<u32>)
    ensures
        sum_u32(a + b) == sum_u32(a) + sum_u32(b),
    decreases b.len(),
{
    if b.len() == 0 {
        assert(a + b =~= a);
    } else {
        lemma_sum_u32_concat(a, b.drop_last());
        assert((a + b).drop_last() =~= a + b.drop_last());
    }
}

pub proof fn lemma_max0_i64_concat(a: Seq<i64>, b: Seq<i64>)
    ensures
        max0_i64(a + b) == if max0_i64(a) > max0_i64(b) {
            max0_i64(a)
        } else {
            max0_i64(b)
        },
    decreases b.len(),
{
    if b.len() == 0 {
        lemma_max0_i64_nonneg(a);
        assert(a + b =~= a);
    } else {
        lemma_max0_i64_concat(a, b.drop_last());
        assert((a + b).drop_last() =~= a + b.drop_last());
    }
}

/// Rotating a sequence does not change its sum.
pub proof fn lemma_sum_i64_rotation(s: Seq<i64>, k: int)
    requires
        0 <= k <= s.len(),
    ensures
        sum_i64(s.subrange(k, s.len() as int) + s.subrange(0, k)) == sum_i64(s),
{
    lemma_sum_i64_concat(s.subrange(k, s.len() as int), s.subrange(0, k));
    lemma_sum_i64_concat(s.subrange(0, k), s.subrange(k, s.len() as int));
    assert(s.subrange(0, k) + s.subrange(k, s.len() as int) =~= s);
}

/// Rotating a sequence does not change its sum.
pub proof fn lemma_sum_u32_rotation(s: Seq<u32>, k: int)
    requires
        0 <= k <= s.len(),
    ensures
        sum_u32(s.subrange(k, s.len() as int) + s.subrange(0, k)) == sum_u32(s),
{
    lemma_sum_u32_concat(s.subrange(k, s.len() as int), s.subrange(0, k));
    lemma_sum_u32_concat(s.subrange(0, k), s.subrange(k, s.len() as int));
    assert(s.subrange(0, k) + s.subrange(k, s.len() as int) =~= s);
}

/// Rotating a sequence does not change its maximum.
pub proof fn lemma_max0_i64_rotation(s: Seq<i64>, k: int)
    requires
        0 <= k <= s.len(),
    ensures
        max0_i64(s.subrange(k, s.len() as int) + s.subrange(0, k)) == max0_i64(s),
{
    lemma_max0_i64_concat(s.subrange(k, s.len() as int), s.subrange(0, k));
    lemma_max0_i64_concat(s.subrange(0, k), s.subrange(k, s.len() as int));
    assert(s.subrange(0, k) + s.subrange(k, s.len() as int) =~= s);
}

/// A sum of bounded entries is bounded by the entry bounds times the length.
pub proof fn lemma_sum_i64_bounds(s: Seq<i64>, lo: int, hi: int)
    requires
        forall|i: int| 0 <= i < s.len() ==> lo <= #[trigger] s[i] <= hi,
    ensures
        s.len() * lo <= sum_i64(s) <= s.len() * hi,
    decreases s.len(),
{
    if s.len() == 0 {
    } else {
        lemma_sum_i64_bounds(s.drop_last(), lo, hi);
        assert((s.len() - 1) * lo + lo == s.len() * lo) by (nonlinear_arith);
        assert((s.len() - 1) * hi + hi == s.len() * hi) by (nonlinear_arith);
    }
}

/// The zero-floored maximum lies between zero and any bound on the entries.
pub proof fn lemma_max0_i64_bounds(s: Seq<i64>, hi: int)
    requires
        forall|i: int| 0 <= i < s.len() ==> #[trigger] s[i] <= hi,
        hi >= 0,
    ensures
        0 <= max0_i64(s) <= hi,
    decreases s.len(),
{
    if s.len() == 0 {
    } else {
        lemma_max0_i64_bounds(s.drop_last(), hi);
    }
}

pub proof fn lemma_max0_i64_nonneg(s: Seq<i64>)
    ensures
        max0_i64(s) >= 0,
    decreases s.len(),
{
    if s.len() > 0 {
        lemma_max0_i64_nonneg(s.drop_last());
    }
}

} // verus!
