//! Ratios and the exact integer arithmetic that divides an extent among them.
//!
//! A ratio is a non-negative decimal numeral, `num / 10^scale`. To divide an
//! extent `size` among the ratios of a split, every ratio is first brought to
//! the largest scale that occurs, which turns the list into integer weights
//! with the same proportions. Each weight then gets the floor of its
//! proportional share of `size`, and the units lost to flooring are handed
//! out, one each, to the first children in list order.

use vstd::arithmetic::div_mod::{
    lemma_div_is_ordered, lemma_div_of0, lemma_div_pos_is_pos, lemma_fundamental_div_mod,
    lemma_fundamental_div_mod_converse, lemma_mod_pos_bound, lemma_div_multiples_vanish,
};
use vstd::arithmetic::mul::{lemma_mul_inequality, lemma_mul_nonnegative};
use vstd::prelude::*;

verus! {

/// Numerators at or above this bound are rejected by the parser; the bound
/// keeps every scaled weight well inside `u64` range.
pub const RATIO_CAP: u64 = 100_000_000_000_000;

/// Largest number of fraction digits a ratio may carry.
pub const MAX_SCALE: u8 = 5;

/// A non-negative decimal numeral: the value `num / 10^scale`.
///
/// `scale` is the number of fraction digits of the numeral, so `1.5` is
/// `num == 15, scale == 1` and `7` is `num == 7, scale == 0`.
#[derive(Debug, Clone, Copy, PartialEq, Eq, Structural)]
pub struct Ratio {
    pub num: u64,
    pub scale: u8,
}

pub open spec fn ratio_wf(r: Ratio) -> bool {
    r.num < RATIO_CAP && r.scale <= MAX_SCALE
}

impl Ratio {
    /// The ratio with the integer value `n`.
    pub fn from_int(n: u64) -> (r: Ratio)
        requires
            n < RATIO_CAP,
        ensures
            r == (Ratio { num: n, scale: 0u8 }),
    {
        Ratio { num: n, scale: 0 }
    }
}

pub open spec fn pow10(e: nat) -> nat
    decreases e,
{
    if e == 0 {
        1
    } else {
        10 * pow10((e - 1) as nat)
    }
}

pub proof fn lemma_pow10_pos(e: nat)
    ensures
        pow10(e) >= 1,
    decreases e,
{
    if e > 0 {
        lemma_pow10_pos((e - 1) as nat);
    }
}

pub proof fn lemma_pow10_le(a: nat, b: nat)
    requires
        a <= b,
    ensures
        pow10(a) <= pow10(b),
    decreases b,
{
    if a < b {
        lemma_pow10_le(a, (b - 1) as nat);
        lemma_pow10_pos((b - 1) as nat);
    }
}

/// Executable power of ten, for bringing ratios to a common scale.
pub fn pow10_u64(e: u8) -> (r: u64)
    requires
        e <= MAX_SCALE,
    ensures
        r == pow10(e as nat),
{
    proof {
        reveal_with_fuel(pow10, 6);
    }
    if e == 0 {
        1
    } else if e == 1 {
        10
    } else if e == 2 {
        100
    } else if e == 3 {
        1_000
    } else if e == 4 {
        10_000
    } else {
        100_000
    }
}

/// The largest scale among the ratios; 0 when there are none.
pub open spec fn max_scale(rs: Seq<Ratio>) -> int
    decreases rs.len(),
{
    if rs.len() == 0 {
        0
    } else {
        let m = max_scale(rs.drop_last());
        if rs.last().scale as int > m {
            rs.last().scale as int
        } else {
            m
        }
    }
}

pub proof fn lemma_max_scale(rs: Seq<Ratio>)
    requires
        forall|i: int| 0 <= i < rs.len() ==> ratio_wf(#[trigger] rs[i]),
    ensures
        0 <= max_scale(rs) <= MAX_SCALE,
        forall|i: int| 0 <= i < rs.len() ==> #[trigger] rs[i].scale as int <= max_scale(rs),
    decreases rs.len(),
{
    if rs.len() > 0 {
        lemma_max_scale(rs.drop_last());
        assert forall|i: int| 0 <= i < rs.len() implies #[trigger] rs[i].scale as int
            <= max_scale(rs) by {
            if i < rs.len() - 1 {
                assert(rs.drop_last()[i] == rs[i]);
            }
        }
    }
}

/// The integer weight of one ratio once every ratio of its split is brought
/// to the scale `ms`.
pub open spec fn ratio_weight(r: Ratio, ms: int) -> int {
    r.num * pow10((ms - r.scale) as nat)
}

/// The integer weights of a split's ratios, at the split's own largest scale.
/// Weights stand in the same proportion as the ratios themselves.
pub open spec fn weights_of(rs: Seq<Ratio>) -> Seq<int> {
    Seq::new(rs.len(), |i: int| ratio_weight(rs[i], max_scale(rs)))
}

/// Sum of a sequence of integers.
pub open spec fn sum_of(s: Seq<int>) -> int
    decreases s.len(),
{
    if s.len() == 0 {
        0
    } else {
        sum_of(s.drop_last()) + s.last()
    }
}

/// The combined weight of a split's ratios. A split is degenerate exactly
/// when this is zero; the engine requires it to be positive.
pub open spec fn total_weight(rs: Seq<Ratio>) -> int {
    sum_of(weights_of(rs))
}

pub proof fn lemma_sum_nonneg(s: Seq<int>)
    requires
        forall|i: int| 0 <= i < s.len() ==> #[trigger] s[i] >= 0,
    ensures
        sum_of(s) >= 0,
    decreases s.len(),
{
    if s.len() > 0 {
        lemma_sum_nonneg(s.drop_last());
    }
}

pub proof fn lemma_sum_elem_bound(s: Seq<int>, i: int)
    requires
        forall|j: int| 0 <= j < s.len() ==> #[trigger] s[j] >= 0,
        0 <= i < s.len(),
    ensures
        s[i] <= sum_of(s),
    decreases s.len(),
{
    if i == s.len() - 1 {
        lemma_sum_nonneg(s.drop_last());
    } else {
        lemma_sum_elem_bound(s.drop_last(), i);
    }
}

pub proof fn lemma_sum_take_succ(s: Seq<int>, i: int)
    requires
        0 <= i < s.len(),
    ensures
        sum_of(s.take(i + 1)) == sum_of(s.take(i)) + s[i],
{
    assert(s.take(i + 1).drop_last() =~= s.take(i));
}

pub proof fn lemma_sum_take_le(s: Seq<int>, i: int)
    requires
        forall|j: int| 0 <= j < s.len() ==> #[trigger] s[j] >= 0,
        0 <= i <= s.len(),
    ensures
        sum_of(s.take(i)) <= sum_of(s),
    decreases s.len() - i,
{
    if i < s.len() {
        lemma_sum_take_succ(s, i);
        lemma_sum_take_le(s, i + 1);
        assert(s.take(s.len() as int) =~= s);
    } else {
        assert(s.take(i) =~= s);
    }
}

/// The floor of `w / m` of the extent `size`.
pub open spec fn floor_share(size: int, w: int, m: int) -> int {
    size * w / m
}

/// Every child's floored share, floored independently per child.
pub open spec fn shares_of(size: int, ws: Seq<int>, m: int) -> Seq<int> {
    Seq::new(ws.len(), |i: int| floor_share(size, ws[i], m))
}

proof fn lemma_div_add_bounds(a: int, b: int, m: int)
    requires
        m > 0,
        a >= 0,
        b >= 0,
    ensures
        a / m + b / m <= (a + b) / m <= a / m + b / m + 1,
{
    lemma_fundamental_div_mod(a, m);
    lemma_fundamental_div_mod(b, m);
    lemma_mod_pos_bound(a, m);
    lemma_mod_pos_bound(b, m);
    let q = a / m + b / m;
    let r = a % m + b % m;
    assert(a + b == m * q + r) by (nonlinear_arith)
        requires
            a == m * (a / m) + a % m,
            b == m * (b / m) + b % m,
            q == a / m + b / m,
            r == a % m + b % m,
    ;
    if r < m {
        lemma_fundamental_div_mod_converse(a + b, m, q, r);
    } else {
        assert(a + b == m * (q + 1) + (r - m)) by (nonlinear_arith)
            requires
                a + b == m * q + r,
        ;
        lemma_fundamental_div_mod_converse(a + b, m, q + 1, r - m);
    }
}

/// Independent flooring loses less than one unit per child: the floored
/// shares under-sum `size * sum(ws) / m` by less than the number of children.
pub proof fn lemma_shares_sum_bounds(size: int, ws: Seq<int>, m: int)
    requires
        m > 0,
        size >= 0,
        forall|i: int| 0 <= i < ws.len() ==> #[trigger] ws[i] >= 0,
    ensures
        ws.len() > 0 ==> size * sum_of(ws) / m - (ws.len() - 1) <= sum_of(
            shares_of(size, ws, m),
        ),
        sum_of(shares_of(size, ws, m)) <= size * sum_of(ws) / m,
    decreases ws.len(),
{
    if ws.len() == 0 {
        lemma_div_of0(m);
    } else {
        let wd = ws.drop_last();
        lemma_shares_sum_bounds(size, wd, m);
        assert(shares_of(size, ws, m).drop_last() =~= shares_of(size, wd, m));
        let a = size * sum_of(wd);
        let b = size * ws.last();
        lemma_mul_nonnegative(size, ws.last());
        lemma_sum_nonneg(wd);
        lemma_mul_nonnegative(size, sum_of(wd));
        assert(size * sum_of(wd) + size * ws.last() == size * (sum_of(wd) + ws.last()))
            by (nonlinear_arith);
        assert(sum_of(ws) == sum_of(wd) + ws.last());
        assert(a + b == size * sum_of(ws));
        lemma_div_add_bounds(a, b, m);
        let sh = shares_of(size, ws, m);
        assert(sh.last() == b / m);
        assert(sum_of(sh) == sum_of(shares_of(size, wd, m)) + b / m);
        if wd.len() == 0 {
            lemma_div_of0(m);
            assert(sum_of(shares_of(size, wd, m)) == 0);
        }
    }
}

/// The floored shares with the lost remainder handed back: one extra unit to
/// each of the first `size - sum(shares)` children, in list order.
pub open spec fn extents_of(size: int, ws: Seq<int>) -> Seq<int> {
    let sh = shares_of(size, ws, sum_of(ws));
    let rem = size - sum_of(sh);
    Seq::new(ws.len(), |i: int| if i < rem {
        sh[i] + 1
    } else {
        sh[i]
    })
}

/// The remainder that flooring left over.
pub open spec fn rem_of(size: int, ws: Seq<int>) -> int {
    size - sum_of(shares_of(size, ws, sum_of(ws)))
}

proof fn lemma_sum_bump(sh: Seq<int>, rem: int)
    requires
        0 <= rem <= sh.len(),
    ensures
        sum_of(Seq::new(sh.len(), |i: int| if i < rem { sh[i] + 1 } else { sh[i] }))
            == sum_of(sh) + rem,
    decreases sh.len(),
{
    let bumped = Seq::new(sh.len(), |i: int| if i < rem { sh[i] + 1 } else { sh[i] });
    if sh.len() > 0 {
        let sd = sh.drop_last();
        if rem <= sh.len() - 1 {
            lemma_sum_bump(sd, rem);
            assert(bumped.drop_last() =~= Seq::new(sd.len(), |i: int| if i < rem {
                sd[i] + 1
            } else {
                sd[i]
            }));
            assert(bumped.last() == sh.last());
        } else {
            lemma_sum_bump(sd, rem - 1);
            assert(bumped.drop_last() =~= Seq::new(sd.len(), |i: int| if i < rem - 1 {
                sd[i] + 1
            } else {
                sd[i]
            }));
            assert(bumped.last() == sh.last() + 1);
        }
    }
}

/// The heart of the split contract: with a positive total weight the extents
/// are each between 0 and `size`, and they sum to `size` exactly.
pub proof fn lemma_extents(size: int, ws: Seq<int>)
    requires
        sum_of(ws) > 0,
        size >= 0,
        forall|i: int| 0 <= i < ws.len() ==> #[trigger] ws[i] >= 0,
    ensures
        extents_of(size, ws).len() == ws.len(),
        sum_of(extents_of(size, ws)) == size,
        0 <= rem_of(size, ws) < ws.len(),
        forall|i: int|
            0 <= i < ws.len() ==> 0 <= #[trigger] floor_share(size, ws[i], sum_of(ws)) <= size,
        forall|i: int| 0 <= i < ws.len() ==> 0 <= #[trigger] extents_of(size, ws)[i] <= size,
        forall|i: int|
            0 <= i < ws.len() ==> #[trigger] extents_of(size, ws)[i]
                >= floor_share(size, ws[i], sum_of(ws)),
{
    let m = sum_of(ws);
    let sh = shares_of(size, ws, m);
    let rem = size - sum_of(sh);
    if ws.len() == 0 {
        assert(sum_of(ws) == 0);
    }
    lemma_shares_sum_bounds(size, ws, m);
    lemma_div_multiples_vanish(size, m);
    assert(m * size == size * m) by (nonlinear_arith);
    assert(size * m / m == size);
    assert(size - ws.len() < sum_of(sh) <= size);
    lemma_sum_bump(sh, rem);
    assert forall|i: int| 0 <= i < ws.len() implies 0 <= #[trigger] floor_share(size, ws[i], m)
        <= size by {
        lemma_mul_nonnegative(size, ws[i]);
        lemma_div_pos_is_pos(size * ws[i], m);
        lemma_sum_elem_bound(ws, i);
        lemma_mul_inequality(ws[i], m, size);
        assert(ws[i] * size == size * ws[i]) by (nonlinear_arith);
        assert(m * size == size * m) by (nonlinear_arith);
        lemma_div_is_ordered(size * ws[i], size * m, m);
    }
    assert forall|i: int| 0 <= i < ws.len() implies 0 <= #[trigger] extents_of(size, ws)[i]
        <= size by {
        lemma_mul_nonnegative(size, ws[i]);
        lemma_div_pos_is_pos(size * ws[i], m);
        lemma_sum_elem_bound(ws, i);
        lemma_mul_inequality(ws[i], m, size);
        assert(ws[i] * size == size * ws[i]) by (nonlinear_arith);
        assert(m * size == size * m) by (nonlinear_arith);
        lemma_div_is_ordered(size * ws[i], size * m, m);
        assert(sh[i] <= size);
        if i < rem && sh[i] == size {
            assert forall|j: int| 0 <= j < sh.len() implies #[trigger] sh[j] >= 0 by {
                lemma_mul_nonnegative(size, ws[j]);
                lemma_div_pos_is_pos(size * ws[j], m);
            }
            lemma_sum_elem_bound(sh, i);
            assert(false);
        }
    }
}

} // verus!
