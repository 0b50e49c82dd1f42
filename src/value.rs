use vstd::prelude::*;

verus! {

/// The fixed-point unit: a value `v` stands for `v / ONE`.
pub const ONE: i64 = 1_000_000;

/// Integer division rounded toward zero, as Rust's `/` rounds.
pub open spec fn div_toward_zero(a: int, b: int) -> int {
    if a >= 0 {
        a / b
    } else {
        -((-a) / b)
    }
}

/// `a` forced into the range of `i64`.
pub open spec fn clamp_i64(a: int) -> int {
    if a > i64::MAX {
        i64::MAX as int
    } else if a < i64::MIN {
        i64::MIN as int
    } else {
        a
    }
}

/// The weight `discount^depth` in fixed point, each factor rounded down.
pub open spec fn discount_weight(discount: int, depth: nat) -> int
    decreases depth,
{
    if depth == 0 {
        ONE as int
    } else {
        discount_weight(discount, (depth - 1) as nat) * discount / (ONE as int)
    }
}

/// `v` multiplied by the fixed-point weight `w`.
pub open spec fn scaled(v: int, w: int) -> int {
    div_toward_zero(v * w, ONE as int)
}

/// The material heuristic `(white - black) / max(white, black)`, zero when
/// both sides have no material.
pub open spec fn material_balance(white: int, black: int) -> int {
    let top = if white >= black { white } else { black };
    if top == 0 {
        0
    } else {
        div_toward_zero((white - black) * (ONE as int), top)
    }
}

/// The mean of two values, rounded toward zero.
pub open spec fn blended(a: int, b: int) -> int {
    div_toward_zero(a + b, 2)
}

pub proof fn lemma_div_toward_zero_bounds(a: int, b: int)
    requires
        b > 0,
    ensures
        a >= 0 ==> 0 <= div_toward_zero(a, b) <= a,
        a < 0 ==> a <= div_toward_zero(a, b) <= 0,
        div_toward_zero(-a, b) == -div_toward_zero(a, b),
{
    if a >= 0 {
        assert(a / b <= a) by (nonlinear_arith)
            requires a >= 0, b > 0;
        assert(a / b >= 0) by (nonlinear_arith)
            requires a >= 0, b > 0;
    } else {
        assert((-a) / b <= -a) by (nonlinear_arith)
            requires -a > 0, b > 0;
        assert((-a) / b >= 0) by (nonlinear_arith)
            requires -a > 0, b > 0;
    }
    if a == 0 {
        assert(div_toward_zero(-a, b) == 0);
    }
}

/// The weight of every depth lies in `[0, ONE]`.
pub proof fn lemma_discount_weight_bounds(discount: int, depth: nat)
    requires
        0 <= discount <= ONE,
    ensures
        0 <= discount_weight(discount, depth) <= ONE,
    decreases depth,
{
    if depth > 0 {
        let prev = discount_weight(discount, (depth - 1) as nat);
        lemma_discount_weight_bounds(discount, (depth - 1) as nat);
        assert(0 <= prev * discount / (ONE as int) <= ONE) by (nonlinear_arith)
            requires 0 <= prev <= 1_000_000, 0 <= discount <= 1_000_000, ONE == 1_000_000;
    }
}

/// The material heuristic lies in `[-1, 1]` for any non-negative totals.
pub proof fn lemma_material_balance_bounds(white: nat, black: nat)
    ensures
        -ONE <= material_balance(white as int, black as int) <= ONE,
{
    let top: int = if white >= black { white as int } else { black as int };
    let d = white - black;
    if top > 0 {
        if d >= 0 {
            assert(d * ONE / top <= ONE) by (nonlinear_arith)
                requires 0 <= d <= top, top > 0, ONE > 0;
            assert(d * ONE / top >= 0) by (nonlinear_arith)
                requires 0 <= d, top > 0, ONE > 0;
        } else {
            assert((-d) * ONE / top <= ONE) by (nonlinear_arith)
                requires 0 < -d <= top, top > 0, ONE > 0;
            assert((-d) * ONE / top >= 0) by (nonlinear_arith)
                requires 0 < -d, top > 0, ONE > 0;
            assert(-(d * ONE) == (-d) * ONE) by (nonlinear_arith);
        }
    }
}

/// Division rounded toward zero of a 128-bit numerator by a positive divisor.
fn div_round_to_zero(a: i128, b: i128) -> (r: i128)
    requires
        b > 0,
        a > i128::MIN,
    ensures
        r == div_toward_zero(a as int, b as int),
{
    if a >= 0 {
        let q: u128 = (a as u128) / (b as u128);
        proof {
            lemma_div_toward_zero_bounds(a as int, b as int);
        }
        q as i128
    } else {
        let q: u128 = ((-a) as u128) / (b as u128);
        proof {
            lemma_div_toward_zero_bounds(a as int, b as int);
        }
        -(q as i128)
    }
}

/// The weight `discount^depth` applied to values found `depth` plies ahead.
pub fn discount_power(discount: i64, depth: u32) -> (r: i64)
    requires
        0 <= discount <= ONE,
    ensures
        r == discount_weight(discount as int, depth as nat),
        0 <= r <= ONE,
{
    let mut w: i64 = ONE;
    let mut i: u32 = 0;
    while i < depth
        invariant
            0 <= discount <= ONE,
            i <= depth,
            w == discount_weight(discount as int, i as nat),
        decreases depth - i,
    {
        proof {
            lemma_discount_weight_bounds(discount as int, i as nat);
        }
        assert(0 <= w * discount <= ONE * ONE) by (nonlinear_arith)
            requires 0 <= w <= ONE, 0 <= discount <= ONE;
        w = w * discount / ONE;
        i = i + 1;
    }
    proof {
        lemma_discount_weight_bounds(discount as int, depth as nat);
    }
    w
}

/// `v` multiplied by a weight in `[0, ONE]`.
pub fn scale(v: i64, w: i64) -> (r: i64)
    requires
        0 <= w <= ONE,
    ensures
        r == scaled(v as int, w as int),
{
    assert(i64::MIN * ONE <= v * w <= i64::MAX * ONE) by (nonlinear_arith)
        requires 0 <= w <= ONE, i64::MIN <= v <= i64::MAX;
    let p: i128 = (v as i128) * (w as i128);
    let q = div_round_to_zero(p, ONE as i128);
    proof {
        lemma_div_toward_zero_bounds(p as int, ONE as int);
        if p >= 0 {
            assert((p as int) / (ONE as int) <= i64::MAX) by (nonlinear_arith)
                requires 0 <= p <= i64::MAX * ONE, ONE > 0;
        } else {
            assert((-(p as int)) / (ONE as int) <= i64::MAX + 1) by (nonlinear_arith)
                requires 0 < -p <= (i64::MAX + 1) * ONE, ONE > 0;
        }
    }
    q as i64
}

/// The material heuristic for the given point totals.
pub fn material_value(white: u32, black: u32) -> (r: i64)
    ensures
        r == material_balance(white as int, black as int),
        -ONE <= r <= ONE,
{
    let top: u32 = if white >= black { white } else { black };
    if top == 0 {
        return 0;
    }
    let diff: i128 = (white as i128) - (black as i128);
    let num: i128 = diff * (ONE as i128);
    let q = div_round_to_zero(num, top as i128);
    proof {
        let d = white as int - black as int;
        assert(-(top as int) <= d <= top as int);
        if d >= 0 {
            assert(d * ONE / (top as int) <= ONE) by (nonlinear_arith)
                requires 0 <= d <= top, top > 0, ONE > 0;
            assert(d * ONE / (top as int) >= 0) by (nonlinear_arith)
                requires 0 <= d, top > 0, ONE > 0;
        } else {
            assert((-d) * ONE / (top as int) <= ONE) by (nonlinear_arith)
                requires 0 < -d <= top, top > 0, ONE > 0;
            assert((-d) * ONE / (top as int) >= 0) by (nonlinear_arith)
                requires 0 < -d, top > 0, ONE > 0;
            assert(-(d * ONE) == (-d) * ONE) by (nonlinear_arith);
        }
    }
    q as i64
}

/// The mean of two values, rounded toward zero.
pub fn blend(a: i64, b: i64) -> (r: i64)
    ensures
        r == blended(a as int, b as int),
{
    let s: i128 = (a as i128) + (b as i128);
    let q = div_round_to_zero(s, 2);
    proof {
        lemma_div_toward_zero_bounds(s as int, 2);
    }
    q as i64
}

} // verus!
