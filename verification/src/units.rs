//! Fixed-point amounts: scale, rounding and saturation.

use vstd::prelude::*;
use vstd::arithmetic::div_mod::{lemma_fundamental_div_mod, lemma_fundamental_div_mod_converse};

verus! {

/// One, in millionths.
pub const SCALE: i64 = 1_000_000;

/// `x`, held at the ends of the range of `i64`.
pub open spec fn held(x: int) -> int {
    if x < i64::MIN {
        i64::MIN as int
    } else if x > i64::MAX {
        i64::MAX as int
    } else {
        x
    }
}

/// The larger of two integers.
pub open spec fn larger(a: int, b: int) -> int {
    if a >= b { a } else { b }
}

/// The smaller of two integers.
pub open spec fn smaller(a: int, b: int) -> int {
    if a <= b { a } else { b }
}

/// The distance of `a` from zero.
pub open spec fn magnitude(a: int) -> int {
    if a < 0 { -a } else { a }
}

/// The real quotient `a / b`, rounded down. Meaningful for `b != 0`.
pub open spec fn quotient(a: int, b: int) -> int {
    if b > 0 { a / b } else { (-a) / (-b) }
}

/// The product of two amounts, in millionths, rounded down.
pub open spec fn product(a: int, b: int) -> int {
    (a * b) / (SCALE as int)
}

/// The sum of a sequence of amounts.
pub open spec fn total(s: Seq<i64>) -> int
    decreases s.len(),
{
    if s.len() == 0 { 0 } else { total(s.drop_last()) + s.last() }
}

/// Sums stay within the number of terms times the range of one term.
pub proof fn lemma_total_bounds(s: Seq<i64>)
    ensures
        s.len() * i64::MIN <= total(s) <= s.len() * i64::MAX,
    decreases s.len(),
{
    if s.len() > 0 {
        lemma_total_bounds(s.drop_last());
        let n: int = s.len() as int;
        assert(n * i64::MIN == (n - 1) * i64::MIN + i64::MIN) by (nonlinear_arith);
        assert(n * i64::MAX == (n - 1) * i64::MAX + i64::MAX) by (nonlinear_arith);
    }
}

/// The sum of a longer prefix is that of the shorter one and the next term.
pub proof fn lemma_total_step(s: Seq<i64>, k: int)
    requires
        0 <= k < s.len(),
    ensures
        total(s.take(k + 1)) == total(s.take(k)) + s[k],
{
    assert(s.take(k + 1).drop_last() =~= s.take(k));
}

/// A product of two factors within bounds is within the product of the bounds.
pub proof fn lemma_mul_bound(a: int, b: int, x: int, y: int)
    by (nonlinear_arith)
    requires
        -x <= a <= x,
        -y <= b <= y,
    ensures
        -(x * y) <= a * b <= x * y,
{
}

/// Rounding down a quotient by a positive divisor keeps bounds that are
/// multiples of it.
pub proof fn lemma_div_bound(a: int, d: int, lo: int, hi: int)
    requires
        d > 0,
        lo * d <= a <= hi * d,
    ensures
        lo <= a / d <= hi,
{
    lemma_fundamental_div_mod(a, d);
    let q: int = a / d;
    let r: int = a % d;
    assert(lo <= q) by (nonlinear_arith)
        requires
            lo * d <= a,
            a == d * q + r,
            0 <= r < d,
            d > 0,
    ;
    assert(q <= hi) by (nonlinear_arith)
        requires
            a <= hi * d,
            a == d * q + r,
            0 <= r,
            d > 0,
    ;
}

/// Holds `x` at the ends of the range of `i64`.
pub fn hold(x: i128) -> (r: i64)
    ensures
        r == held(x as int),
{
    if x < i64::MIN as i128 {
        i64::MIN
    } else if x > i64::MAX as i128 {
        i64::MAX
    } else {
        x as i64
    }
}

/// The quotient by a positive divisor, rounded down.
pub fn div_down(a: i128, d: i128) -> (r: i128)
    requires
        d > 0,
    ensures
        r == a as int / d as int,
{
    if a >= 0 {
        a / d
    } else {
        let b: i128 = -(a + 1);
        let q: i128 = b / d;
        proof {
            lemma_fundamental_div_mod(b as int, d as int);
            let rest: int = b as int % d as int;
            assert(a as int == (-q - 1) * d + (d - 1 - rest)) by (nonlinear_arith)
                requires
                    b == -(a + 1),
                    b == d * q + rest,
            ;
            lemma_fundamental_div_mod_converse(a as int, d as int, -q - 1, d - 1 - rest);
            assert(q <= b) by (nonlinear_arith)
                requires
                    b == d * q + rest,
                    rest >= 0,
                    d >= 1,
                    q >= 0,
            ;
        }
        -q - 1
    }
}

/// The real quotient of `a` by a divisor other than zero, rounded down.
pub fn divide(a: i128, d: i128) -> (r: i128)
    requires
        d != 0,
        a > i128::MIN,
        d > i128::MIN,
    ensures
        r == quotient(a as int, d as int),
{
    if d > 0 {
        div_down(a, d)
    } else {
        div_down(-a, -d)
    }
}

/// The product of two amounts, rounded down.
pub fn multiply(a: i64, b: i64) -> (r: i128)
    ensures
        r == product(a as int, b as int),
        -0x800_0000_0000_0000_0000_0000_0000 <= r <= 0x800_0000_0000_0000_0000_0000_0000,
{
    proof {
        lemma_mul_bound(a as int, b as int, 0x8000_0000_0000_0000, 0x8000_0000_0000_0000);
        lemma_div_bound(
            a * b,
            SCALE as int,
            -0x800_0000_0000_0000_0000_0000_0000,
            0x800_0000_0000_0000_0000_0000_0000,
        );
    }
    div_down(a as i128 * b as i128, SCALE as i128)
}

/// The sum of a slice of amounts.
pub fn sum(values: &[i64]) -> (r: i128)
    ensures
        r == total(values@),
{
    let mut acc: i128 = 0;
    let mut i: usize = 0;
    while i < values.len()
        invariant
            i <= values.len(),
            acc == total(values@.take(i as int)),
        decreases values.len() - i,
    {
        proof {
            lemma_total_bounds(values@.take(i as int));
            lemma_total_step(values@, i as int);
            lemma_sum_fits(i as int);
        }
        acc = acc + values[i] as i128;
        i = i + 1;
    }
    assert(values@.take(i as int) =~= values@);
    acc
}

/// No slice is long enough for a sum of amounts to leave the range of `i128`.
pub proof fn lemma_sum_fits(n: int)
    requires
        0 <= n < usize::MAX,
    ensures
        i128::MIN <= n * i64::MIN + i64::MIN,
        n * i64::MAX + i64::MAX <= i128::MAX,
{
    assert((n + 1) * 0x8000_0000_0000_0000 <= 0x1_0000_0000_0000_0000 * 0x8000_0000_0000_0000)
        by (nonlinear_arith)
        requires
            n + 1 <= 0x1_0000_0000_0000_0000,
    ;
}

/// The whole square root of `x`: the largest integer whose square does not
/// exceed it.
pub fn square_root(x: u128) -> (r: u64)
    ensures
        r * r <= x < (r + 1) * (r + 1),
{
    // Invariant: lo * lo <= x < hi * hi.
    let mut lo: u128 = 0;
    let mut hi: u128 = 0x1_0000_0000_0000_0000;
    while hi - lo > 1
        invariant
            0 <= lo < hi <= 0x1_0000_0000_0000_0000,
            lo * lo <= x < hi * hi,
        decreases hi - lo,
    {
        let mid: u128 = lo + (hi - lo) / 2;
        proof {
            assert(mid * mid <= 0xFFFF_FFFF_FFFF_FFFF * 0xFFFF_FFFF_FFFF_FFFF) by (nonlinear_arith)
                requires
                    0 <= mid <= 0xFFFF_FFFF_FFFF_FFFF,
            ;
        }
        if mid * mid <= x {
            lo = mid;
        } else {
            hi = mid;
        }
    }
    assert(hi == lo + 1);
    lo as u64
}

/// One more, held at the range of the counter.
pub fn counted(n: u64) -> (r: u64)
    ensures
        r == smaller(n + 1, u64::MAX as int),
{
    if n < u64::MAX {
        n + 1
    } else {
        n
    }
}

/// The product of two integers, as a multiple of two to the power 64 and a rest
/// below it.
fn wide_product(a: i128, b: u64) -> (r: (i128, u64))
    ensures
        r.0 * 0x1_0000_0000_0000_0000 + r.1 == a * b,
{
    let base: i128 = 0x1_0000_0000_0000_0000;
    let high: i128 = div_down(a, base);
    proof {
        lemma_fundamental_div_mod(a as int, base as int);
        lemma_div_bound(
            a as int,
            base as int,
            -0x8000_0000_0000_0000,
            0x8000_0000_0000_0000,
        );
        lemma_mul_bound(high as int, b as int, 0x8000_0000_0000_0000, 0xFFFF_FFFF_FFFF_FFFF);
        assert(high * b <= 0x7FFF_FFFF_FFFF_FFFF * 0xFFFF_FFFF_FFFF_FFFF) by (nonlinear_arith)
            requires
                high <= 0x7FFF_FFFF_FFFF_FFFF,
                0 <= b <= 0xFFFF_FFFF_FFFF_FFFF,
        ;
    }
    let low: u64 = (a - high * base) as u64;
    proof {
        assert(0 <= low * b <= 0xFFFF_FFFF_FFFF_FFFF * 0xFFFF_FFFF_FFFF_FFFF) by (nonlinear_arith)
            requires
                0 <= low <= 0xFFFF_FFFF_FFFF_FFFF,
                0 <= b <= 0xFFFF_FFFF_FFFF_FFFF,
        ;
    }
    let part: u128 = low as u128 * b as u128;
    let carry: u128 = part / 0x1_0000_0000_0000_0000;
    let rest: u64 = (part % 0x1_0000_0000_0000_0000) as u64;
    proof {
        assert((high * b + carry) * base + rest == a * b) by (nonlinear_arith)
            requires
                a == high * base + low,
                low * b == carry * base + rest,
        ;
    }
    (high * b as i128 + carry as i128, rest)
}

/// The quotient of a wide integer, given as a multiple of two to the power 64 and a
/// rest below it, by a positive divisor; rounded down and held.
pub fn wide_divide(high: i128, low: u64, d: i64) -> (r: i64)
    requires
        d > 0,
        -0x6000_0000_0000_0000_0000_0000_0000_0000 <= high,
    ensures
        r == held((high * 0x1_0000_0000_0000_0000 + low) / (d as int)),
{
    let base: i128 = 0x1_0000_0000_0000_0000;
    let wide: i128 = d as i128;
    let whole: i128 = div_down(high, wide);
    proof {
        lemma_fundamental_div_mod(high as int, wide as int);
        assert(whole * wide == wide * whole) by (nonlinear_arith);
    }
    let rest: i128 = high - whole * wide;
    let tail: i128 = rest * base + low as i128;
    let part: i128 = tail / wide;
    proof {
        let x: int = high * base + low;
        lemma_fundamental_div_mod(tail as int, wide as int);
        let left: int = tail as int % wide as int;
        assert(x == (whole * base + part) * wide + left) by (nonlinear_arith)
            requires
                x == high * base + low,
                rest == high - whole * wide,
                tail == rest * base + low,
                tail == wide * part + left,
        ;
        lemma_fundamental_div_mod_converse(x, wide as int, whole * base + part, left);
        assert(0 <= part < base) by (nonlinear_arith)
            requires
                tail == wide * part + left,
                0 <= left < wide,
                0 <= tail < wide * base,
                wide > 0,
        ;
    }
    if whole > 0 {
        i64::MAX
    } else if whole < -1 {
        i64::MIN
    } else {
        hold(whole * base + part)
    }
}

/// Whether `a * b <= c * d`, where the products may leave the range of `i128`.
pub fn product_at_most(a: i128, b: i128, c: i128, d: i128) -> (r: bool)
    requires
        a > i128::MIN,
        c > i128::MIN,
        -0x1_0000_0000_0000_0000 < b < 0x1_0000_0000_0000_0000,
        -0x1_0000_0000_0000_0000 < d < 0x1_0000_0000_0000_0000,
    ensures
        r == (a * b <= c * d),
{
    let (x, p): (i128, u64) = if b >= 0 {
        wide_product(a, b as u64)
    } else {
        assert((-a) * (-b) == a * b) by (nonlinear_arith);
        wide_product(-a, (-b) as u64)
    };
    let (y, q): (i128, u64) = if d >= 0 {
        wide_product(c, d as u64)
    } else {
        assert((-c) * (-d) == c * d) by (nonlinear_arith);
        wide_product(-c, (-d) as u64)
    };
    x < y || (x == y && p <= q)
}

/// What is held is in the range of `i64`, is the number itself wherever that is in the
/// range, and else the end that is nearest to it.
pub proof fn law_held(x: int, y: int)
    ensures
        i64::MIN <= held(x) <= i64::MAX,
        i64::MIN <= x <= i64::MAX ==> held(x) == x,
        x <= y ==> held(x) <= held(y),
        x > i64::MAX ==> held(x) == i64::MAX,
        x < i64::MIN ==> held(x) == i64::MIN,
{
}

/// A quotient is rounded down whatever the sign of the divisor, and turning both signs
/// leaves it as it is.
pub proof fn law_quotient(a: int, b: int)
    requires
        b != 0,
    ensures
        b > 0 ==> quotient(a, b) * b <= a < (quotient(a, b) + 1) * b,
        b < 0 ==> (quotient(a, b) + 1) * b < a <= quotient(a, b) * b,
        quotient(-a, -b) == quotient(a, b),
{
    let d: int = magnitude(b);
    let c: int = if b > 0 { a } else { -a };
    lemma_fundamental_div_mod(c, d);
    let q: int = c / d;
    assert(q * d <= c < (q + 1) * d) by (nonlinear_arith)
        requires
            c == d * q + c % d,
            0 <= c % d < d,
    ;
    assert(q * -d == -(q * d) && (q + 1) * -d == -((q + 1) * d)) by (nonlinear_arith);
}

/// A product of amounts, rounded down to a whole millionth; an amount times one is itself.
pub proof fn law_product(a: int, b: int)
    ensures
        product(a, b) * SCALE <= a * b < (product(a, b) + 1) * SCALE,
        product(a, b) == product(b, a),
        product(a, SCALE as int) == a,
{
    lemma_fundamental_div_mod(a * b, SCALE as int);
    assert(a * b == b * a) by (nonlinear_arith);
    lemma_fundamental_div_mod(a * SCALE, SCALE as int);
}

/// The sum of two sequences behind each other is that of both sums; that of one amount is
/// the amount.
pub proof fn law_total(a: Seq<i64>, b: Seq<i64>, x: i64)
    ensures
        total(a + b) == total(a) + total(b),
        total(a.push(x)) == total(a) + x,
        total(seq![x]) == x,
        total(Seq::empty()) == 0,
    decreases b.len(),
{
    assert(a.push(x).drop_last() =~= a);
    reveal_with_fuel(total, 2);
    assert(seq![x].drop_last() =~= Seq::<i64>::empty());
    assert(seq![x].last() == x);
    if b.len() > 0 {
        law_total(a, b.drop_last(), x);
        assert((a + b).drop_last() =~= a + b.drop_last());
    } else {
        assert(a + b =~= a);
    }
}

} // verus!
