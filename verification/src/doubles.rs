//! Doubles as bit patterns: the one nearest to an integer, and how they compare.
use vstd::arithmetic::div_mod::lemma_fundamental_div_mod;
use vstd::arithmetic::power2::lemma2_to64;
use vstd::arithmetic::power2::lemma2_to64_rest;
use vstd::arithmetic::power2::lemma_pow2_adds;
use vstd::arithmetic::power2::lemma_pow2_pos;
use vstd::arithmetic::power2::lemma_pow2_strictly_increases;
use vstd::arithmetic::power2::lemma_pow2_unfold;
use vstd::arithmetic::power2::pow2;
use vstd::prelude::*;

verus! {

/// The place of the highest bit of an integer.
pub open spec fn top_bit(n: nat) -> nat
    decreases n,
{
    if n < 2 {
        0
    } else {
        1 + top_bit(n / 2)
    }
}

/// The integer nearest to `n / d`; of two that are equally near, the even one.
pub open spec fn rounded(n: nat, d: nat) -> nat {
    let below = n / d;
    let past = n % d;
    if 2 * past < d || (2 * past == d && below % 2 == 0) {
        below
    } else {
        below + 1
    }
}

/// The 53 leading bits of a positive integer whose highest bit is at that place, rounded where it
/// has more.
pub open spec fn significand(n: nat, top: nat) -> nat {
    if top <= 52 {
        n * pow2((52 - top) as nat)
    } else {
        rounded(n, pow2((top - 52) as nat))
    }
}

/// The bit pattern of the double nearest to a non-negative integer; of two that are equally near,
/// that whose last bit is zero.
pub open spec fn nearest_double(n: nat) -> nat {
    if n == 0 {
        0
    } else {
        (top_bit(n) + 1022) * pow2(52) + significand(n, top_bit(n))
    }
}

/// The bit pattern of the double nearest to an integer.
pub open spec fn double_of_integer(n: int) -> nat {
    if n < 0 {
        0x8000_0000_0000_0000 + nearest_double((-n) as nat)
    } else {
        nearest_double(n as nat)
    }
}

/// `serde_json::Number::as_f64` on a `u64` converts it to the nearest double.
#[verifier::external_body]
pub(crate) fn double_from_unsigned(n: u64) -> (r: u64)
    ensures
        r == double_of_integer(n as int),
{
    serde_json::Number::from(n).as_f64().unwrap_or_default().to_bits()
}

/// `serde_json::Number::as_f64` on an `i64` converts it to the nearest double.
#[verifier::external_body]
pub(crate) fn double_from_signed(n: i64) -> (r: u64)
    ensures
        r == double_of_integer(n as int),
{
    serde_json::Number::from(n).as_f64().unwrap_or_default().to_bits()
}

/// A number by which doubles other than NaN compare: that of `a` is less than that of `b` if
/// and only if `a < b`, and both zeros have the same.
pub open spec fn double_rank(bits: u64) -> int {
    if bits < 0x8000_0000_0000_0000 {
        bits as int
    } else {
        0x8000_0000_0000_0000 - bits
    }
}

/// A number by which doubles stand in their total order, in which the negative zero comes
/// before the positive zero.
pub open spec fn double_total_rank(bits: u64) -> int {
    if bits < 0x8000_0000_0000_0000 {
        bits as int
    } else {
        0x8000_0000_0000_0000 - bits - 1
    }
}

/// [`double_rank`], computed.
pub fn rank_of_double(bits: u64) -> (r: i64)
    ensures
        r == double_rank(bits),
{
    if bits < 0x8000_0000_0000_0000 {
        bits as i64
    } else {
        -((bits - 0x8000_0000_0000_0000) as i64)
    }
}

/// [`double_total_rank`], computed.
pub fn total_rank_of_double(bits: u64) -> (r: i64)
    ensures
        r == double_total_rank(bits),
{
    if bits < 0x8000_0000_0000_0000 {
        bits as i64
    } else {
        -((bits - 0x8000_0000_0000_0000) as i64) - 1
    }
}

/// The greatest integer up to which doubles hold every integer.
pub const GREATEST_EXACT: u64 = 0x20_0000_0000_0000;

proof fn lemma_top_bit(n: nat)
    requires
        n > 0,
    ensures
        pow2(top_bit(n)) <= n < pow2(top_bit(n) + 1),
    decreases n,
{
    lemma2_to64();
    if n >= 2 {
        lemma_top_bit(n / 2);
        lemma_pow2_unfold(top_bit(n));
        lemma_pow2_unfold(top_bit(n) + 1);
    }
}

proof fn lemma_top_bit_ascends(m: nat, n: nat)
    requires
        0 < m <= n,
    ensures
        top_bit(m) <= top_bit(n),
{
    lemma_top_bit(m);
    lemma_top_bit(n);
    if top_bit(m) > top_bit(n) {
        if top_bit(m) > top_bit(n) + 1 {
            lemma_pow2_strictly_increases(top_bit(n) + 1, top_bit(m));
        }
        assert(pow2(top_bit(n) + 1) <= pow2(top_bit(m)));
    }
}

proof fn lemma_rounded(n: nat, d: nat, low: nat, high: nat)
    requires
        d > 0,
        low * d <= n < high * d,
    ensures
        low <= rounded(n, d) <= high,
{
    lemma_fundamental_div_mod(n as int, d as int);
    let below = n / d;
    let past = n % d;
    assert(0 <= past < d);
    assert(low <= below < high) by (nonlinear_arith)
        requires
            low * d <= n < high * d,
            n == d * below + past,
            0 <= past < d,
    ;
}

proof fn lemma_rounded_ascends(m: nat, n: nat, d: nat)
    requires
        d > 0,
        m <= n,
    ensures
        rounded(m, d) <= rounded(n, d),
{
    lemma_fundamental_div_mod(m as int, d as int);
    lemma_fundamental_div_mod(n as int, d as int);
    let (q, r) = (m / d, m % d);
    let (s, t) = (n / d, n % d);
    assert(0 <= r < d && 0 <= t < d);
    assert(q <= s && (q == s ==> r <= t)) by (nonlinear_arith)
        requires
            m == d * q + r,
            n == d * s + t,
            0 <= r < d,
            0 <= t < d,
            m <= n,
    ;
}

/// The 53 leading bits of an integer are 53 bits, or one more where they were rounded up.
proof fn lemma_significand(n: nat)
    requires
        n > 0,
    ensures
        pow2(52) <= significand(n, top_bit(n)) <= pow2(53),
        top_bit(n) <= 52 ==> significand(n, top_bit(n)) < pow2(53),
{
    let top = top_bit(n);
    lemma_top_bit(n);
    if top <= 52 {
        let shift = (52 - top) as nat;
        let p = pow2(shift);
        lemma_pow2_pos(shift);
        lemma_pow2_adds(top, shift);
        lemma_pow2_adds(top + 1, shift);
        assert(pow2(top) * p <= n * p < pow2(top + 1) * p) by (nonlinear_arith)
            requires
                pow2(top) <= n < pow2(top + 1),
                p > 0,
        ;
        assert(top + shift == 52 && top + 1 + shift == 53);
    } else {
        let shift = (top - 52) as nat;
        lemma_pow2_pos(shift);
        lemma_pow2_adds(52, shift);
        lemma_pow2_adds(53, shift);
        assert(52 + shift == top && 53 + shift == top + 1);
        lemma_rounded(n, pow2(shift), pow2(52), pow2(53));
    }
}

/// Of two integers the greater has no lesser double, and a greater one as far as doubles hold every
/// integer.
proof fn lemma_nearest_ascends(m: nat, n: nat)
    requires
        m < n,
    ensures
        nearest_double(m) <= nearest_double(n),
        n <= GREATEST_EXACT ==> nearest_double(m) < nearest_double(n),
{
    lemma2_to64_rest();
    lemma2_to64();
    lemma_significand(n);
    let unit = pow2(52);
    lemma_pow2_unfold(53);
    let e = top_bit(n);
    assert((e + 1022) * unit >= 0) by (nonlinear_arith);
    if m > 0 {
        lemma_significand(m);
        lemma_top_bit(m);
        lemma_top_bit(n);
        lemma_top_bit_ascends(m, n);
        let d = top_bit(m);
        if n <= GREATEST_EXACT && d > 52 {
            if d > 53 {
                lemma_pow2_strictly_increases(53, d);
            }
        }
        if d == e {
            if d <= 52 {
                let p = pow2((52 - d) as nat);
                lemma_pow2_pos((52 - d) as nat);
                assert(m * p < n * p) by (nonlinear_arith)
                    requires
                        m < n,
                        p > 0,
                ;
            } else {
                lemma_pow2_pos((d - 52) as nat);
                lemma_rounded_ascends(m, n, pow2((d - 52) as nat));
            }
        } else {
            assert((d + 1022) * unit + unit <= (e + 1022) * unit) by (nonlinear_arith)
                requires
                    d + 1 <= e,
            ;
        }
    }
}

proof fn lemma_double_fits(n: nat)
    requires
        n <= u64::MAX,
    ensures
        nearest_double(n) < 0x7ff0_0000_0000_0000,
        n > 0 ==> nearest_double(n) > 0,
{
    lemma2_to64_rest();
    lemma2_to64();
    if n > 0 {
        lemma_significand(n);
        lemma_top_bit(n);
        let top = top_bit(n);
        if top > 63 {
            lemma_pow2_strictly_increases(63, top);
            if top > 64 {
                lemma_pow2_strictly_increases(64, top);
            }
        }
        assert(top <= 63);
        assert((top + 1022) * pow2(52) <= 1085 * pow2(52)) by (nonlinear_arith)
            requires
                top <= 63,
        ;
        lemma_pow2_unfold(53);
        assert((top + 1022) * pow2(52) >= 0) by (nonlinear_arith);
    }
}

/// The double of an integer is finite: its magnitude is below that of the infinities.
pub proof fn integers_have_finite_doubles(n: int)
    requires
        -0x8000_0000_0000_0000 <= n <= u64::MAX,
    ensures
        n >= 0 ==> double_of_integer(n) < 0x7ff0_0000_0000_0000,
        n < 0 ==> 0x8000_0000_0000_0000 < double_of_integer(n) < 0xfff0_0000_0000_0000,
{
    if n < 0 {
        lemma_double_fits((-n) as nat);
    } else {
        lemma_double_fits(n as nat);
    }
}

/// Integers compare as their doubles do: the greater has no lesser double, and a greater one where
/// doubles hold every integer up to both of them.
pub proof fn integers_compare_as_doubles(m: int, n: int)
    requires
        -0x8000_0000_0000_0000 <= m < n <= u64::MAX,
    ensures
        double_rank(double_of_integer(m) as u64) <= double_rank(double_of_integer(n) as u64),
        -GREATEST_EXACT <= m && n <= GREATEST_EXACT ==> double_rank(double_of_integer(m) as u64)
            < double_rank(double_of_integer(n) as u64),
{
    if m < 0 {
        lemma_double_fits((-m) as nat);
    } else {
        lemma_double_fits(m as nat);
    }
    if n < 0 {
        lemma_double_fits((-n) as nat);
        lemma_nearest_ascends((-n) as nat, (-m) as nat);
    } else {
        lemma_double_fits(n as nat);
        if m >= 0 {
            lemma_nearest_ascends(m as nat, n as nat);
        }
    }
}

/// The double of a positive integer holds its 53 leading bits behind the exponent. It is exact where
/// the integer has no more, and else no double is nearer; of two that are equally near it is the
/// one whose last bit is not set. A negative integer has the same double but for the sign.
pub proof fn integers_have_their_nearest_doubles(n: nat, top: nat)
    requires
        0 < n,
        pow2(top) <= n < pow2(top + 1),
    ensures
        ({
            let leading = double_of_integer(n as int) - (top + 1022) * pow2(52);
            if top <= 52 {
                leading == n * pow2((52 - top) as nat)
            } else {
                let step = pow2((top - 52) as nat);
                &&& 2 * (leading * step - n) <= step
                &&& 2 * (n - leading * step) <= step
                &&& 2 * (leading * step - n) == step || 2 * (n - leading * step) == step
                    ==> leading % 2 == 0
            }
        }),
        double_of_integer(-(n as int)) == 0x8000_0000_0000_0000 + double_of_integer(n as int),
{
    lemma_top_bit(n);
    let found = top_bit(n);
    if found + 1 < top {
        lemma_pow2_strictly_increases(found + 1, top);
    } else if top + 1 < found {
        lemma_pow2_strictly_increases(top + 1, found);
    }
    assert(found == top);
    if top > 52 {
        let step = pow2((top - 52) as nat);
        lemma_pow2_pos((top - 52) as nat);
        lemma_fundamental_div_mod(n as int, step as int);
        let below = n / step;
        let past = n % step;
        let leading = rounded(n, step);
        assert(leading * step == below * step + if leading == below { 0 } else { step as int })
            by (nonlinear_arith)
            requires
                leading == below || leading == below + 1,
        ;
        assert(below * step == step * below) by (nonlinear_arith);
    }
}

/// Any two doubles but the same have an order, which is that of their values where these differ.
pub proof fn doubles_have_a_total_order(a: u64, b: u64)
    ensures
        a != b ==> double_total_rank(a) != double_total_rank(b),
        double_rank(a) < double_rank(b) ==> double_total_rank(a) < double_total_rank(b),
{
}

} // verus!
