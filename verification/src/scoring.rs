//! Points for a correct answer: 1000 for an instant answer, falling
//! linearly to 500 at the time limit, rounded to the nearest integer
//! exactly as IEEE-754 binary64 evaluation of
//! `(1000.0 * (1.0 - 0.5 * (min(response, limit) as f64 / limit as f64))).round()`
//! rounds it. The computation here uses integers only and models each
//! rounding step of that evaluation in `speed_points`; that the model agrees
//! with the floating-point evaluation itself is checked by the tests (which
//! compare the two over many inputs), not proved.
use vstd::prelude::*;
use vstd::arithmetic::power2::{pow2, lemma_pow2_pos, lemma_pow2_unfold, lemma_pow2_subtracts,
    lemma_pow2_strictly_increases, lemma2_to64, lemma2_to64_rest};

verus! {

/// `n / d` rounded to the nearest integer, ties to the even one (IEEE's
/// round-to-nearest-even on a quotient).
pub open spec fn round_half_even(n: nat, d: nat) -> nat {
    let q = n / d;
    let r = n % d;
    if 2 * r < d {
        q
    } else if 2 * r > d {
        q + 1
    } else if q % 2 == 0 {
        q
    } else {
        q + 1
    }
}

/// How many low bits of `x` do not fit in a 53-bit significand.
pub open spec fn excess_bits(x: nat) -> nat
    decreases x,
{
    if x < 0x20_0000_0000_0000 {
        0
    } else {
        1 + excess_bits(x / 2)
    }
}

/// The binary64 value of the integer `x` (`x as f64`), itself an integer.
pub open spec fn as_double(x: nat) -> nat {
    round_half_even(x, pow2(excess_bits(x))) * pow2(excess_bits(x))
}

/// How often `n` must be doubled to reach at least `t`.
pub open spec fn doublings(n: nat, t: nat) -> nat
    decreases (if n == 0 || n >= t { 0 } else { t - n }),
{
    if n == 0 || n >= t {
        0
    } else {
        1 + doublings(2 * n, t)
    }
}

/// The base points of a correct answer given after `response_ms` of a
/// `limit_ms` window, as the binary64 evaluation above yields them:
/// the quotient rounded to 53 bits, `1.0 - quotient / 2` rounded to
/// 53 bits (a multiple of 2^-53 in [0.5, 1]), its product with 1000
/// rounded to 53 bits (a multiple of 2^-43 from 512 up, of 2^-44 below),
/// and that rounded half away from zero. `s`, the number of doublings that
/// bring the quotient into [2^52, 2^53), is at least 52
/// (`lemma_speed_points_range`). A zero limit gives NaN, which converts to 0.
pub open spec fn speed_points(response_ms: nat, limit_ms: nat) -> nat {
    let r = if response_ms < limit_ms { response_ms } else { limit_ms };
    if limit_ms == 0 {
        0
    } else if r == 0 {
        1000
    } else {
        let x = as_double(r);
        let y = as_double(limit_ms);
        let s = doublings(x, 0x10_0000_0000_0000 * y);
        let m = round_half_even(x * pow2(s), y);
        let t = round_half_even((pow2(s + 1) - m) as nat, pow2((s - 52) as nat));
        let p = 1000 * t;
        if p >= 0x4000_0000_0000_0000 {
            (2 * round_half_even(p, 1024) + 0x800_0000_0000) / 0x1000_0000_0000
        } else {
            (2 * round_half_even(p, 512) + 0x1000_0000_0000) / 0x2000_0000_0000
        }
    }
}

/// The points a correct answer earns: the speed points, doubled on a
/// double-points question.
pub open spec fn correct_points(response_ms: nat, limit_ms: nat, double: bool) -> int {
    speed_points(response_ms, limit_ms) * (if double { 2int } else { 1int })
}

fn round_half_even_exec(n: u128, d: u128) -> (r: u128)
    requires
        d > 0,
    ensures
        r == round_half_even(n as nat, d as nat),
        r <= n / d + 1,
        r >= n / d,
{
    let q = n / d;
    let rem = n % d;
    assert(q * d + rem == n) by (nonlinear_arith)
        requires
            q == n / d,
            rem == n % d,
            d > 0,
    ;
    if rem < d - rem {
        q
    } else if rem > d - rem {
        assert(q < u128::MAX) by (nonlinear_arith)
            requires
                q * d + rem == n,
                rem > 0,
                d >= 2,
                n <= u128::MAX,
        ;
        q + 1
    } else if q % 2 == 0 {
        q
    } else {
        assert(q < u128::MAX) by (nonlinear_arith)
            requires
                q * d + rem == n,
                rem > 0,
                d >= 2,
                n <= u128::MAX,
        ;
        q + 1
    }
}

proof fn lemma_halving(x: nat, k: nat)
    ensures
        (x / pow2(k)) / 2 == x / pow2(k + 1),
{
    lemma_pow2_pos(k);
    lemma_pow2_unfold(k + 1);
    vstd::arithmetic::div_mod::lemma_div_denominator(x as int, pow2(k) as int, 2);
}

/// `x as f64` as an integer (at most 2^64).
fn to_double(x: u64) -> (r: u128)
    ensures
        r == as_double(x as nat),
        x > 0 ==> r >= 1,
        r <= 0x1_0000_0000_0000_0000,
{
    let mut v: u128 = x as u128;
    let mut k: u64 = 0;
    let mut p: u128 = 1;
    proof {
        lemma2_to64();
    }
    while v >= 0x20_0000_0000_0000
        invariant
            p == pow2(k as nat),
            v == (x as nat) / pow2(k as nat),
            excess_bits(x as nat) == k + excess_bits(v as nat),
            v * p <= x,
            k <= 11,
            x > 0 && k > 0 ==> v >= 0x10_0000_0000_0000,
        decreases v,
    {
        proof {
            lemma_pow2_pos(k as nat);
            lemma2_to64();
            if k >= 11 {
                if k > 11 {
                    lemma_pow2_strictly_increases(11, k as nat);
                }
                assert(v * p >= 0x20_0000_0000_0000 * 0x800) by (nonlinear_arith)
                    requires
                        v >= 0x20_0000_0000_0000,
                        p >= 0x800,
                ;
            }
            lemma_halving(x as nat, k as nat);
            lemma_pow2_unfold((k + 1) as nat);
            assert((v / 2) * (p * 2) <= x) by (nonlinear_arith)
                requires
                    v * p <= x,
            ;
        }
        v = v / 2;
        k = k + 1;
        p = p * 2;
    }
    proof {
        lemma_pow2_pos(k as nat);
        lemma2_to64();
    }
    let q = round_half_even_exec(x as u128, p);
    proof {
        assert(q <= 0x20_0000_0000_0000);
        assert(p <= 0x800) by {
            if k < 11 {
                lemma_pow2_strictly_increases(k as nat, 11);
            }
        }
        assert(q * p <= 0x1_0000_0000_0000_0000) by (nonlinear_arith)
            requires
                q <= 0x20_0000_0000_0000,
                p <= 0x800,
        ;
        if x > 0 {
            assert(v >= 1);
            assert(q >= 1);
            assert(q * p >= 1) by (nonlinear_arith)
                requires
                    q >= 1,
                    p >= 1,
            ;
        }
    }
    q * p
}

/// Rounds `big / 2^53` (a product with 1000 of a multiple of 2^-53) to
/// binary64 and then half away from zero.
fn round_scaled_product(big: u128) -> (r: u128)
    requires
        big <= 1000 * 0x20_0000_0000_0000,
    ensures
        r == (if big >= 0x4000_0000_0000_0000 {
            (2 * round_half_even(big as nat, 1024) + 0x800_0000_0000) / 0x1000_0000_0000
        } else {
            (2 * round_half_even(big as nat, 512) + 0x1000_0000_0000) / 0x2000_0000_0000
        }),
        r <= 1000,
{
    if big >= 0x4000_0000_0000_0000 {
        let h = round_half_even_exec(big, 1024);
        assert(h <= 1000 * 0x800_0000_0000);
        (2 * h + 0x800_0000_0000) / 0x1000_0000_0000
    } else {
        let h = round_half_even_exec(big, 512);
        assert(h <= 1000 * 0x1000_0000_0000);
        (2 * h + 0x1000_0000_0000) / 0x2000_0000_0000
    }
}

/// The base points for an answer after `response_ms` of a `limit_ms` window.
pub fn speed_points_of(response_ms: u64, limit_ms: u64) -> (points: u64)
    ensures
        points == speed_points(response_ms as nat, limit_ms as nat),
        points <= 1000,
{
    let r = if response_ms < limit_ms { response_ms } else { limit_ms };
    if limit_ms == 0 {
        return 0;
    }
    if r == 0 {
        return 1000;
    }
    let x = to_double(r);
    let y = to_double(limit_ms);
    let target: u128 = 0x10_0000_0000_0000 * y;
    let mut v: u128 = x;
    let mut s: u64 = 0;
    let mut p: u128 = 1;
    proof {
        lemma2_to64();
        lemma_pow2_116();
    }
    while v < target
        invariant
            target == 0x10_0000_0000_0000 * y,
            y <= 0x1_0000_0000_0000_0000,
            x >= 1,
            p == pow2(s as nat),
            v == x * p,
            doublings(x as nat, target as nat) == s + doublings(v as nat, target as nat),
            s > 0 ==> v < 2 * target,
            s <= 116,
            p <= v,
            v >= 1,
            pow2(116) == 0x10_0000_0000_0000_0000_0000_0000_0000,
        decreases 116 - s,
    {
        proof {
            lemma_pow2_unfold((s + 1) as nat);
            if s >= 116 {
                if s > 116 {
                    lemma_pow2_strictly_increases(116, s as nat);
                }
            }
            assert(v * 2 == x * (p * 2)) by (nonlinear_arith)
                requires
                    v == x * p,
            ;
            assert(doublings(v as nat, target as nat) == 1 + doublings((2 * v) as nat, target as nat));
        }
        v = v * 2;
        s = s + 1;
        p = p * 2;
    }
    proof {
        lemma_speed_steps(r as nat, limit_ms as nat);
        lemma_pow2_pos(s as nat);
        lemma2_to64();
        lemma2_to64_rest();
    }
    let m = round_half_even_exec(v, y);
    proof {
        assert(v / y < 0x20_0000_0000_0000) by (nonlinear_arith)
            requires
                v < 2 * (0x10_0000_0000_0000 * y),
                y >= 1,
        ;
        lemma_pow2_unfold((s + 1) as nat);
        lemma_pow2_subtracts(52, s as nat);
        vstd::arithmetic::power2::lemma_pow2_adds((s - 52) as nat, 52);
        if s > 52 {
            lemma_pow2_strictly_increases(52, s as nat);
        }
        assert(m >= 1) by {
            assert(v >= y) by (nonlinear_arith)
                requires
                    v >= 0x10_0000_0000_0000 * y,
            ;
            assert(v / y >= 1) by (nonlinear_arith)
                requires
                    v >= y,
                    y >= 1,
            ;
        }
    }
    let scale = p / 0x10_0000_0000_0000;
    proof {
        assert(scale * 0x10_0000_0000_0000 == p) by (nonlinear_arith)
            requires
                scale == p / 0x10_0000_0000_0000,
                scale == pow2((s - 52) as nat),
                p == pow2(s as nat),
                pow2(s as nat) == pow2((s - 52) as nat) * 0x10_0000_0000_0000,
        ;
    }
    let t = round_half_even_exec(2 * p - m, scale);
    proof {
        assert(((2 * p - m) as int) / (scale as int) < 0x20_0000_0000_0000) by (nonlinear_arith)
            requires
                scale * 0x10_0000_0000_0000 == p,
                m >= 1,
                scale > 0,
        ;
    }
    let big: u128 = 1000 * t;
    let result = round_scaled_product(big);
    result as u64
}

proof fn lemma_pow2_116()
    ensures
        pow2(116) == 0x10_0000_0000_0000_0000_0000_0000_0000,
{
    lemma2_to64();
    lemma2_to64_rest();
    vstd::arithmetic::power2::lemma_pow2_adds(64, 52);
}

// ---------------------------------------------------------------------------
// The range of the points
// ---------------------------------------------------------------------------

/// Rounding `n / d` never exceeds a bound `c` with `n <= c * d`.
proof fn lemma_round_at_most(n: nat, d: nat, c: nat)
    requires
        d > 0,
        n <= c * d,
    ensures
        round_half_even(n, d) <= c,
{
    let q = n / d;
    let r = n % d;
    vstd::arithmetic::div_mod::lemma_fundamental_div_mod(n as int, d as int);
    assert(q <= c) by (nonlinear_arith)
        requires
            n <= c * d,
            n == d * q + r,
            0 <= r,
            d > 0,
    ;
    if q == c {
        assert(r == 0) by (nonlinear_arith)
            requires
                n <= c * d,
                n == d * q + r,
                q == c,
                0 <= r,
        ;
    }
}

/// Rounding `n / d` is at least `c` when `c * d <= n`.
proof fn lemma_round_at_least(n: nat, d: nat, c: nat)
    requires
        d > 0,
        c * d <= n,
    ensures
        c <= round_half_even(n, d),
{
    let q = n / d;
    let r = n % d;
    vstd::arithmetic::div_mod::lemma_fundamental_div_mod(n as int, d as int);
    assert(c <= q) by (nonlinear_arith)
        requires
            c * d <= n,
            n == d * q + r,
            r < d,
            d > 0,
    ;
}

/// Rounding `n / d` grows with `n`.
proof fn lemma_round_monotone(n1: nat, n2: nat, d: nat)
    requires
        d > 0,
        n1 <= n2,
    ensures
        round_half_even(n1, d) <= round_half_even(n2, d),
{
    let q1 = n1 / d;
    let q2 = n2 / d;
    vstd::arithmetic::div_mod::lemma_div_is_ordered(n1 as int, n2 as int, d as int);
    vstd::arithmetic::div_mod::lemma_fundamental_div_mod(n1 as int, d as int);
    vstd::arithmetic::div_mod::lemma_fundamental_div_mod(n2 as int, d as int);
    let r1 = n1 % d;
    let r2 = n2 % d;
    if q1 == q2 {
        assert(r1 <= r2) by (nonlinear_arith)
            requires
                n1 == d * q1 + r1,
                n2 == d * q2 + r2,
                q1 == q2,
                n1 <= n2,
        ;
    }
}

/// `x` keeps `excess_bits(x)` low bits beyond the 53 of a significand:
/// `x < 2^53 * 2^e`, and `2^52 * 2^e <= x` when `e > 0`.
proof fn lemma_excess_bounds(x: nat)
    ensures
        x < 0x20_0000_0000_0000 * pow2(excess_bits(x)),
        excess_bits(x) > 0 ==> 0x10_0000_0000_0000 * pow2(excess_bits(x)) <= x,
    decreases x,
{
    lemma2_to64();
    if x >= 0x20_0000_0000_0000 {
        let h = x / 2;
        lemma_excess_bounds(h);
        let e = excess_bits(h);
        assert(excess_bits(x) == e + 1);
        lemma_pow2_unfold(e + 1);
        lemma_pow2_pos(e);
        let p = pow2(e);
        assert(x < 0x20_0000_0000_0000 * (2 * p)) by (nonlinear_arith)
            requires
                h < 0x20_0000_0000_0000 * p,
                h == x / 2,
        ;
        if e > 0 {
            assert(0x10_0000_0000_0000 * (2 * p) <= x) by (nonlinear_arith)
                requires
                    0x10_0000_0000_0000 * p <= h,
                    h == x / 2,
            ;
        }
    }
}

/// More bits in excess for a larger number.
proof fn lemma_excess_monotone(v: nat, w: nat)
    requires
        v <= w,
    ensures
        excess_bits(v) <= excess_bits(w),
    decreases w,
{
    if v >= 0x20_0000_0000_0000 {
        lemma_excess_monotone(v / 2, w / 2);
    }
}

/// Converting to binary64 keeps the order of integers, and keeps every
/// positive integer at least 1.
proof fn lemma_as_double_monotone(v: nat, w: nat)
    requires
        v <= w,
    ensures
        as_double(v) <= as_double(w),
        v >= 1 ==> as_double(v) >= 1,
{
    lemma2_to64();
    let ev = excess_bits(v);
    let ew = excess_bits(w);
    lemma_excess_monotone(v, w);
    lemma_excess_bounds(v);
    lemma_excess_bounds(w);
    lemma_pow2_pos(ev);
    lemma_pow2_pos(ew);
    let pv = pow2(ev);
    let pw = pow2(ew);
    if ev == ew {
        lemma_round_monotone(v, w, pv);
        assert(round_half_even(v, pv) * pv <= round_half_even(w, pw) * pw) by (nonlinear_arith)
            requires
                round_half_even(v, pv) <= round_half_even(w, pw),
                pv == pw,
                pv > 0,
        ;
    } else {
        // Fewer excess bits: v lies below 2^53 * 2^ev <= 2^52 * 2^ew <= w.
        lemma_round_at_most(v, pv, 0x20_0000_0000_0000);
        lemma_round_at_least(w, pw, 0x10_0000_0000_0000);
        vstd::arithmetic::power2::lemma_pow2_adds(ev, 1);
        if ev + 1 < ew {
            lemma_pow2_strictly_increases(ev + 1, ew);
        }
        lemma_pow2_unfold(ev + 1);
        assert(round_half_even(v, pv) * pv <= round_half_even(w, pw) * pw) by (nonlinear_arith)
            requires
                round_half_even(v, pv) <= 0x20_0000_0000_0000,
                0x10_0000_0000_0000 <= round_half_even(w, pw),
                2 * pv <= pw,
                pv > 0,
        ;
    }
    if v >= 1 {
        if ev == 0 {
            lemma_round_at_least(v, pv, 1);
        } else {
            lemma_round_at_least(v, pv, 0x10_0000_0000_0000);
        }
        assert(round_half_even(v, pv) * pv >= 1) by (nonlinear_arith)
            requires
                round_half_even(v, pv) >= 1,
                pv >= 1,
        ;
    }
}

/// Doubling `x` (at least 1) `doublings(x, t)` times reaches `t`, and one
/// doubling fewer does not.
proof fn lemma_doublings_reach(x: nat, t: nat)
    requires
        x >= 1,
    ensures
        x * pow2(doublings(x, t)) >= t,
        doublings(x, t) > 0 ==> x * pow2((doublings(x, t) - 1) as nat) < t,
    decreases (if x >= t { 0 } else { t - x }),
{
    lemma2_to64();
    if x < t {
        lemma_doublings_reach(2 * x, t);
        let d = doublings(2 * x, t);
        assert(doublings(x, t) == d + 1);
        lemma_pow2_unfold(d + 1);
        assert(x * pow2(d + 1) == (2 * x) * pow2(d)) by (nonlinear_arith)
            requires
                pow2(d + 1) == 2 * pow2(d),
        ;
        if d > 0 {
            lemma_pow2_unfold(d);
            assert(x * pow2(d) == (2 * x) * pow2((d - 1) as nat)) by (nonlinear_arith)
                requires
                    pow2(d) == 2 * pow2((d - 1) as nat),
            ;
        }
    } else {
        assert(doublings(x, t) == 0);
        assert(x * pow2(0) == x);
    }
}

/// When `x * 2^j` stays below `t`, reaching `t` takes more than `j` doublings.
proof fn lemma_doublings_more(x: nat, t: nat, j: nat)
    requires
        x >= 1,
        x * pow2(j) < t,
    ensures
        doublings(x, t) > j,
    decreases j,
{
    lemma2_to64();
    lemma_pow2_pos(j);
    assert(x <= x * pow2(j)) by (nonlinear_arith)
        requires
            pow2(j) >= 1,
    ;
    if j > 0 {
        lemma_pow2_unfold(j);
        assert((2 * x) * pow2((j - 1) as nat) == x * pow2(j)) by (nonlinear_arith)
            requires
                pow2(j) == 2 * pow2((j - 1) as nat),
        ;
        lemma_doublings_more(2 * x, t, (j - 1) as nat);
    }
}

/// A correct answer within a positive time limit earns between 500 and
/// 1000 base points: 1000 when given at once, 500 at the limit or later.
pub proof fn lemma_speed_points_range(response_ms: nat, limit_ms: nat)
    requires
        limit_ms > 0,
    ensures
        500 <= speed_points(response_ms, limit_ms) <= 1000,
        response_ms == 0 ==> speed_points(response_ms, limit_ms) == 1000,
        response_ms >= limit_ms ==> speed_points(response_ms, limit_ms) == 500,
{
    let r = if response_ms < limit_ms { response_ms } else { limit_ms };
    if r == 0 {
        return;
    }
    lemma2_to64();
    lemma2_to64_rest();
    lemma_as_double_monotone(r, limit_ms);
    lemma_as_double_monotone(limit_ms, limit_ms);
    let x = as_double(r);
    let y = as_double(limit_ms);
    let target = 0x10_0000_0000_0000 * y;
    let s = doublings(x, target);
    lemma_doublings_reach(x, target);
    assert(x * pow2(51) < target) by (nonlinear_arith)
        requires
            x <= y,
            y >= 1,
            pow2(51) == 0x8_0000_0000_0000,
            target == 0x10_0000_0000_0000 * y,
    ;
    lemma_doublings_more(x, target, 51);
    assert(s >= 52);
    let p = pow2(s);
    lemma_pow2_pos(s);
    // The quotient x * 2^s / y lies in [2^52, 2^s].
    let m = round_half_even(x * p, y);
    lemma_round_at_least(x * p, y, 0x10_0000_0000_0000);
    assert(x * p <= p * y) by (nonlinear_arith)
        requires
            x <= y,
            p > 0,
    ;
    lemma_round_at_most(x * p, y, p);
    // 1 - quotient / 2, at the scale of 2^(s - 52).
    let scale = pow2((s - 52) as nat);
    vstd::arithmetic::power2::lemma_pow2_adds((s - 52) as nat, 52);
    assert(p == scale * 0x10_0000_0000_0000);
    lemma_pow2_unfold(s + 1);
    let n = (pow2(s + 1) - m) as nat;
    assert(0x10_0000_0000_0000 * scale <= n);
    assert(n <= 0x20_0000_0000_0000 * scale);
    let t = round_half_even(n, scale);
    lemma_pow2_pos((s - 52) as nat);
    lemma_round_at_least(n, scale, 0x10_0000_0000_0000);
    lemma_round_at_most(n, scale, 0x20_0000_0000_0000);
    let big = 1000 * t;
    if big >= 0x4000_0000_0000_0000 {
        lemma_round_at_least(big, 1024, 0x10_0000_0000_0000);
        lemma_round_at_most(big, 1024, 1000 * 0x800_0000_0000);
    } else {
        lemma_round_at_least(big, 512, 1000 * 0x800_0000_0000);
        lemma_round_at_most(big, 512, 0x20_0000_0000_0000);
    }
    if response_ms >= limit_ms {
        // The quotient is exactly 1: x == y, so x * 2^s / y == 2^s and the result is 500.
        assert(x == y);
        assert(x * p == p * y) by (nonlinear_arith)
            requires
                x == y,
        ;
        lemma_round_at_least(x * p, y, p);
        assert(m == p);
        assert(n == 0x10_0000_0000_0000 * scale);
        lemma_round_at_most(n, scale, 0x10_0000_0000_0000);
        assert(t == 0x10_0000_0000_0000);
    }
}

/// Rounding respects the order of quotients: `n2 / d2 <= n1 / d1` as
/// fractions gives `round(n2 / d2) <= round(n1 / d1)`.
proof fn lemma_round_fractions(n1: nat, d1: nat, n2: nat, d2: nat)
    requires
        d1 > 0,
        d2 > 0,
        n2 * d1 <= n1 * d2,
    ensures
        round_half_even(n2, d2) <= round_half_even(n1, d1),
{
    let q1 = n1 / d1;
    let r1 = n1 % d1;
    let q2 = n2 / d2;
    let r2 = n2 % d2;
    vstd::arithmetic::div_mod::lemma_fundamental_div_mod(n1 as int, d1 as int);
    vstd::arithmetic::div_mod::lemma_fundamental_div_mod(n2 as int, d2 as int);
    assert(q2 <= q1) by (nonlinear_arith)
        requires
            n1 == d1 * q1 + r1,
            n2 == d2 * q2 + r2,
            0 <= r1 < d1,
            0 <= r2 < d2,
            n2 * d1 <= n1 * d2,
            q1 >= 0,
            q2 >= 0,
    {
        if q2 > q1 {
            assert(q2 >= q1 + 1);
            assert(n2 * d1 >= d2 * q2 * d1);
            assert(d2 * q2 * d1 >= d2 * (q1 + 1) * d1);
            assert(n1 * d2 < (q1 + 1) * d1 * d2);
        }
    }
    if q2 == q1 {
        assert(r2 * d1 <= r1 * d2) by (nonlinear_arith)
            requires
                n1 == d1 * q1 + r1,
                n2 == d2 * q2 + r2,
                q1 == q2,
                n2 * d1 <= n1 * d2,
        ;
        if 2 * r2 > d2 {
            assert(2 * r1 > d1) by (nonlinear_arith)
                requires
                    r2 * d1 <= r1 * d2,
                    2 * r2 > d2,
                    d1 > 0,
                    d2 > 0,
            ;
        } else if 2 * r2 == d2 {
            assert(2 * r1 >= d1) by (nonlinear_arith)
                requires
                    r2 * d1 <= r1 * d2,
                    2 * r2 == d2,
                    d1 > 0,
                    d2 > 0,
            ;
        }
    }
}

/// A larger start needs no more doublings to reach `t`.
proof fn lemma_doublings_antitone(x1: nat, x2: nat, t: nat)
    requires
        1 <= x1 <= x2,
    ensures
        doublings(x2, t) <= doublings(x1, t),
    decreases (if x2 >= t { 0 } else { t - x2 }),
{
    if x2 < t {
        lemma_doublings_antitone(2 * x1, 2 * x2, t);
    }
}

/// The rounding of the scaled product to whole points keeps the order.
proof fn lemma_final_rounding_monotone(p1: nat, p2: nat)
    requires
        p2 <= p1 <= 1000 * 0x20_0000_0000_0000,
    ensures
        (if p2 >= 0x4000_0000_0000_0000 {
            (2 * round_half_even(p2, 1024) + 0x800_0000_0000) / 0x1000_0000_0000
        } else {
            (2 * round_half_even(p2, 512) + 0x1000_0000_0000) / 0x2000_0000_0000
        }) <= (if p1 >= 0x4000_0000_0000_0000 {
            (2 * round_half_even(p1, 1024) + 0x800_0000_0000) / 0x1000_0000_0000
        } else {
            (2 * round_half_even(p1, 512) + 0x1000_0000_0000) / 0x2000_0000_0000
        }),
{
    if p2 >= 0x4000_0000_0000_0000 {
        lemma_round_monotone(p2, p1, 1024);
    } else if p1 >= 0x4000_0000_0000_0000 {
        lemma_round_at_most(p2, 512, 0x20_0000_0000_0000);
        lemma_round_at_least(p1, 1024, 0x10_0000_0000_0000);
    } else {
        lemma_round_monotone(p2, p1, 512);
    }
}

/// The scaled quotient and the resulting base points for a response of
/// `r` milliseconds (0 < r <= limit) at binary64 precision.
proof fn lemma_speed_steps(r: nat, limit_ms: nat)
    requires
        0 < r <= limit_ms,
    ensures
        ({
            let x = as_double(r);
            let y = as_double(limit_ms);
            let s = doublings(x, 0x10_0000_0000_0000 * y);
            let m = round_half_even(x * pow2(s), y);
            &&& 1 <= x <= y
            &&& s >= 52
            &&& 0x10_0000_0000_0000 <= m <= pow2(s)
            &&& m <= 0x20_0000_0000_0000
            &&& pow2(s) == pow2((s - 52) as nat) * 0x10_0000_0000_0000
        }),
{
    lemma2_to64();
    lemma2_to64_rest();
    lemma_as_double_monotone(r, limit_ms);
    lemma_as_double_monotone(limit_ms, limit_ms);
    let x = as_double(r);
    let y = as_double(limit_ms);
    let target = 0x10_0000_0000_0000 * y;
    let s = doublings(x, target);
    lemma_doublings_reach(x, target);
    assert(x * pow2(51) < target) by (nonlinear_arith)
        requires
            x <= y,
            y >= 1,
            pow2(51) == 0x8_0000_0000_0000,
            target == 0x10_0000_0000_0000 * y,
    ;
    lemma_doublings_more(x, target, 51);
    let p = pow2(s);
    lemma_pow2_pos(s);
    lemma_round_at_least(x * p, y, 0x10_0000_0000_0000);
    assert(x * p <= p * y) by (nonlinear_arith)
        requires
            x <= y,
            p > 0,
    ;
    lemma_round_at_most(x * p, y, p);
    // One doubling fewer stays below the target: x * 2^s < 2 * 2^52 * y.
    lemma_pow2_unfold(s);
    assert(x * p < 0x20_0000_0000_0000 * y) by (nonlinear_arith)
        requires
            x * pow2((s - 1) as nat) < 0x10_0000_0000_0000 * y,
            p == 2 * pow2((s - 1) as nat),
    ;
    lemma_round_at_most(x * p, y, 0x20_0000_0000_0000);
    vstd::arithmetic::power2::lemma_pow2_adds((s - 52) as nat, 52);
}

/// A faster correct answer never earns fewer base points.
#[verifier::spinoff_prover]
#[verifier::rlimit(40)]
pub proof fn lemma_speed_points_monotone(faster_ms: nat, slower_ms: nat, limit_ms: nat)
    requires
        faster_ms <= slower_ms,
        limit_ms > 0,
    ensures
        speed_points(slower_ms, limit_ms) <= speed_points(faster_ms, limit_ms),
{
    lemma_speed_points_range(faster_ms, limit_ms);
    lemma_speed_points_range(slower_ms, limit_ms);
    let r1 = if faster_ms < limit_ms { faster_ms } else { limit_ms };
    let r2 = if slower_ms < limit_ms { slower_ms } else { limit_ms };
    if r1 == 0 || r1 == r2 {
        return;
    }
    lemma_speed_steps(r1, limit_ms);
    lemma_speed_steps(r2, limit_ms);
    lemma_as_double_monotone(r1, r2);
    let y = as_double(limit_ms);
    let target = 0x10_0000_0000_0000 * y;
    let x1 = as_double(r1);
    let x2 = as_double(r2);
    let s1 = doublings(x1, target);
    let s2 = doublings(x2, target);
    lemma_doublings_antitone(x1, x2, target);
    let p1 = pow2(s1);
    let p2 = pow2(s2);
    let m1 = round_half_even(x1 * p1, y);
    let m2 = round_half_even(x2 * p2, y);
    lemma_pow2_pos(s1);
    lemma_pow2_pos(s2);
    // The rounded quotients keep their order: m1 / 2^s1 <= m2 / 2^s2.
    if s1 == s2 {
        assert(x1 * p1 <= x2 * p2) by (nonlinear_arith)
            requires
                x1 <= x2,
                p1 == p2,
                p1 > 0,
        ;
        lemma_round_monotone(x1 * p1, x2 * p2, y);
        assert(m1 * p2 <= m2 * p1) by (nonlinear_arith)
            requires
                m1 <= m2,
                p1 == p2,
                p1 > 0,
        ;
    } else {
        vstd::arithmetic::power2::lemma_pow2_adds(s2, (s1 - s2) as nat);
        lemma_pow2_pos((s1 - s2) as nat);
        if s1 - s2 > 1 {
            lemma_pow2_strictly_increases(1, (s1 - s2) as nat);
        }
        lemma2_to64();
        assert(m1 * p2 <= m2 * p1) by (nonlinear_arith)
            requires
                m1 <= 0x20_0000_0000_0000,
                0x10_0000_0000_0000 <= m2,
                p1 == p2 * pow2((s1 - s2) as nat),
                pow2((s1 - s2) as nat) >= 2,
                p2 > 0,
        ;
    }
    // Hence 1 - quotient / 2 keeps the reverse order, before and after rounding.
    let c1 = pow2((s1 - 52) as nat);
    let c2 = pow2((s2 - 52) as nat);
    lemma_pow2_pos((s1 - 52) as nat);
    lemma_pow2_pos((s2 - 52) as nat);
    lemma_pow2_unfold(s1 + 1);
    lemma_pow2_unfold(s2 + 1);
    let n1 = (pow2(s1 + 1) - m1) as nat;
    let n2 = (pow2(s2 + 1) - m2) as nat;
    assert(n2 * c1 <= n1 * c2) by (nonlinear_arith)
        requires
            n1 == 2 * p1 - m1,
            n2 == 2 * p2 - m2,
            p1 == c1 * 0x10_0000_0000_0000,
            p2 == c2 * 0x10_0000_0000_0000,
            m1 * p2 <= m2 * p1,
            c1 > 0,
            c2 > 0,
    {
        assert(m1 * c2 * 0x10_0000_0000_0000 <= m2 * c1 * 0x10_0000_0000_0000);
        assert(m1 * c2 <= m2 * c1);
    }
    lemma_round_fractions(n1, c1, n2, c2);
    let t1 = round_half_even(n1, c1);
    let t2 = round_half_even(n2, c2);
    lemma_round_at_most(n1, c1, 0x20_0000_0000_0000);
    assert(n1 <= 0x20_0000_0000_0000 * c1);
    lemma_final_rounding_monotone(1000 * t1, 1000 * t2);
}

} // verus!
