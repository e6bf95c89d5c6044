//! Double-precision arithmetic on numbers that are not negative, in integers.
//!
//! Percentages, progress bars and picture scaling are defined by what binary64
//! arithmetic gives, rounding included. This module computes the same results
//! with whole numbers: a value is a 53-bit significand and an exponent, and
//! every operation rounds to the nearest such value, ties to an even
//! significand. Only values far from the ends of the exponent range occur
//! here, so there is no overflow to infinity and nothing subnormal.

use vstd::prelude::*;

verus! {

/// Two to the fifty-second: the smallest significand.
pub const LOW: u64 = 4503599627370496;

/// Two to the fifty-third: one past the largest significand.
pub const HIGH: u64 = 9007199254740992;

/// The number `m * 2^e`. Zero is all zeros; any other number has a significand
/// of exactly fifty-three bits.
#[derive(Debug, Clone, Copy, PartialEq, Eq, Structural)]
pub struct Double {
    pub m: u64,
    pub e: i32,
}

impl Double {
    pub open spec fn wf(self) -> bool {
        ||| self.m == 0 && self.e == 0
        ||| LOW <= self.m < HIGH && -500 <= self.e <= 500
    }
}

/// The whole number nearest to `a / b`, the even one of two equally near.
pub open spec fn nearest(a: nat, b: nat) -> nat {
    let q = a / b;
    let r = a % b;
    if 2 * r < b {
        q
    } else if 2 * r > b {
        q + 1
    } else {
        q + q % 2
    }
}

/// A significand that rounded up to the next power of two moves into the
/// exponent.
pub open spec fn settled(m: nat, e: int) -> Double {
    if m == HIGH {
        Double { m: LOW, e: (e + 1) as i32 }
    } else {
        Double { m: m as u64, e: e as i32 }
    }
}

/// Double the significand until it has fifty-three bits.
pub open spec fn scaled_up(m: nat, e: int) -> Double
    decreases HIGH - m,
{
    if m >= LOW || m == 0 {
        Double { m: m as u64, e: e as i32 }
    } else {
        scaled_up(2 * m, e - 1)
    }
}

pub open spec fn p2(k: nat) -> nat
    decreases k,
{
    if k == 0 {
        1
    } else {
        2 * p2((k - 1) as nat)
    }
}

/// How many bits a number has too many for a significand, from `k` up.
pub open spec fn excess(n: nat, k: nat) -> nat
    decreases 64 - k,
{
    if k >= 64 || n / p2(k) < HIGH {
        k
    } else {
        excess(n, k + 1)
    }
}

/// The double nearest to a whole number.
pub open spec fn of_nat(n: nat) -> Double {
    if n == 0 {
        Double { m: 0, e: 0 }
    } else if n < HIGH {
        scaled_up(n, 0)
    } else {
        let k = excess(n, 1);
        settled(nearest(n, p2(k)), k as int)
    }
}

/// The double nearest to the quotient of two others.
pub open spec fn quotient(a: Double, b: Double) -> Double {
    if a.m == 0 {
        Double { m: 0, e: 0 }
    } else if a.m >= b.m {
        Double { m: nearest((a.m * LOW) as nat, b.m as nat) as u64, e: (a.e - b.e - 52) as i32 }
    } else {
        Double { m: nearest((a.m * HIGH) as nat, b.m as nat) as u64, e: (a.e - b.e - 53) as i32 }
    }
}

/// The double nearest to the product of two others.
pub open spec fn product(a: Double, b: Double) -> Double {
    let p = (a.m * b.m) as nat;
    if p == 0 {
        Double { m: 0, e: 0 }
    } else if p < LOW * HIGH {
        settled(nearest(p, LOW as nat), a.e + b.e + 52)
    } else {
        settled(nearest(p, HIGH as nat), a.e + b.e + 53)
    }
}

/// Whether `a` is less than `b`.
pub open spec fn less(a: Double, b: Double) -> bool {
    if b.m == 0 {
        false
    } else if a.m == 0 {
        true
    } else if a.e == b.e {
        a.m < b.m
    } else {
        a.e < b.e
    }
}

/// The number one.
pub open spec fn one() -> Double {
    Double { m: LOW, e: -52i32 }
}

/// Half of a number, rounded down, `k` times over.
pub open spec fn halved(m: nat, k: nat) -> nat
    decreases k,
{
    if k == 0 {
        m
    } else {
        halved(m / 2, (k - 1) as nat)
    }
}

/// Twice a number, `k` times over.
pub open spec fn doubled(m: nat, k: nat) -> nat
    decreases k,
{
    if k == 0 {
        m
    } else {
        doubled(2 * m, (k - 1) as nat)
    }
}

/// The whole part.
pub open spec fn whole(x: Double) -> nat {
    if x.e >= 0 {
        doubled(x.m as nat, x.e as nat)
    } else {
        halved(x.m as nat, (-x.e) as nat)
    }
}

/// The nearest whole number, the larger of two equally near.
pub open spec fn rounded(x: Double) -> nat {
    if x.e >= 0 {
        doubled(x.m as nat, x.e as nat)
    } else {
        (halved(x.m as nat, (-x.e - 1) as nat) + 1) / 2
    }
}

// ---------------------------------------------------------------------------

fn nearest_u128(a: u128, b: u128) -> (r: u128)
    requires
        0 < b <= 0x7fff_ffff_ffff_ffff,
        a / b < 0xffff_ffff_ffff_ffff,
    ensures
        r == nearest(a as nat, b as nat),
        a / b <= r <= a / b + 1,
{
    let q: u128 = a / b;
    let r: u128 = a % b;
    if 2 * r < b {
        q
    } else if 2 * r > b {
        q + 1
    } else {
        q + q % 2
    }
}

proof fn lemma_p2_bound(k: nat)
    requires
        k <= 12,
    ensures
        1 <= p2(k) <= 4096,
    decreases k,
{
    reveal_with_fuel(p2, 14);
}

proof fn lemma_excess(n: nat, k: nat)
    requires
        1 <= k <= 11,
        n / p2((k - 1) as nat) >= HIGH,
        n <= u64::MAX,
    ensures
        k <= excess(n, k) <= 11,
        LOW <= n / p2(excess(n, k)) < HIGH,
    decreases 11 - k,
{
    let d = p2((k - 1) as nat);
    assert(p2(k) == 2 * d);
    assert(1 <= d <= 1024) by {
        reveal_with_fuel(p2, 12);
    }
    assert(n / (2 * d) == (n / d) / 2) by (nonlinear_arith)
        requires
            d >= 1,
    ;
    if n / p2(k) >= HIGH {
        if k == 11 {
            assert(p2(11) == 2048) by {
                reveal_with_fuel(p2, 12);
            }
            assert(n / 2048 < HIGH);
        }
        lemma_excess(n, k + 1);
    }
}

/// The double nearest to a whole number.
pub fn from_u64(n: u64) -> (r: Double)
    ensures
        r == of_nat(n as nat),
        r.wf(),
        -52 <= r.e <= 12,
        n > 0 ==> r.m > 0,
        n == 0 ==> r.m == 0,
{
    if n == 0 {
        return Double { m: 0, e: 0 };
    }
    if n < HIGH {
        let mut m: u64 = n;
        let mut e: i32 = 0;
        let ghost mut k: nat = 0;
        while m < LOW
            invariant
                0 < m < HIGH,
                -52 <= e <= 0,
                e == -(k as int),
                m >= p2(k),
                k <= 52,
                scaled_up(n as nat, 0) == scaled_up(m as nat, e as int),
            decreases HIGH - m,
        {
            proof {
                if k == 52 {
                    lemma_p2_52();
                }
                assert(p2((k + 1) as nat) == 2 * p2(k));
            }
            m = 2 * m;
            e = e - 1;
            proof {
                k = k + 1;
            }
        }
        return Double { m, e };
    }
    let mut k: u32 = 1;
    let mut d: u64 = 2;
    proof {
        assert(p2((1 - 1) as nat) == 1);
        assert(n as nat / 1 == n);
        lemma_excess(n as nat, 1);
        reveal_with_fuel(p2, 3);
    }
    while n / d >= HIGH
        invariant
            1 <= k <= 11,
            d == p2(k as nat),
            2 <= d <= 4096,
            excess(n as nat, 1) == excess(n as nat, k as nat),
            excess(n as nat, 1) <= 11,
        decreases 11 - k,
    {
        proof {
            assert(p2((k + 1) as nat) == 2 * p2(k as nat));
            assert(excess(n as nat, k as nat) == excess(n as nat, (k + 1) as nat));
            lemma_excess_least(n as nat, (k + 1) as nat);
            lemma_p2_bound((k + 1) as nat);
        }
        k = k + 1;
        d = 2 * d;
    }
    let m: u128 = nearest_u128(n as u128, d as u128);
    if m == HIGH as u128 {
        Double { m: LOW, e: k as i32 + 1 }
    } else {
        Double { m: m as u64, e: k as i32 }
    }
}

proof fn lemma_excess_least(n: nat, k: nat)
    ensures
        k <= 64 ==> k <= excess(n, k),
    decreases 64 - k,
{
    if k < 64 && n / p2(k) >= HIGH {
        lemma_excess_least(n, k + 1);
    }
}

proof fn lemma_p2_52()
    ensures
        p2(52) == LOW,
{
    reveal_with_fuel(p2, 53);
}

/// The double nearest to `a / b`.
pub fn over(a: Double, b: Double) -> (r: Double)
    requires
        a.wf(),
        b.wf(),
        b.m > 0,
        -200 <= a.e <= 200,
        -200 <= b.e <= 200,
    ensures
        r == quotient(a, b),
        r.wf(),
        a.m > 0 ==> a.e - b.e - 53 <= r.e <= a.e - b.e - 52,
        (a.m == 0) == (r.m == 0),
{
    if a.m == 0 {
        return Double { m: 0, e: 0 };
    }
    if a.m >= b.m {
        proof {
            lemma_quotient_range(a.m as int, b.m as int, LOW as int);
        }
        let m: u128 = nearest_u128(a.m as u128 * LOW as u128, b.m as u128);
        Double { m: m as u64, e: a.e - b.e - 52 }
    } else {
        proof {
            lemma_quotient_range(a.m as int, b.m as int, HIGH as int);
        }
        let m: u128 = nearest_u128(a.m as u128 * HIGH as u128, b.m as u128);
        Double { m: m as u64, e: a.e - b.e - 53 }
    }
}

/// The quotient of two significands, suitably scaled, is a significand again
/// and stays one when it is rounded.
proof fn lemma_quotient_range(a: int, b: int, scale: int)
    requires
        LOW <= a < HIGH,
        LOW <= b < HIGH,
        scale == LOW && a >= b || scale == HIGH && a < b,
    ensures
        a * scale <= 0xffff_ffff_ffff_ffff_ffff_ffff_ffff_ffff,
        LOW <= a * scale / b < HIGH,
        LOW <= nearest((a * scale) as nat, b as nat) < HIGH,
{
    let n = a * scale;
    let q = n / b;
    let r = n % b;
    if scale == LOW {
        assert(n <= LOW * HIGH && n >= b * LOW && n < b * HIGH) by (nonlinear_arith)
            requires
                n == a * LOW,
                LOW <= a < HIGH,
                LOW <= b < HIGH,
                a >= b,
        ;
    } else {
        assert(n <= HIGH * HIGH && n >= b * LOW && n <= b * HIGH - HIGH) by (nonlinear_arith)
            requires
                n == a * HIGH,
                LOW <= a < HIGH,
                LOW <= b < HIGH,
                a < b,
        ;
    }
    assert(n == b * q + r && 0 <= r < b) by (nonlinear_arith)
        requires
            q == n / b,
            r == n % b,
            b > 0,
    ;
    assert(q >= LOW) by (nonlinear_arith)
        requires
            n == b * q + r,
            r < b,
            n >= b * LOW,
            b > 0,
    ;
    assert(q < HIGH) by (nonlinear_arith)
        requires
            n == b * q + r,
            0 <= r,
            n < b * HIGH,
            b > 0,
    ;
    if scale == LOW {
        if q == HIGH - 1 {
            // a < HIGH and b >= LOW, so a * LOW is at most b * (HIGH - 1).
            assert(2 * r < b) by (nonlinear_arith)
                requires
                    n == b * q + r,
                    q == HIGH - 1,
                    n == a * LOW,
                    a <= HIGH - 1,
                    b >= LOW,
            ;
        }
    } else if q == HIGH - 1 {
        assert(2 * r < b) by (nonlinear_arith)
            requires
                n == b * q + r,
                q == HIGH - 1,
                n <= b * HIGH - HIGH,
                b < HIGH,
        ;
    }
}

/// The double nearest to `a * b`.
pub fn times(a: Double, b: Double) -> (r: Double)
    requires
        a.wf(),
        b.wf(),
        -200 <= a.e <= 200,
        -200 <= b.e <= 200,
    ensures
        r == product(a, b),
        r.wf(),
        r.m > 0 ==> a.e + b.e + 52 <= r.e <= a.e + b.e + 54,
{
    proof {
        let p = a.m * b.m;
        assert(a.m > 0 && b.m > 0 ==> LOW * LOW <= p < HIGH * HIGH) by (nonlinear_arith)
            requires
                p == a.m * b.m,
                a.m > 0 ==> LOW <= a.m < HIGH,
                b.m > 0 ==> LOW <= b.m < HIGH,
        ;
        assert(a.m == 0 || b.m == 0 ==> p == 0) by (nonlinear_arith)
            requires
                p == a.m * b.m,
        ;
    }
    if a.m == 0 || b.m == 0 {
        return Double { m: 0, e: 0 };
    }
    let p: u128 = a.m as u128 * b.m as u128;
    let wide: bool = p >= 40564819207303340847894502572032;
    let d: u128 = if wide {
        HIGH as u128
    } else {
        LOW as u128
    };
    let e: i32 = a.e + b.e + (if wide {
        53
    } else {
        52
    });
    let m: u128 = nearest_u128(p, d);
    if m == HIGH as u128 {
        Double { m: LOW, e: e + 1 }
    } else {
        Double { m: m as u64, e }
    }
}

/// The smaller of a number and one.
pub fn at_most_one(x: Double) -> (r: Double)
    requires
        x.wf(),
    ensures
        r == (if less(one(), x) {
            one()
        } else {
            x
        }),
        r.wf(),
        r.e <= -52 || r.m == 0,
        -500 <= r.e,
        x.e >= -200 ==> r.e >= -200,
{
    let u = Double { m: LOW, e: -52 };
    if lt(u, x) {
        u
    } else {
        x
    }
}

/// Whether `a` is less than `b`.
pub fn lt(a: Double, b: Double) -> (r: bool)
    ensures
        r == less(a, b),
{
    if b.m == 0 {
        false
    } else if a.m == 0 {
        true
    } else if a.e == b.e {
        a.m < b.m
    } else {
        a.e < b.e
    }
}

fn half_down(n: u64, times: u32) -> (r: u64)
    ensures
        r == halved(n as nat, times as nat),
        r <= n,
{
    let mut m: u64 = n;
    let mut k: u32 = times;
    while k > 0
        invariant
            halved(n as nat, times as nat) == halved(m as nat, k as nat),
            m <= n,
        decreases k,
    {
        m = m / 2;
        k = k - 1;
    }
    m
}

/// Doubling, held at the largest number that fits.
fn double_up(n: u64, times: u32, max: u64) -> (r: u64)
    requires
        n > 0 || times == 0,
        n <= max,
    ensures
        r == (if doubled(n as nat, times as nat) <= max {
            doubled(n as nat, times as nat)
        } else {
            max as nat
        }),
{
    let mut m: u64 = n;
    let mut k: u32 = times;
    while k > 0
        invariant
            doubled(n as nat, times as nat) == doubled(m as nat, k as nat),
            m <= max,
            n > 0 ==> m > 0,
        decreases k,
    {
        if m > max / 2 {
            proof {
                lemma_doubled_grows(2 * m as nat, (k - 1) as nat);
            }
            return max;
        }
        m = 2 * m;
        k = k - 1;
    }
    m
}

proof fn lemma_doubled_grows(m: nat, k: nat)
    ensures
        doubled(m, k) >= m,
    decreases k,
{
    if k > 0 {
        lemma_doubled_grows(2 * m, (k - 1) as nat);
    }
}

/// A number held at the largest that fits.
pub open spec fn capped(n: nat, max: u64) -> u64 {
    if n <= max {
        n as u64
    } else {
        max
    }
}

/// The whole part, held at `max`.
pub fn trunc(x: Double, max: u64) -> (r: u64)
    requires
        x.wf(),
    ensures
        r == capped(whole(x), max),
{
    if x.m == 0 {
        return 0;
    }
    if x.e >= 0 {
        if x.m > max {
            proof {
                lemma_doubled_grows(x.m as nat, x.e as nat);
            }
            max
        } else {
            double_up(x.m, x.e as u32, max)
        }
    } else {
        let n = half_down(x.m, (-x.e) as u32);
        if n > max {
            max
        } else {
            n
        }
    }
}

/// The nearest whole number, held at `max`.
pub fn round(x: Double, max: u64) -> (r: u64)
    requires
        x.wf(),
    ensures
        r == capped(rounded(x), max),
{
    if x.e >= 0 {
        if x.m == 0 {
            return 0;
        }
        if x.m > max {
            proof {
                lemma_doubled_grows(x.m as nat, x.e as nat);
            }
            max
        } else {
            double_up(x.m, x.e as u32, max)
        }
    } else {
        let n: u64 = (half_down(x.m, (-x.e - 1) as u32) + 1) / 2;
        if n > max {
            max
        } else {
            n
        }
    }
}

// ---------------------------------------------------------------------------
// Scaling down
// ---------------------------------------------------------------------------

proof fn lemma_halved_monotone(a: nat, b: nat, k: nat)
    requires
        a <= b,
    ensures
        halved(a, k) <= halved(b, k),
    decreases k,
{
    if k > 0 {
        lemma_halved_monotone(a / 2, b / 2, (k - 1) as nat);
    }
}

proof fn lemma_halved_split(m: nat, j: nat, k: nat)
    ensures
        halved(m, j + k) == halved(halved(m, j), k),
        halved(m, j) <= m,
        j > 0 ==> halved(m, j) <= m / 2,
    decreases j,
{
    if j > 0 {
        lemma_halved_split(m / 2, (j - 1) as nat, k);
    }
}

/// A number scaled up by doubling is the same number: halving takes it back.
proof fn lemma_scaled_up(n: nat, m: nat, e: int, k: nat)
    requires
        0 < m < HIGH,
        e == -(k as int),
        k <= 52,
        m >= p2(k),
        halved(m, k) == n,
        k > 0 ==> halved(m, (k - 1) as nat) == 2 * n,
        k == 0 ==> m == n,
    ensures
        ({
            let d = scaled_up(m, e);
            &&& d.wf()
            &&& d.m >= LOW
            &&& -52 <= d.e <= 0
            &&& rounded(d) == n
        }),
    decreases HIGH - m,
{
    if m < LOW {
        if k == 52 {
            lemma_p2_52();
        }
        assert(p2(k + 1) == 2 * p2(k));
        assert(halved(2 * m, (k + 1) as nat) == halved((2 * m) / 2, k));
        if k > 0 {
            assert(halved(2 * m, k) == halved(m, (k - 1) as nat));
        }
        lemma_scaled_up(n, 2 * m, e - 1, k + 1);
    } else {
        let d = scaled_up(m, e);
        assert(d.m == m && d.e == e);
        if k > 0 {
            assert(rounded(d) == (halved(m, (k - 1) as nat) + 1) / 2);
        } else {
            assert(rounded(d) == doubled(m, 0));
        }
    }
}

/// Among doubles with exponents that are not positive, one that is no larger
/// rounds to a whole number that is no larger.
proof fn lemma_rounded_monotone(a: Double, b: Double)
    requires
        a.m < HIGH,
        LOW <= b.m < HIGH,
        a.e < b.e || (a.e == b.e && a.m <= b.m),
        b.e <= 0,
        -500 <= a.e,
    ensures
        rounded(a) <= rounded(b),
{
    if a.e == b.e {
        if b.e < 0 {
            lemma_halved_monotone(a.m as nat, b.m as nat, (-b.e - 1) as nat);
        }
    } else {
        let j = (b.e - a.e) as nat;
        if b.e < 0 {
            let k = (-b.e - 1) as nat;
            lemma_halved_split(a.m as nat, j, k);
            lemma_halved_monotone(halved(a.m as nat, j), b.m as nat, k);
            assert(j + k == -a.e - 1);
        } else {
            let k = (j - 1) as nat;
            lemma_halved_split(a.m as nat, k, 0);
            assert(rounded(a) == (halved(a.m as nat, k) + 1) / 2);
            assert(rounded(b) == doubled(b.m as nat, 0));
        }
    }
}

/// A whole number times a factor of at most one rounds to no more than itself.
pub proof fn lemma_scaling_never_enlarges(n: nat, x: Double)
    requires
        0 < n < HIGH,
        x.wf(),
        -200 <= x.e,
        !less(one(), x),
    ensures
        rounded(product(of_nat(n), x)) <= n,
{
    assert(p2(0) == 1);
    lemma_scaled_up(n, n, 0, 0);
    let a = of_nat(n);
    let r = product(a, x);
    let p = (a.m * x.m) as nat;
    if x.m == 0 {
        assert(p == 0) by (nonlinear_arith)
            requires
                p == a.m * x.m,
                x.m == 0,
        ;
        assert(rounded(r) == doubled(0, 0));
    } else {
        assert(LOW * LOW <= p < HIGH * HIGH) by (nonlinear_arith)
            requires
                p == a.m * x.m,
                LOW <= a.m < HIGH,
                LOW <= x.m < HIGH,
        ;
        if x.e == -52 {
            assert(x.m == LOW);
            assert(nearest(p, LOW as nat) == a.m) by (nonlinear_arith)
                requires
                    p == a.m * LOW,
                    LOW > 0,
            ;
            assert(p < LOW * HIGH) by (nonlinear_arith)
                requires
                    p == a.m * LOW,
                    a.m < HIGH,
            ;
            assert(r == a);
        } else if p < LOW * HIGH {
            let q = nearest(p, LOW as nat);
            assert(q <= HIGH) by (nonlinear_arith)
                requires
                    p < LOW * HIGH,
                    q <= p / (LOW as nat) + 1,
                    LOW > 0,
            ;
            assert(r.e < a.e || (r.e == a.e && r.m == LOW));
            lemma_rounded_monotone(r, a);
        } else {
            let q = nearest(p, HIGH as nat);
            assert(q <= a.m) by (nonlinear_arith)
                requires
                    p == a.m * x.m,
                    x.m <= HIGH - 1,
                    q <= p / (HIGH as nat) + 1,
                    a.m > 0,
                    HIGH > 0,
            ;
            lemma_rounded_monotone(r, a);
        }
    }
}

/// The double nearest to a whole number is well-formed.
pub proof fn lemma_of_nat(n: nat)
    requires
        0 < n <= u64::MAX,
    ensures
        of_nat(n).wf(),
        of_nat(n).m > 0,
        -52 <= of_nat(n).e <= 12,
{
    if n < HIGH {
        assert(p2(0) == 1);
        lemma_scaled_up(n, n, 0, 0);
    } else {
        assert(p2((1 - 1) as nat) == 1);
        assert(n / 1 == n);
        lemma_excess(n, 1);
    }
}

proof fn lemma_scaled_up_monotone(x: nat, y: nat, e: int)
    requires
        0 < x <= y < HIGH,
        -52 <= e <= 0,
        p2((-e) as nat) <= x,
    ensures
        !less(scaled_up(y, e), scaled_up(x, e)),
        scaled_up(x, e).e <= e,
    decreases HIGH - x,
{
    if x < LOW {
        if e == -52 {
            lemma_p2_52();
        }
        assert(p2((1 - e) as nat) == 2 * p2((-e) as nat));
        if y < LOW {
            lemma_scaled_up_monotone(2 * x, 2 * y, e - 1);
        } else {
            lemma_scaled_up_monotone(2 * x, 2 * x, e - 1);
        }
    }
}

/// A larger whole number has no smaller a double.
pub proof fn lemma_of_nat_monotone(x: nat, y: nat)
    requires
        0 < x <= y <= u64::MAX,
        x < HIGH,
    ensures
        !less(of_nat(y), of_nat(x)),
{
    assert(p2(0) == 1);
    if y < HIGH {
        lemma_scaled_up_monotone(x, y, 0);
    } else {
        lemma_scaled_up_monotone(x, x, 0);
        assert(p2((1 - 1) as nat) == 1);
        assert(y / 1 == y);
        lemma_excess(y, 1);
        lemma_of_nat(y);
    }
}

/// A double divided by one that is no larger is at least one.
pub proof fn lemma_quotient_at_least_one(a: Double, b: Double)
    requires
        a.wf(),
        b.wf(),
        a.m > 0,
        b.m > 0,
        -100 <= a.e <= 100,
        -100 <= b.e <= 100,
        !less(a, b),
    ensures
        !less(quotient(a, b), one()),
{
    lemma_quotient(a, b);
}

/// A whole number times one is that number.
pub proof fn lemma_times_one(n: nat)
    requires
        0 < n < HIGH,
    ensures
        rounded(product(of_nat(n), one())) == n,
{
    assert(p2(0) == 1);
    lemma_scaled_up(n, n, 0, 0);
    let a = of_nat(n);
    let p = (a.m * LOW) as nat;
    assert(nearest(p, LOW as nat) == a.m) by (nonlinear_arith)
        requires
            p == a.m * LOW,
            LOW > 0,
    ;
    assert(0 < p < LOW * HIGH) by (nonlinear_arith)
        requires
            p == a.m * LOW,
            0 < a.m < HIGH,
            LOW > 0,
    ;
    assert(product(a, one()) == a);
}

/// The quotient of two doubles is well-formed.
pub proof fn lemma_quotient(a: Double, b: Double)
    requires
        a.wf(),
        b.wf(),
        a.m > 0,
        b.m > 0,
        -100 <= a.e <= 100,
        -100 <= b.e <= 100,
    ensures
        quotient(a, b).wf(),
        quotient(a, b).m > 0,
        a.e - b.e - 53 <= quotient(a, b).e <= a.e - b.e - 52,
{
    if a.m >= b.m {
        lemma_quotient_range(a.m as int, b.m as int, LOW as int);
    } else {
        lemma_quotient_range(a.m as int, b.m as int, HIGH as int);
    }
}

} // verus!
