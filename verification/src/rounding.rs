//! Rounding of exact dyadic values `m * 2^e` to binary32, nearest with ties to even.
use vstd::prelude::*;
use vstd::arithmetic::power2::*;
use vstd::arithmetic::div_mod::*;
use vstd::bits::*;

verus! {

/// Encoding of positive infinity; also the magnitude of negative infinity.
pub const INFINITY_BITS: u32 = 0x7f80_0000;

/// Smallest exponent of a binary32 quantum: subnormals are multiples of `2^-149`.
pub const MIN_QUANTUM: i32 = -149;

/// Number of binary digits of `m`: the least `k` with `m < 2^k`.
pub open spec fn bit_len(m: nat) -> nat
    decreases m,
{
    if m == 0 {
        0
    } else {
        1 + bit_len(m / 2)
    }
}

/// The integer nearest to `n / d`; a tie goes to the even neighbour.
pub open spec fn nearest_even(n: nat, d: nat) -> nat {
    let q = n / d;
    let r = n % d;
    if 2 * r > d || (2 * r == d && q % 2 == 1) {
        q + 1
    } else {
        q
    }
}

/// Exponent of the unit in the last place that binary32 offers for `m * 2^e`:
/// 24 significant digits, but no finer than `2^-149`.
pub open spec fn quantum(m: nat, e: int) -> int {
    let q = e + bit_len(m) - 24;
    if q < MIN_QUANTUM {
        MIN_QUANTUM as int
    } else {
        q
    }
}

/// `m * 2^e` counted in units of its quantum and rounded to an integer.
pub open spec fn rounded_units(m: nat, e: int) -> nat {
    let q = quantum(m, e);
    if e >= q {
        m * pow2((e - q) as nat)
    } else {
        nearest_even(m, pow2((q - e) as nat))
    }
}

/// Encoding, without sign, of `m * 2^e` rounded to binary32.
///
/// With `t` units of quantum `2^q` the encoding is `(q + 149) * 2^23 + t`:
/// for a subnormal (`q == -149`, `t < 2^23`) this is `t`, for a normal number
/// the biased exponent `q + 150` over the 23 fraction bits, and `t == 2^24`
/// carries into the next exponent. Whatever reaches the encoding of infinity
/// is infinity.
pub open spec fn round_magnitude(m: nat, e: int) -> u32 {
    if m == 0 {
        0
    } else {
        let packed = (quantum(m, e) + 149) * 0x80_0000 + rounded_units(m, e);
        if packed >= INFINITY_BITS {
            INFINITY_BITS
        } else {
            packed as u32
        }
    }
}

/// A number of `k` digits lies between `2^(k-1)` and `2^k`.
pub proof fn lemma_bit_len_bounds(m: nat)
    requires
        m > 0,
    ensures
        bit_len(m) >= 1,
        pow2((bit_len(m) - 1) as nat) <= m < pow2(bit_len(m)),
    decreases m,
{
    lemma2_to64();
    if m == 1 {
        assert(bit_len(0) == 0);
        assert(bit_len(1) == 1 + bit_len(0));
    } else {
        lemma_bit_len_bounds(m / 2);
        let k = bit_len(m / 2);
        assert(bit_len(m) == k + 1);
        lemma_pow2_unfold(k);
        lemma_pow2_unfold(k + 1);
    }
}

/// A number between `2^(k-1)` and `2^k` has `k` digits.
pub proof fn lemma_bit_len_unique(m: nat, k: nat)
    requires
        k >= 1,
        pow2((k - 1) as nat) <= m < pow2(k),
    ensures
        bit_len(m) == k,
{
    lemma_pow2_pos((k - 1) as nat);
    lemma_bit_len_bounds(m);
    let j = bit_len(m);
    if j < k {
        if j < k - 1 {
            lemma_pow2_strictly_increases(j, (k - 1) as nat);
        }
    } else if j > k {
        if k < j - 1 {
            lemma_pow2_strictly_increases(k, (j - 1) as nat);
        }
    }
}

/// A number below `2^k` has at most `k` digits.
pub proof fn lemma_bit_len_at_most(m: nat, k: nat)
    requires
        m < pow2(k),
    ensures
        bit_len(m) <= k,
{
    if m > 0 {
        lemma_bit_len_bounds(m);
        if bit_len(m) > k + 1 {
            lemma_pow2_strictly_increases(k, (bit_len(m) - 1) as nat);
        }
    }
}

/// `nearest_even(n, d)` is `x` whenever `n / d` is closer to `x` than half a unit.
pub proof fn lemma_nearest_even_within_half(n: nat, d: nat, x: nat)
    requires
        d > 0,
        2 * (n - x * d) < d,
        2 * (x * d - n) < d,
    ensures
        nearest_even(n, d) == x,
{
    lemma_fundamental_div_mod(n as int, d as int);
    let q = n / d;
    let r = n % d;
    assert(n == d * q + r);
    assert(0 <= r < d);
    if n >= x * d {
        assert(q == x) by (nonlinear_arith)
            requires
                n == d * q + r,
                0 <= r < d,
                n >= x * d,
                2 * (n - x * d) < d,
        ;
        assert(d * q == x * d) by (nonlinear_arith)
            requires
                q == x,
        ;
    } else {
        assert(q + 1 == x) by (nonlinear_arith)
            requires
                n == d * q + r,
                0 <= r < d,
                n < x * d,
                2 * (x * d - n) < d,
        ;
        assert(d * q + d == x * d) by (nonlinear_arith)
            requires
                q + 1 == x,
        ;
    }
}

/// Counts the binary digits of `m`.
pub fn bit_length(m: u64) -> (k: u32)
    ensures
        k == bit_len(m as nat),
        k <= 64,
        m > 0 ==> k >= 1 && pow2((k - 1) as nat) <= m < pow2(k as nat),
{
    let mut k: u32 = 0;
    let mut x: u64 = m;
    proof {
        lemma2_to64();
        if m > 0 {
            lemma_bit_len_bounds(m as nat);
            if bit_len(m as nat) > 64 {
                if bit_len(m as nat) > 65 {
                    lemma_pow2_strictly_increases(64, (bit_len(m as nat) - 1) as nat);
                }
            }
        }
    }
    while x != 0
        invariant
            k + bit_len(x as nat) == bit_len(m as nat),
            bit_len(m as nat) <= 64,
        decreases x,
    {
        x = x / 2;
        k = k + 1;
    }
    k
}

/// Divides `n` by `d` and rounds to the nearest integer, a tie to the even one.
pub fn nearest_even_quotient(n: u64, d: u64) -> (t: u64)
    requires
        0 < d <= 0x8000_0000_0000_0000,
    ensures
        t == nearest_even(n as nat, d as nat),
        t <= n,
{
    let q: u64 = n / d;
    let r: u64 = n % d;
    proof {
        lemma_fundamental_div_mod(n as int, d as int);
        assert(q <= n && (q < n || r == 0)) by (nonlinear_arith)
            requires
                n == d * q + r,
                d >= 1,
                r >= 0,
        ;
    }
    if 2 * r > d || (2 * r == d && q % 2 == 1) {
        proof {
            lemma_fundamental_div_mod(n as int, d as int);
            assert(d * q + r <= u64::MAX);
            assert(q < u64::MAX) by (nonlinear_arith)
                requires
                    d * q + r <= u64::MAX,
                    2 * r >= d,
                    d > 0,
            ;
        }
        q + 1
    } else {
        q
    }
}

/// Rounds `m * 2^e` to binary32 and returns the encoding without sign.
pub fn round_pack(m: u64, e: i32) -> (bits: u32)
    requires
        -100_000 <= e <= 100_000,
    ensures
        bits == round_magnitude(m as nat, e as int),
{
    if m == 0 {
        return 0;
    }
    let k: i32 = bit_length(m) as i32;
    let q: i32 = if e + k - 24 < MIN_QUANTUM {
        MIN_QUANTUM
    } else {
        e + k - 24
    };
    assert(q == quantum(m as nat, e as int));
    if q > 105 {
        return INFINITY_BITS;
    }
    let t: u64 = if e >= q {
        let up: u64 = (e - q) as u64;
        proof {
            lemma2_to64();
            lemma_pow2_adds(k as nat, up as nat);
            if k + up < 24 {
                lemma_pow2_strictly_increases((k + up) as nat, 24);
            }
            lemma_pow2_pos(up as nat);
            assert(m * pow2(up as nat) < pow2(k as nat) * pow2(up as nat)) by (nonlinear_arith)
                requires
                    m < pow2(k as nat),
                    pow2(up as nat) > 0,
            ;
            lemma_u64_shl_is_mul(m, up);
        }
        m << up
    } else {
        let down: u64 = (q - e) as u64;
        if down >= 64 {
            proof {
                lemma2_to64();
                lemma2_to64_rest();
                if down > 64 {
                    lemma_pow2_strictly_increases(64, down as nat);
                }
                let d = pow2(down as nat);
                lemma_small_mod(m as nat, d);
                lemma_basic_div(m as int, d as int);
                if down > 64 {
                    lemma_pow2_unfold(down as nat);
                    if down > 65 {
                        lemma_pow2_strictly_increases(64, (down - 1) as nat);
                    }
                }
            }
            if down == 64 && m > 0x8000_0000_0000_0000 {
                1
            } else {
                0
            }
        } else {
            proof {
                lemma2_to64();
                lemma2_to64_rest();
                lemma_u64_pow2_no_overflow(down as nat);
                lemma_u64_shl_is_mul(1, down);
                if down < 63 {
                    lemma_pow2_strictly_increases(down as nat, 63);
                }
            }
            nearest_even_quotient(m, 1u64 << down)
        }
    };
    assert(t == rounded_units(m as nat, e as int));
    proof {
        lemma2_to64();
        lemma2_to64_rest();
        lemma_round_units_bound(m as nat, e as int);
    }
    let packed: u64 = (q + 149) as u64 * 0x80_0000 + t;
    if packed >= 0x7f80_0000 {
        INFINITY_BITS
    } else {
        packed as u32
    }
}

/// A rounded value never has more than 24 digits, up to the carry `2^24`.
pub proof fn lemma_round_units_bound(m: nat, e: int)
    requires
        m > 0,
    ensures
        rounded_units(m, e) <= 0x100_0000,
        quantum(m, e) > MIN_QUANTUM ==> rounded_units(m, e) >= 0x80_0000,
{
    lemma2_to64();
    lemma_bit_len_bounds(m);
    let k = bit_len(m);
    let q = quantum(m, e);
    if e >= q {
        let up = (e - q) as nat;
        lemma_pow2_adds(k, up);
        lemma_pow2_pos(up);
        if k + up < 24 {
            lemma_pow2_strictly_increases(k + up, 24);
        }
        assert(m * pow2(up) < pow2(k) * pow2(up)) by (nonlinear_arith)
            requires
                m < pow2(k),
                pow2(up) > 0,
        ;
        if q > MIN_QUANTUM {
            assert(k + up == 24);
            lemma_pow2_adds((k - 1) as nat, up);
            assert(m * pow2(up) >= pow2((k - 1) as nat) * pow2(up)) by (nonlinear_arith)
                requires
                    m >= pow2((k - 1) as nat),
                    pow2(up) > 0,
            ;
        }
    } else {
        let down = (q - e) as nat;
        let d = pow2(down);
        lemma_pow2_pos(down);
        lemma_fundamental_div_mod(m as int, d as int);
        let fl = m / d;
        let r = m % d;
        // m < 2^k and k - down <= 24, so m / d < 2^24
        if k >= down {
            lemma_pow2_adds((k - down) as nat, down);
            if k - down < 24 {
                lemma_pow2_strictly_increases((k - down) as nat, 24);
            }
            assert(fl < pow2((k - down) as nat)) by (nonlinear_arith)
                requires
                    m == d * fl + r,
                    0 <= r,
                    d > 0,
                    m < pow2((k - down) as nat) * d,
            ;
        } else {
            lemma_pow2_strictly_increases(k, down);
            lemma_basic_div(m as int, d as int);
        }
        if q > MIN_QUANTUM {
            assert(k - down == 24);
            lemma_pow2_adds(23, down);
            assert(fl >= pow2(23)) by (nonlinear_arith)
                requires
                    m == d * fl + r,
                    r < d,
                    d > 0,
                    m >= pow2(23) * d,
            ;
        }
    }
}

/// Multiplying by `2^j` adds `j` digits.
pub proof fn lemma_bit_len_scaled(m: nat, j: nat)
    requires
        m > 0,
    ensures
        bit_len(m * pow2(j)) == bit_len(m) + j,
{
    lemma_bit_len_bounds(m);
    let k = bit_len(m);
    lemma_pow2_adds((k - 1) as nat, j);
    lemma_pow2_adds(k, j);
    lemma_pow2_pos(j);
    assert(m * pow2(j) < pow2(k) * pow2(j)) by (nonlinear_arith)
        requires
            m < pow2(k),
            pow2(j) > 0,
    ;
    assert(m * pow2(j) >= pow2((k - 1) as nat) * pow2(j)) by (nonlinear_arith)
        requires
            m >= pow2((k - 1) as nat),
            pow2(j) > 0,
    ;
    lemma_bit_len_unique(m * pow2(j), k + j);
}

/// The rounded quotient lies within half a unit of `n / d`, and where it
/// lies exactly half a unit off it is even.
pub proof fn lemma_nearest_even_is_nearest(n: nat, d: nat)
    requires
        d > 0,
    ensures
        2 * (nearest_even(n, d) * d - n) <= d,
        2 * (n - nearest_even(n, d) * d) <= d,
        2 * (nearest_even(n, d) * d - n) == d || 2 * (n - nearest_even(n, d) * d) == d
            ==> nearest_even(n, d) % 2 == 0,
{
    lemma_fundamental_div_mod(n as int, d as int);
    let q = n / d;
    let r = n % d;
    assert(q * d == d * q) by (nonlinear_arith);
    assert((q + 1) * d == d * q + d) by (nonlinear_arith);
}

/// A quotient without remainder is not changed by rounding.
pub proof fn lemma_nearest_even_of_multiple(x: nat, d: nat)
    requires
        d > 0,
    ensures
        nearest_even(x * d, d) == x,
{
    lemma_div_by_multiple(x as int, d as int);
    lemma_mod_multiples_basic(x as int, d as int);
}

/// Rounding a quotient does not depend on a common factor.
pub proof fn lemma_nearest_even_cancels(n: nat, d: nat, c: nat)
    requires
        d > 0,
        c > 0,
    ensures
        nearest_even(n * c, d * c) == nearest_even(n, d),
{
    lemma_fundamental_div_mod(n as int, d as int);
    let q = n / d;
    let r = n % d;
    assert(n * c == q * (d * c) + r * c) by (nonlinear_arith)
        requires
            n == d * q + r,
    ;
    assert(0 <= r * c < d * c) by (nonlinear_arith)
        requires
            0 <= r < d,
            c > 0,
    ;
    lemma_fundamental_div_mod_converse((n * c) as int, (d * c) as int, q as int, (r * c) as int);
    assert(2 * (r * c) > d * c <==> 2 * r > d) by (nonlinear_arith)
        requires
            c > 0,
    ;
    assert(2 * (r * c) == d * c <==> 2 * r == d) by (nonlinear_arith)
        requires
            c > 0,
    ;
}

/// Rounding depends on the value alone: `(m * 2^j) * 2^e` and `m * 2^(e + j)`
/// round alike.
pub proof fn lemma_round_scaled(m: nat, j: nat, e: int)
    ensures
        round_magnitude(m * pow2(j), e) == round_magnitude(m, e + j),
{
    lemma_pow2_pos(j);
    if m == 0 {
        assert(m * pow2(j) == 0) by (nonlinear_arith)
            requires
                m == 0,
        ;
    } else {
        let wide = m * pow2(j);
        assert(wide > 0) by (nonlinear_arith)
            requires
                wide == m * pow2(j),
                m > 0,
                pow2(j) > 0,
        ;
        lemma_bit_len_scaled(m, j);
        let q = quantum(m, e + j);
        assert(quantum(wide, e) == q);
        if e >= q {
            let up = (e - q) as nat;
            lemma_pow2_adds(j, up);
            assert(wide * pow2(up) == m * (pow2(j) * pow2(up))) by (nonlinear_arith)
                requires
                    wide == m * pow2(j),
            ;
        } else if e + j >= q {
            let down = (q - e) as nat;
            let up = (e + j - q) as nat;
            lemma_pow2_adds(up, down);
            lemma_pow2_pos(down);
            assert(wide == (m * pow2(up)) * pow2(down)) by (nonlinear_arith)
                requires
                    wide == m * pow2(j),
                    pow2(j) == pow2(up) * pow2(down),
            ;
            lemma_nearest_even_of_multiple(m * pow2(up), pow2(down));
        } else {
            let down = (q - e - j) as nat;
            lemma_pow2_adds(down, j);
            lemma_pow2_pos(down);
            lemma_nearest_even_cancels(m, pow2(down), pow2(j));
        }
    }
}

/// Number of binary digits of the ratio `n / d`, negative for small ratios:
/// the `k` with `2^(k-1) <= n / d < 2^k`.
pub open spec fn ratio_len(n: nat, d: nat) -> int {
    let k = bit_len(n) - bit_len(d);
    if n * pow2(bit_len(d)) >= d * pow2(bit_len(n)) {
        k + 1
    } else {
        k
    }
}

/// Exponent of the unit in the last place that binary32 offers for `(n / d) * 2^e`.
pub open spec fn ratio_quantum(n: nat, d: nat, e: int) -> int {
    let q = e + ratio_len(n, d) - 24;
    if q < MIN_QUANTUM {
        MIN_QUANTUM as int
    } else {
        q
    }
}

/// `(n / d) * 2^e` counted in units of its quantum and rounded to an integer.
pub open spec fn rounded_ratio_units(n: nat, d: nat, e: int) -> nat {
    let q = ratio_quantum(n, d, e);
    if e >= q {
        nearest_even(n * pow2((e - q) as nat), d)
    } else {
        nearest_even(n, d * pow2((q - e) as nat))
    }
}

/// Encoding, without sign, of `(n / d) * 2^e` rounded to binary32, for `d > 0`.
pub open spec fn round_ratio(n: nat, d: nat, e: int) -> u32 {
    if n == 0 {
        0
    } else {
        let packed = (ratio_quantum(n, d, e) + 149) * 0x80_0000 + rounded_ratio_units(n, d, e);
        if packed >= INFINITY_BITS {
            INFINITY_BITS
        } else {
            packed as u32
        }
    }
}

/// Over the denominator one, rounding a ratio is rounding the dyadic value.
pub proof fn lemma_round_ratio_of_integer(m: nat, e: int)
    ensures
        round_ratio(m, 1, e) == round_magnitude(m, e),
{
    lemma2_to64();
    assert(bit_len(0) == 0);
    assert(bit_len(1) == 1 + bit_len(0));
    if m > 0 {
        lemma_bit_len_bounds(m);
        lemma_pow2_unfold(bit_len(m));
        assert(ratio_len(m, 1) == bit_len(m));
        let q = quantum(m, e);
        if e >= q {
            let n = m * pow2((e - q) as nat);
            lemma_fundamental_div_mod(n as int, 1);
            assert(nearest_even(n, 1) == n);
        } else {
            let d = pow2((q - e) as nat);
            assert(1 * d == d);
        }
    }
}

/// Rounds `(n / d) * 2^e` to binary32 and returns the encoding without sign.
pub fn round_ratio_pack(n: u32, d: u32, e: i32) -> (bits: u32)
    requires
        n < 0x100_0000,
        0 < d < 0x100_0000,
        -100_000 <= e <= 100_000,
    ensures
        bits == round_ratio(n as nat, d as nat, e as int),
{
    if n == 0 {
        return 0;
    }
    let kn: u32 = bit_length(n as u64);
    let kd: u32 = bit_length(d as u64);
    proof {
        lemma2_to64();
        lemma2_to64_rest();
        if kn > 24 {
            if kn > 25 {
                lemma_pow2_strictly_increases(24, (kn - 1) as nat);
            }
        }
        if kd > 24 {
            if kd > 25 {
                lemma_pow2_strictly_increases(24, (kd - 1) as nat);
            }
        }
        assert(kn <= 24 && kd <= 24);
        lemma_pow2_adds(kn as nat, kd as nat);
        if kn + kd < 48 {
            lemma_pow2_strictly_increases((kn + kd) as nat, 48);
        }
        lemma_pow2_pos(kn as nat);
        lemma_pow2_pos(kd as nat);
        assert(n * pow2(kd as nat) < pow2(kn as nat) * pow2(kd as nat)) by (nonlinear_arith)
            requires
                n < pow2(kn as nat),
                pow2(kd as nat) > 0,
        ;
        assert(d * pow2(kn as nat) < pow2(kn as nat) * pow2(kd as nat)) by (nonlinear_arith)
            requires
                d < pow2(kd as nat),
                pow2(kn as nat) > 0,
        ;
        lemma_u64_shl_is_mul(n as u64, kd as u64);
        lemma_u64_shl_is_mul(d as u64, kn as u64);
    }
    let more: i32 = if ((n as u64) << (kd as u64)) >= ((d as u64) << (kn as u64)) {
        1
    } else {
        0
    };
    let len: i32 = kn as i32 - kd as i32 + more;
    assert(len == ratio_len(n as nat, d as nat));
    let q: i32 = if e + len - 24 < MIN_QUANTUM {
        MIN_QUANTUM
    } else {
        e + len - 24
    };
    if q > 105 {
        proof {
            assert(rounded_ratio_units(n as nat, d as nat, e as int) >= 0);
        }
        return INFINITY_BITS;
    }
    let t: u64 = if e >= q {
        let up: u64 = (e - q) as u64;
        proof {
            lemma_pow2_adds(kn as nat, up as nat);
            if kn + up < 48 {
                lemma_pow2_strictly_increases((kn + up) as nat, 48);
            }
            lemma_pow2_pos(up as nat);
            assert(n * pow2(up as nat) < pow2(kn as nat) * pow2(up as nat)) by (nonlinear_arith)
                requires
                    n < pow2(kn as nat),
                    pow2(up as nat) > 0,
            ;
            lemma_u64_shl_is_mul(n as u64, up);
        }
        nearest_even_quotient((n as u64) << up, d as u64)
    } else {
        let down: u64 = (q - e) as u64;
        if down > 25 {
            proof {
                lemma_pow2_strictly_increases(25, down as nat);
                let wide = d * pow2(down as nat);
                assert(wide >= pow2(down as nat)) by (nonlinear_arith)
                    requires
                        wide == d * pow2(down as nat),
                        d >= 1,
                ;
                lemma_small_mod(n as nat, wide as nat);
                lemma_basic_div(n as int, wide as int);
            }
            0
        } else {
            proof {
                if down < 25 {
                    lemma_pow2_strictly_increases(down as nat, 25);
                }
                lemma_pow2_pos(down as nat);
                assert(d * pow2(down as nat) < 0x100_0000 * 0x200_0000) by (nonlinear_arith)
                    requires
                        d < 0x100_0000,
                        0 < pow2(down as nat) <= 0x200_0000,
                ;
                assert(d * pow2(down as nat) > 0) by (nonlinear_arith)
                    requires
                        d > 0,
                        pow2(down as nat) > 0,
                ;
                lemma_u64_shl_is_mul(d as u64, down);
            }
            nearest_even_quotient(n as u64, (d as u64) << down)
        }
    };
    assert(t == rounded_ratio_units(n as nat, d as nat, e as int));
    let packed: u64 = (q + 149) as u64 * 0x80_0000 + t;
    if packed >= 0x7f80_0000 {
        INFINITY_BITS
    } else {
        packed as u32
    }
}

/// `r` is the integer part of the square root of `n`.
pub open spec fn is_floor_sqrt(n: nat, r: nat) -> bool {
    r * r <= n < (r + 1) * (r + 1)
}

/// The integer part of the square root of `n`.
pub open spec fn floor_sqrt(n: nat) -> nat {
    choose|r: nat| is_floor_sqrt(n, r)
}

/// Every number has an integer square root.
pub proof fn lemma_floor_sqrt(n: nat)
    ensures
        is_floor_sqrt(n, floor_sqrt(n)),
    decreases n,
{
    if n == 0 {
        let z: nat = 0;
        assert(z * z == 0 && (z + 1) * (z + 1) == 1) by (nonlinear_arith)
            requires
                z == 0,
        ;
        assert(is_floor_sqrt(n, z));
    } else {
        lemma_floor_sqrt((n - 1) as nat);
        let r = floor_sqrt((n - 1) as nat);
        if (r + 1) * (r + 1) <= n {
            assert((r + 1) * (r + 1) < (r + 2) * (r + 2)) by (nonlinear_arith);
            assert(is_floor_sqrt(n, r + 1));
        } else {
            assert(is_floor_sqrt(n, r));
        }
    }
}

/// The root of a number of 47 or 48 digits, rounded, has 24 digits, up to the carry `2^24`.
pub proof fn lemma_nearest_sqrt_bounds(n: nat)
    requires
        0x4000_0000_0000 <= n < 0x1_0000_0000_0000,
    ensures
        0x80_0000 <= nearest_sqrt(n) <= 0x100_0000,
{
    lemma_floor_sqrt(n);
    let f = floor_sqrt(n);
    assert(0x80_0000 <= f < 0x100_0000) by (nonlinear_arith)
        requires
            f * f <= n < (f + 1) * (f + 1),
            0x80_0000 * 0x80_0000 <= n < 0x100_0000 * 0x100_0000,
    ;
}

/// A number has one integer square root.
pub proof fn lemma_floor_sqrt_unique(n: nat, r: nat)
    requires
        is_floor_sqrt(n, r),
    ensures
        floor_sqrt(n) == r,
{
    let s = floor_sqrt(n);
    assert(is_floor_sqrt(n, s));
    assert(s == r) by (nonlinear_arith)
        requires
            r * r <= n < (r + 1) * (r + 1),
            s * s <= n < (s + 1) * (s + 1),
    ;
}

/// The integer nearest to the square root of `n`; a tie cannot occur.
pub open spec fn nearest_sqrt(n: nat) -> nat {
    let f = floor_sqrt(n);
    if n > f * f + f {
        f + 1
    } else {
        f
    }
}

/// Computes the integer nearest to the square root of `n`.
pub fn nearest_square_root(n: u64) -> (t: u64)
    requires
        n < 0x1_0000_0000_0000,
    ensures
        t == nearest_sqrt(n as nat),
        t <= 0x100_0000,
        n >= 0x4000_0000_0000 ==> t >= 0x80_0000,
{
    let mut lo: u64 = 0;
    let mut hi: u64 = 0x100_0000;
    while hi - lo > 1
        invariant
            lo < hi <= 0x100_0000,
            lo * lo <= n < hi * hi,
        decreases hi - lo,
    {
        let mid: u64 = lo + (hi - lo) / 2;
        assert(mid * mid < 0x100_0000 * 0x100_0000) by (nonlinear_arith)
            requires
                mid < 0x100_0000,
        ;
        if mid * mid <= n {
            lo = mid;
        } else {
            hi = mid;
        }
    }
    proof {
        assert(is_floor_sqrt(n as nat, lo as nat));
        lemma_floor_sqrt_unique(n as nat, lo as nat);
        assert(lo * lo + lo < 0x100_0000 * 0x100_0000) by (nonlinear_arith)
            requires
                lo < 0x100_0000,
        ;
        if n >= 0x4000_0000_0000 {
            assert(lo >= 0x80_0000) by (nonlinear_arith)
                requires
                    n < (lo + 1) * (lo + 1),
                    n >= 0x80_0000 * 0x80_0000,
            ;
        }
    }
    if n > lo * lo + lo {
        lo + 1
    } else {
        lo
    }
}

} // verus!
