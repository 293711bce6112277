//! Binary64 numbers held by their bit patterns, with exact comparisons.
use vstd::arithmetic::power2::{lemma_pow2_pos, pow2};
use vstd::bits::lemma_u64_shr_is_div;
use vstd::prelude::*;

verus! {

/// The outcome of a comparison.
#[derive(Debug, Clone, Copy, PartialEq, Eq, Structural)]
pub enum Rank {
    Less,
    Equal,
    Greater,
}

/// How `a` compares with `b`.
pub open spec fn rank_of(a: int, b: int) -> Rank {
    if a < b {
        Rank::Less
    } else if a == b {
        Rank::Equal
    } else {
        Rank::Greater
    }
}

impl Rank {
    /// The outcome of the comparison the other way round.
    pub open spec fn flipped(self) -> Rank {
        match self {
            Rank::Less => Rank::Greater,
            Rank::Equal => Rank::Equal,
            Rank::Greater => Rank::Less,
        }
    }

    pub fn reverse(self) -> (r: Rank)
        ensures
            r == self.flipped(),
    {
        match self {
            Rank::Less => Rank::Greater,
            Rank::Equal => Rank::Equal,
            Rank::Greater => Rank::Less,
        }
    }
}

/// An IEEE 754 binary64 number, held by its bit pattern.
#[derive(Debug, Clone, Copy)]
pub struct Real {
    pub bits: u64,
}

/// The bits without the sign.
pub open spec fn magnitude(bits: u64) -> int {
    if bits < 0x8000_0000_0000_0000 {
        bits as int
    } else {
        bits - 0x8000_0000_0000_0000
    }
}

/// The sign bit is set.
pub open spec fn negative(bits: u64) -> bool {
    bits >= 0x8000_0000_0000_0000
}

/// The bits stand for no number.
pub open spec fn is_nan(bits: u64) -> bool {
    magnitude(bits) > 0x7FF0_0000_0000_0000
}

/// A number that orders binary64 numbers: sign and magnitude read as one integer. Both zeroes get
/// the same.
pub open spec fn order_key(bits: u64) -> int {
    if negative(bits) {
        -magnitude(bits)
    } else {
        magnitude(bits)
    }
}

/// How two binary64 numbers compare, if both are numbers.
pub open spec fn rank_reals(a: u64, b: u64) -> Option<Rank> {
    if is_nan(a) || is_nan(b) {
        None
    } else {
        Some(rank_of(order_key(a), order_key(b)))
    }
}

/// The significand of a finite number, with the hidden bit.
pub open spec fn significand(bits: u64) -> int {
    let mag = magnitude(bits);
    if mag < 0x10_0000_0000_0000 {
        mag
    } else {
        mag % 0x10_0000_0000_0000 + 0x10_0000_0000_0000
    }
}

/// The exponent of a finite number: its absolute value is `significand * 2^exponent`.
pub open spec fn exponent(bits: u64) -> int {
    let mag = magnitude(bits);
    if mag < 0x10_0000_0000_0000 {
        -1074
    } else {
        mag / 0x10_0000_0000_0000 - 1075
    }
}

/// How the natural number `n` compares with `m * 2^e`.
pub open spec fn rank_scaled(n: int, m: int, e: int) -> Rank {
    if e >= 0 {
        rank_of(n, m * pow2(e as nat))
    } else {
        rank_of(n * pow2((-e) as nat), m)
    }
}

/// How an integer compares with a binary64 number, by their exact values.
pub open spec fn rank_int_real(n: int, bits: u64) -> Option<Rank> {
    let m = significand(bits);
    let e = exponent(bits);
    if is_nan(bits) {
        None
    } else if magnitude(bits) == 0x7FF0_0000_0000_0000 {
        Some(
            if negative(bits) {
                Rank::Greater
            } else {
                Rank::Less
            },
        )
    } else if m == 0 {
        Some(rank_of(n, 0))
    } else if negative(bits) {
        Some(
            if n >= 0 {
                Rank::Greater
            } else {
                rank_scaled(-n, m, e).flipped()
            },
        )
    } else {
        Some(
            if n < 0 {
                Rank::Less
            } else {
                rank_scaled(n, m, e)
            },
        )
    }
}

fn rank_i128(a: i128, b: i128) -> (r: Rank)
    ensures
        r == rank_of(a as int, b as int),
{
    if a < b {
        Rank::Less
    } else if a == b {
        Rank::Equal
    } else {
        Rank::Greater
    }
}

/// `n` against a number below two to the 53rd divided by a power of two.
proof fn lemma_scaled_down(n: int, m: int, p: int)
    requires
        p > 0,
        m >= 0,
        n >= 0,
    ensures
        rank_of(n * p, m) == (if n == m / p && m % p != 0 {
            Rank::Less
        } else {
            rank_of(n, m / p)
        }),
{
    let q = m / p;
    let r = m % p;
    assert(m == q * p + r && 0 <= r < p) by (nonlinear_arith)
        requires
            p > 0,
            m >= 0,
            q == m / p,
            r == m % p,
    ;
    assert(n < q ==> n * p <= q * p - p) by (nonlinear_arith)
        requires
            p > 0,
    ;
    assert(n > q ==> n * p >= q * p + p) by (nonlinear_arith)
        requires
            p > 0,
    ;
}

/// How `n` compares with `m * 2^e`.
fn compare_scaled(n: u64, m: u64, e: i32) -> (r: Rank)
    requires
        0 < m < 0x20_0000_0000_0000,
        n <= 0x8000_0000_0000_0000,
        -1074 <= e <= 971,
        e >= 0 ==> m >= 0x10_0000_0000_0000,
    ensures
        r == rank_scaled(n as int, m as int, e as int),
{
    if e >= 0 {
        proof {
            lemma_pow2_pos(e as nat);
        }
        if e > 11 {
            proof {
                vstd::arithmetic::power2::lemma_pow2_strictly_increases(11, e as nat);
                vstd::arithmetic::power2::lemma2_to64();
                assert(m * pow2(e as nat) > 0x8000_0000_0000_0000) by (nonlinear_arith)
                    requires
                        m >= 0x10_0000_0000_0000,
                        pow2(e as nat) > 2048,
                ;
            }
            return Rank::Less;
        }
        let mut v: u128 = m as u128;
        let mut k: i32 = 0;
        proof {
            vstd::arithmetic::power2::lemma2_to64();
            assert(m * pow2(0) == m) by (nonlinear_arith)
                requires
                    pow2(0) == 1,
            ;
        }
        while k < e
            invariant
                0 <= k <= e <= 11,
                m < 0x20_0000_0000_0000,
                v == m * pow2(k as nat),
                v < 0x20_0000_0000_0000 * pow2(k as nat),
                pow2(k as nat) <= 2048,
            decreases e - k,
        {
            proof {
                vstd::arithmetic::power2::lemma_pow2_unfold((k + 1) as nat);
                vstd::arithmetic::power2::lemma2_to64();
                if k + 1 < 11 {
                    vstd::arithmetic::power2::lemma_pow2_strictly_increases((k + 1) as nat, 11);
                }
                assert(m * (2 * pow2(k as nat)) == 2 * (m * pow2(k as nat))) by (nonlinear_arith);
            }
            v = v * 2;
            k = k + 1;
        }
        rank_i128(n as i128, v as i128)
    } else {
        let sh: u32 = (-e) as u32;
        proof {
            lemma_pow2_pos(sh as nat);
            lemma_scaled_down(n as int, m as int, pow2(sh as nat) as int);
        }
        if sh >= 64 {
            proof {
                vstd::arithmetic::power2::lemma2_to64();
                vstd::arithmetic::power2::lemma2_to64_rest();
                if sh > 64 {
                    vstd::arithmetic::power2::lemma_pow2_strictly_increases(64, sh as nat);
                }
                assert(m as int / pow2(sh as nat) as int == 0 && m as int % pow2(sh as nat) as int
                    == m) by (nonlinear_arith)
                    requires
                        0 < m,
                        m < pow2(sh as nat),
                ;
            }
            if n == 0 {
                Rank::Less
            } else {
                Rank::Greater
            }
        } else {
            let q: u64 = m >> sh;
            proof {
                lemma_u64_shr_is_div(m, sh as u64);
                let p = pow2(sh as nat) as int;
                let r = m as int % p;
                assert(m == (m as int / p) * p + m as int % p && q * p <= m) by (nonlinear_arith)
                    requires
                        p > 0,
                        q == m as int / p,
                ;
                assert(m as int % p == m - q * p);
                vstd::arithmetic::power2::lemma2_to64();
                vstd::arithmetic::power2::lemma2_to64_rest();
                vstd::bits::lemma_u64_shl_is_mul(q, sh as u64);
            }
            let back: u64 = q << sh;
            if n == q && m != back {
                Rank::Less
            } else {
                rank_i128(n as i128, q as i128)
            }
        }
    }
}

impl Real {
    /// The number with this bit pattern.
    pub fn from_bits(bits: u64) -> (r: Real)
        ensures
            r.bits == bits,
    {
        Real { bits }
    }

    fn key(&self) -> (k: i128)
        ensures
            k == order_key(self.bits),
    {
        if self.bits >= 0x8000_0000_0000_0000 {
            0 - (self.bits - 0x8000_0000_0000_0000) as i128
        } else {
            self.bits as i128
        }
    }

    fn not_a_number(&self) -> (b: bool)
        ensures
            b == is_nan(self.bits),
    {
        let mag: u64 = if self.bits >= 0x8000_0000_0000_0000 {
            self.bits - 0x8000_0000_0000_0000
        } else {
            self.bits
        };
        mag > 0x7FF0_0000_0000_0000
    }

    /// Compares two numbers; `None` where one of them is not a number.
    pub fn rank(&self, other: &Real) -> (r: Option<Rank>)
        ensures
            r == rank_reals(self.bits, other.bits),
    {
        if self.not_a_number() || other.not_a_number() {
            None
        } else {
            Some(rank_i128(self.key(), other.key()))
        }
    }

    /// Compares an integer with the number by their exact values.
    pub fn rank_int(n: i64, x: &Real) -> (r: Option<Rank>)
        ensures
            r == rank_int_real(n as int, x.bits),
    {
        if x.not_a_number() {
            return None;
        }
        let neg = x.bits >= 0x8000_0000_0000_0000;
        let mag: u64 = if neg {
            x.bits - 0x8000_0000_0000_0000
        } else {
            x.bits
        };
        if mag == 0x7FF0_0000_0000_0000 {
            return Some(
                if neg {
                    Rank::Greater
                } else {
                    Rank::Less
                },
            );
        }
        if mag == 0 {
            return Some(rank_i128(n as i128, 0));
        }
        let (m, e): (u64, i32) = if mag < 0x10_0000_0000_0000 {
            (mag, -1074)
        } else {
            (
                mag % 0x10_0000_0000_0000 + 0x10_0000_0000_0000,
                (mag / 0x10_0000_0000_0000) as i32 - 1075,
            )
        };
        if neg {
            if n >= 0 {
                Some(Rank::Greater)
            } else {
                let a: u64 = if n == i64::MIN {
                    0x8000_0000_0000_0000
                } else {
                    (0 - n) as u64
                };
                Some(compare_scaled(a, m, e).reverse())
            }
        } else if n < 0 {
            Some(Rank::Less)
        } else {
            Some(compare_scaled(n as u64, m, e))
        }
    }
}

impl PartialEq for Real {
    fn eq(&self, other: &Real) -> (same: bool) {
        match self.rank(other) {
            Some(Rank::Equal) => true,
            _ => false,
        }
    }
}

impl vstd::std_specs::cmp::PartialEqSpecImpl for Real {
    open spec fn obeys_eq_spec() -> bool {
        true
    }

    open spec fn eq_spec(&self, other: &Real) -> bool {
        rank_reals(self.bits, other.bits) == Some(Rank::Equal)
    }
}

/// The order of numbers is a strict weak order.
pub proof fn law_real_order(a: u64, b: u64, c: u64)
    ensures
        rank_reals(a, b) == Some(Rank::Less) <==> rank_reals(b, a) == Some(Rank::Greater),
        rank_reals(a, b) == Some(Rank::Less) && rank_reals(b, c) == Some(Rank::Less)
            ==> rank_reals(a, c) == Some(Rank::Less),
        rank_reals(a, b) == Some(Rank::Equal) && rank_reals(b, c) == Some(Rank::Equal)
            ==> rank_reals(a, c) == Some(Rank::Equal),
{
}

} // verus!
