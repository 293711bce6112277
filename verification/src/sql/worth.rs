//! What values are worth: the order of numbers and texts that comparisons go by.
use crate::sql::ast::{rank_values, ValueView};
use crate::sql::number::{
    exponent, magnitude, negative, rank_int_real, rank_of, rank_reals, rank_scaled, significand,
    Rank,
};
use crate::text::{bytes_before, text_before};
use vstd::arithmetic::power2::{
    lemma_pow2_adds, lemma_pow2_pos, lemma_pow2_strictly_increases, lemma_pow2_unfold, pow2,
};
use vstd::prelude::*;
use vstd::utf8::{encode_utf8, encode_utf8_decode_utf8};

verus! {

/// The fraction field of a binary64 number.
pub open spec fn fraction_field(bits: u64) -> int {
    bits as int % 0x10_0000_0000_0000
}

/// The exponent field of a binary64 number.
pub open spec fn exponent_field(bits: u64) -> int {
    (bits as int / 0x10_0000_0000_0000) % 0x800
}

/// The bits stand for no number.
pub open spec fn no_number(bits: u64) -> bool {
    exponent_field(bits) == 0x7FF && fraction_field(bits) != 0
}

/// What a binary64 number is worth, in units of the smallest positive one, which is two to the power
/// of minus 1074. What an infinity gets this way is beyond all others.
pub open spec fn worth(bits: u64) -> int {
    let e = exponent_field(bits);
    let f = fraction_field(bits);
    let w = if e == 0 {
        f
    } else {
        (0x10_0000_0000_0000 + f) * pow2((e - 1) as nat)
    };
    if bits >= 0x8000_0000_0000_0000 {
        -w
    } else {
        w
    }
}

/// What an integer is worth in the same units.
pub open spec fn int_worth(n: i64) -> int {
    n * pow2(1074)
}

/// Bytes `a` come before bytes `b` in a dictionary: where they first differ, `a` has the smaller one,
/// or `a` ends there.
pub open spec fn in_front(a: Seq<u8>, b: Seq<u8>) -> bool {
    exists|n: int| #[trigger] differ_at(a, b, n) && n < b.len() && (n == a.len() || a[n] < b[n])
}

/// The first `n` bytes are the same, and no more than that.
pub open spec fn differ_at(a: Seq<u8>, b: Seq<u8>, n: int) -> bool {
    &&& 0 <= n <= a.len()
    &&& n <= b.len()
    &&& a.take(n) == b.take(n)
    &&& n < a.len() && n < b.len() ==> a[n] != b[n]
}

/// Value `a` is less than value `b`: integers as integers, numbers by what they are worth, texts by
/// their UTF-8 bytes.
pub open spec fn less(a: ValueView, b: ValueView) -> bool {
    match (a, b) {
        (ValueView::Int(x), ValueView::Int(y)) => x < y,
        (ValueView::Int(x), ValueView::Float(y)) => !no_number(y) && int_worth(x) < worth(y),
        (ValueView::Float(x), ValueView::Int(y)) => !no_number(x) && worth(x) < int_worth(y),
        (ValueView::Float(x), ValueView::Float(y)) => !no_number(x) && !no_number(y) && worth(x)
            < worth(y),
        (ValueView::Text(x), ValueView::Text(y)) => in_front(encode_utf8(x), encode_utf8(y)),
        _ => false,
    }
}

/// Values `a` and `b` are equal, in the same sense.
pub open spec fn equal(a: ValueView, b: ValueView) -> bool {
    match (a, b) {
        (ValueView::Int(x), ValueView::Int(y)) => x == y,
        (ValueView::Int(x), ValueView::Float(y)) => !no_number(y) && int_worth(x) == worth(y),
        (ValueView::Float(x), ValueView::Int(y)) => !no_number(x) && worth(x) == int_worth(y),
        (ValueView::Float(x), ValueView::Float(y)) => !no_number(x) && !no_number(y) && worth(x)
            == worth(y),
        (ValueView::Text(x), ValueView::Text(y)) => x == y,
        _ => false,
    }
}

// Numbers.

/// What a number without a sign is worth.
spec fn size(m: int) -> int {
    let e = m / 0x10_0000_0000_0000;
    let f = m % 0x10_0000_0000_0000;
    if e == 0 {
        f
    } else {
        (0x10_0000_0000_0000 + f) * pow2((e - 1) as nat)
    }
}

proof fn lemma_size(bits: u64)
    ensures
        0 <= magnitude(bits) < 0x8000_0000_0000_0000,
        worth(bits) == (if negative(bits) {
            -size(magnitude(bits))
        } else {
            size(magnitude(bits))
        }),
        no_number(bits) <==> magnitude(bits) > 0x7FF0_0000_0000_0000,
        size(magnitude(bits)) >= 0,
{
    let m = magnitude(bits);
    let b = bits as int;
    let u = 0x10_0000_0000_0000int;
    assert(b == m || b == m + 0x800 * u);
    assert(0 <= m / u < 0x800);
    if b != m {
        assert(b / u == m / u + 0x800);
        assert(b % u == m % u);
    }
    assert((b / u) % 0x800 == m / u);
    assert(b % u == m % u);
    assert(m == u * (m / u) + m % u);
    if m / u > 0 {
        lemma_pow2_pos((m / u - 1) as nat);
        let p = pow2((m / u - 1) as nat);
        assert((u + m % u) * p >= 0) by (nonlinear_arith)
            requires
                u + m % u >= 0,
                p > 0,
        ;
    }
}

proof fn lemma_size_grows(a: int, b: int)
    requires
        0 <= a < b < 0x8000_0000_0000_0000,
    ensures
        size(a) < size(b),
{
    let u = 0x10_0000_0000_0000int;
    let (e1, e2) = (a / u, b / u);
    let (f1, f2) = (a % u, b % u);
    assert(a == u * e1 + f1 && b == u * e2 + f2);
    assert(0 <= f1 < u && 0 <= f2 < u);
    assert(e1 <= e2);
    if e2 > 0 {
        let q = pow2((e2 - 1) as nat);
        lemma_pow2_pos((e2 - 1) as nat);
        if e1 == e2 {
            assert((u + f1) * q < (u + f2) * q) by (nonlinear_arith)
                requires
                    f1 < f2,
                    q > 0,
            ;
        } else {
            assert((u + f2) * q >= u * q) by (nonlinear_arith)
                requires
                    f2 >= 0,
                    q > 0,
            ;
            if e1 == 0 {
                assert(u * q >= u) by (nonlinear_arith)
                    requires
                        q >= 1,
                        u > 0,
                ;
            } else {
                let p = pow2((e1 - 1) as nat);
                lemma_pow2_pos((e1 - 1) as nat);
                lemma_pow2_unfold(e1 as nat);
                if e1 < e2 - 1 {
                    lemma_pow2_strictly_increases(e1 as nat, (e2 - 1) as nat);
                }
                assert(2 * p <= q);
                assert((u + f1) * p < u * q) by (nonlinear_arith)
                    requires
                        f1 < u,
                        0 < p,
                        2 * p <= q,
                        u > 0,
                ;
            }
        }
    }
}

/// Numbers compare by what they are worth.
pub proof fn law_numbers_compare(a: u64, b: u64)
    ensures
        rank_reals(a, b) == (if no_number(a) || no_number(b) {
            None
        } else {
            Some(rank_of(worth(a), worth(b)))
        }),
{
    lemma_size(a);
    lemma_size(b);
    let (x, y) = (magnitude(a), magnitude(b));
    if x < y {
        lemma_size_grows(x, y);
    }
    if y < x {
        lemma_size_grows(y, x);
    }
    if 0 < x {
        lemma_size_grows(0, x);
    }
    if 0 < y {
        lemma_size_grows(0, y);
    }
    assert(size(0) == 0);
}

/// The worth of a number that is finite, by its significand and exponent.
proof fn lemma_worth_parts(bits: u64)
    ensures
        exponent(bits) >= -1074,
        significand(bits) >= 0,
        size(magnitude(bits)) == significand(bits) * pow2((exponent(bits) + 1074) as nat),
        significand(bits) == 0 <==> magnitude(bits) == 0,
{
    lemma_size(bits);
    let m = magnitude(bits);
    let u = 0x10_0000_0000_0000int;
    assert(m == u * (m / u) + m % u);
    if m < u {
        assert(m / u == 0 && m % u == m);
        assert(pow2(0) == 1) by {
            vstd::arithmetic::power2::lemma2_to64();
        }
        assert(m * pow2(0) == m) by (nonlinear_arith)
            requires
                pow2(0) == 1,
        ;
    } else {
        assert(m / u >= 1);
        assert(exponent(bits) + 1074 == m / u - 1);
    }
}

proof fn lemma_times(a: int, b: int, p: int)
    requires
        p > 0,
    ensures
        rank_of(a * p, b * p) == rank_of(a, b),
{
    if a < b {
        assert(a * p < b * p) by (nonlinear_arith)
            requires
                a < b,
                p > 0,
        ;
    } else if b < a {
        assert(b * p < a * p) by (nonlinear_arith)
            requires
                b < a,
                p > 0,
        ;
    }
}

proof fn lemma_scaled(n: int, m: int, e: int)
    requires
        e >= -1074,
    ensures
        rank_scaled(n, m, e) == rank_of(n * pow2(1074), m * pow2((e + 1074) as nat)),
{
    lemma_pow2_pos(1074);
    if e >= 0 {
        lemma_times(n, m * pow2(e as nat), pow2(1074) as int);
        lemma_pow2_adds(e as nat, 1074);
        let (p, q) = (pow2(e as nat) as int, pow2(1074) as int);
        assert(m * p * q == m * (p * q)) by (nonlinear_arith);
    } else {
        let d = (e + 1074) as nat;
        lemma_pow2_pos(d);
        lemma_times(n * pow2((-e) as nat), m, pow2(d) as int);
        lemma_pow2_adds((-e) as nat, d);
        assert((-e) as nat + d == 1074);
        let (p, q) = (pow2((-e) as nat) as int, pow2(d) as int);
        assert(n * p * q == n * (p * q)) by (nonlinear_arith);
    }
}

/// An integer compares with a number by what they are worth.
pub proof fn law_integers_compare_with_numbers(n: i64, bits: u64)
    ensures
        rank_int_real(n as int, bits) == (if no_number(bits) {
            None
        } else {
            Some(rank_of(int_worth(n), worth(bits)))
        }),
{
    lemma_size(bits);
    lemma_worth_parts(bits);
    lemma_pow2_pos(1074);
    let p = pow2(1074) as int;
    let m = significand(bits);
    let e = exponent(bits);
    let s = size(magnitude(bits));
    assert(n >= 0 ==> n * p >= 0) by (nonlinear_arith)
        requires
            p > 0,
    ;
    assert(n < 0 ==> n * p < 0) by (nonlinear_arith)
        requires
            p > 0,
    ;
    lemma_scaled(n as int, m, e);
    lemma_scaled(-n, m, e);
    assert((-n) * p == -(n * p)) by (nonlinear_arith);
    if magnitude(bits) > 0 {
        lemma_size_grows(0, magnitude(bits));
        assert(size(0) == 0);
    }
    if m == 0 {
        assert(s == 0) by {
            assert(size(0) == 0);
        }
        lemma_times(n as int, 0, p);
    } else if magnitude(bits) == 0x7FF0_0000_0000_0000 {
        lemma_infinite(n);
    }
}

/// An infinity is beyond all integers.
proof fn lemma_infinite(n: i64)
    ensures
        -size(0x7FF0_0000_0000_0000) < int_worth(n) < size(0x7FF0_0000_0000_0000),
{
    let u = 0x10_0000_0000_0000int;
    let top = 0x7FF0_0000_0000_0000int;
    assert(top / u == 0x7FF && top % u == 0);
    let p = pow2(1074) as int;
    lemma_pow2_pos(1074);
    lemma_pow2_pos(972);
    lemma_pow2_adds(1074, 972);
    let q = pow2(972) as int;
    assert(q >= 0x1000) by {
        vstd::arithmetic::power2::lemma2_to64();
        lemma_pow2_strictly_increases(12, 972);
    }
    assert(size(top) == u * (p * q));
    assert(u * (p * q) >= 0x1_0000_0000_0000_0000 * p) by (nonlinear_arith)
        requires
            q >= 0x1000,
            p > 0,
            u == 0x10_0000_0000_0000,
    ;
    assert(-0x1_0000_0000_0000_0000 * p < n * p < 0x1_0000_0000_0000_0000 * p) by (nonlinear_arith)
        requires
            -0x1_0000_0000_0000_0000 < n < 0x1_0000_0000_0000_0000,
            p > 0,
    ;
}

// Texts.

proof fn lemma_bytes(a: Seq<u8>, b: Seq<u8>)
    ensures
        bytes_before(a, b) <==> in_front(a, b),
    decreases a.len(),
{
    if b.len() == 0 || a.len() == 0 {
        assert(a.take(0) =~= b.take(0));
        assert(differ_at(a, b, 0));
    } else if a[0] != b[0] {
        assert(a.take(0) =~= b.take(0));
        assert(differ_at(a, b, 0));
        assert forall|n: int| #[trigger] differ_at(a, b, n) implies n == 0 by {
            if n > 0 {
                assert(a.take(n)[0] == b.take(n)[0]);
            }
        }
    } else {
        let (x, y) = (a.skip(1), b.skip(1));
        lemma_bytes(x, y);
        if in_front(x, y) {
            let n = choose|n: int| #[trigger]
                differ_at(x, y, n) && n < y.len() && (n == x.len() || x[n] < y[n]);
            assert(a.take(n + 1) =~= b.take(n + 1)) by {
                assert forall|k: int| 0 <= k < n + 1 implies a[k] == b[k] by {
                    if k > 0 {
                        assert(x.take(n)[k - 1] == y.take(n)[k - 1]);
                    }
                }
            }
            assert(differ_at(a, b, n + 1));
        }
        if in_front(a, b) {
            let n = choose|n: int| #[trigger]
                differ_at(a, b, n) && n < b.len() && (n == a.len() || a[n] < b[n]);
            assert(n > 0);
            assert(x.take(n - 1) =~= y.take(n - 1)) by {
                assert forall|k: int| 0 <= k < n - 1 implies x[k] == y[k] by {
                    assert(a.take(n)[k + 1] == b.take(n)[k + 1]);
                }
            }
            assert(differ_at(x, y, n - 1));
        }
    }
}

/// Texts are ordered as their UTF-8 bytes are in a dictionary.
pub proof fn law_texts_compare(a: Seq<char>, b: Seq<char>)
    ensures
        text_before(a, b) <==> in_front(encode_utf8(a), encode_utf8(b)),
{
    lemma_bytes(encode_utf8(a), encode_utf8(b));
}

/// Bytes are in front of others, behind them, or the same, and only one of these.
proof fn lemma_front(a: Seq<u8>, b: Seq<u8>)
    ensures
        a == b || in_front(a, b) || in_front(b, a),
        !(in_front(a, b) && in_front(b, a)),
        a == b ==> !in_front(a, b),
    decreases a.len(),
{
    lemma_bytes(a, b);
    lemma_bytes(b, a);
    crate::text::lemma_bytes_trichotomy(a, b);
}

/// Values compare by what they are worth: they compare at all where both are numbers or both texts,
/// and one of them is less, equal or greater as its worth is.
pub proof fn law_values_compare(a: ValueView, b: ValueView)
    ensures
        rank_values(a, b) == (if less(a, b) {
            Some(Rank::Less)
        } else if equal(a, b) {
            Some(Rank::Equal)
        } else if less(b, a) {
            Some(Rank::Greater)
        } else {
            None
        }),
        rank_values(a, b) is None <==> !same_kind(a, b),
        !(less(a, b) && less(b, a)),
        equal(a, b) ==> !less(a, b) && !less(b, a) && equal(b, a),
{
    match (a, b) {
        (ValueView::Float(x), ValueView::Float(y)) => law_numbers_compare(x, y),
        (ValueView::Int(x), ValueView::Float(y)) => law_integers_compare_with_numbers(x, y),
        (ValueView::Float(x), ValueView::Int(y)) => law_integers_compare_with_numbers(y, x),
        (ValueView::Text(x), ValueView::Text(y)) => {
            law_texts_compare(x, y);
            law_texts_compare(y, x);
            lemma_front(encode_utf8(x), encode_utf8(y));
            encode_utf8_decode_utf8(x);
            encode_utf8_decode_utf8(y);
        },
        _ => {},
    }
}

/// Both values are numbers, NaN not being one, or both are texts.
pub open spec fn same_kind(a: ValueView, b: ValueView) -> bool {
    (is_number(a) && is_number(b)) || (a is Text && b is Text)
}

/// An integer, or a binary64 number that is one.
pub open spec fn is_number(v: ValueView) -> bool {
    match v {
        ValueView::Int(_) => true,
        ValueView::Float(bits) => !no_number(bits),
        _ => false,
    }
}

} // verus!
