use crate::parser::tokenizer::{
    all_digits, digits_value, first_exp_mark, float_syntax, float_text_valid, strip_sign,
};
use crate::text::{chars_of, is_ascii_digit};
use vstd::prelude::*;

verus! {

// ---------------------------------------------------------------------------
// Decimal arithmetic.
// ---------------------------------------------------------------------------

/// Ten to the power `k`.
pub open spec fn pow10(k: nat) -> int
    decreases k,
{
    if k == 0 {
        1
    } else {
        10 * pow10((k - 1) as nat)
    }
}

/// `v` with the sign `neg`.
pub open spec fn signed(neg: bool, v: int) -> int {
    if neg {
        -v
    } else {
        v
    }
}

pub open spec fn digit_of(c: char) -> int {
    (c as u32 - '0' as u32) as int
}

proof fn lemma_pow10_positive(k: nat)
    ensures
        pow10(k) >= 1,
    decreases k,
{
    if k > 0 {
        lemma_pow10_positive((k - 1) as nat);
    }
}

proof fn lemma_pow10_adds(a: nat, b: nat)
    ensures
        pow10(a + b) == pow10(a) * pow10(b),
    decreases a,
{
    if a > 0 {
        lemma_pow10_adds((a - 1) as nat, b);
        let p = pow10((a - 1) as nat);
        let q = pow10(b);
        assert(pow10(a + b) == 10 * pow10((a - 1 + b) as nat));
        assert(10 * (p * q) == (10 * p) * q) by (nonlinear_arith);
    }
}

proof fn lemma_digits_value_nonneg(ds: Seq<char>)
    requires
        all_digits(ds),
    ensures
        digits_value(ds) >= 0,
    decreases ds.len(),
{
    if ds.len() > 0 {
        assert(is_ascii_digit(ds[ds.len() - 1]));
        assert(all_digits(ds.drop_last())) by {
            assert forall|k: int| 0 <= k < ds.drop_last().len() implies is_ascii_digit(
                #[trigger] ds.drop_last()[k],
            ) by {
                assert(ds.drop_last()[k] == ds[k]);
            }
        }
        lemma_digits_value_nonneg(ds.drop_last());
    }
}

/// Leading zeros do not change the value of digits.
proof fn lemma_leading_zeros(z: Seq<char>, ds: Seq<char>)
    requires
        forall|k: int| 0 <= k < z.len() ==> #[trigger] z[k] == '0',
    ensures
        digits_value(z + ds) == digits_value(ds),
    decreases ds.len(),
{
    if ds.len() == 0 {
        assert(z + ds =~= z);
        lemma_all_zero(z);
    } else {
        assert((z + ds).drop_last() =~= z + ds.drop_last());
        lemma_leading_zeros(z, ds.drop_last());
    }
}

proof fn lemma_all_zero(z: Seq<char>)
    requires
        forall|k: int| 0 <= k < z.len() ==> #[trigger] z[k] == '0',
    ensures
        digits_value(z) == 0,
    decreases z.len(),
{
    if z.len() > 0 {
        assert(z[z.len() - 1] == '0');
        lemma_all_zero(z.drop_last());
    }
}

/// Trailing zeros multiply the value of digits by ten each.
proof fn lemma_trailing_zeros(ds: Seq<char>, z: Seq<char>)
    requires
        forall|k: int| 0 <= k < z.len() ==> #[trigger] z[k] == '0',
    ensures
        digits_value(ds + z) == digits_value(ds) * pow10(z.len()),
    decreases z.len(),
{
    if z.len() == 0 {
        assert(ds + z =~= ds);
    } else {
        assert((ds + z).drop_last() =~= ds + z.drop_last());
        assert(z[z.len() - 1] == '0');
        lemma_trailing_zeros(ds, z.drop_last());
        let v = digits_value(ds);
        let p = pow10(z.drop_last().len());
        assert((v * p) * 10 == v * (10 * p)) by (nonlinear_arith);
    }
}

// ---------------------------------------------------------------------------
// Comparing exponents of any length.
// ---------------------------------------------------------------------------

/// `d` padded with leading zeros to `len` characters.
pub open spec fn padded(d: Seq<char>, len: int) -> Seq<char> {
    Seq::new((len - d.len()) as nat, |i: int| '0') + d
}

/// Bound beyond which a difference of exponents can no longer be a given
/// small number.
pub open spec fn big() -> int {
    0x10000000000000000000000000
}

/// The difference of the signed values of the first `k` digits.
pub open spec fn prefix_difference(p1: Seq<char>, n1: bool, p2: Seq<char>, n2: bool, k: int) -> int {
    signed(n1, digits_value(p1.take(k))) - signed(n2, digits_value(p2.take(k)))
}

proof fn lemma_difference_step(p1: Seq<char>, n1: bool, p2: Seq<char>, n2: bool, k: int)
    requires
        0 <= k < p1.len(),
        p1.len() == p2.len(),
        all_digits(p1),
        all_digits(p2),
    ensures
        prefix_difference(p1, n1, p2, n2, k + 1) == 10 * prefix_difference(p1, n1, p2, n2, k) + signed(
            n1,
            digit_of(p1[k]),
        ) - signed(n2, digit_of(p2[k])),
        0 <= digit_of(p1[k]) <= 9,
        0 <= digit_of(p2[k]) <= 9,
{
    assert(p1.take(k + 1).drop_last() =~= p1.take(k));
    assert(p2.take(k + 1).drop_last() =~= p2.take(k));
    assert(is_ascii_digit(p1[k]));
    assert(is_ascii_digit(p2[k]));
}

fn digit_at(d: &Vec<char>, i: usize) -> (r: i128)
    requires
        all_digits(d@),
        i < d@.len(),
    ensures
        r == digit_of(d@[i as int]),
        0 <= r <= 9,
{
    assert(is_ascii_digit(d@[i as int]));
    (d[i] as u32 - '0' as u32) as i128
}

/// Whether `signed(n1, d1) - signed(n2, d2)` is `c`, for decimal digit strings
/// of any length.
pub fn exp_difference_is(d1: &Vec<char>, n1: bool, d2: &Vec<char>, n2: bool, c: i128) -> (res: bool)
    requires
        all_digits(d1@),
        all_digits(d2@),
        -0x100000000000000000000 <= c <= 0x100000000000000000000,
    ensures
        res == (signed(n1, digits_value(d1@)) - signed(n2, digits_value(d2@)) == c),
{
    let l1 = d1.len();
    let l2 = d2.len();
    let len = if l1 >= l2 {
        l1
    } else {
        l2
    };
    let ghost p1 = padded(d1@, len as int);
    let ghost p2 = padded(d2@, len as int);
    assert(all_digits(p1)) by {
        assert forall|k: int| 0 <= k < p1.len() implies is_ascii_digit(#[trigger] p1[k]) by {
            if k >= len - l1 {
                assert(p1[k] == d1@[k - (len - l1)]);
            }
        }
    }
    assert(all_digits(p2)) by {
        assert forall|k: int| 0 <= k < p2.len() implies is_ascii_digit(#[trigger] p2[k]) by {
            if k >= len - l2 {
                assert(p2[k] == d2@[k - (len - l2)]);
            }
        }
    }
    let mut diff: i128 = 0;
    let mut saturated = false;
    let mut k: usize = 0;
    assert(p1.take(0) =~= Seq::<char>::empty());
    assert(p2.take(0) =~= Seq::<char>::empty());
    while k < len
        invariant
            k <= len,
            len == p1.len() == p2.len(),
            l1 == d1@.len(),
            l2 == d2@.len(),
            l1 <= len,
            l2 <= len,
            p1 == padded(d1@, len as int),
            p2 == padded(d2@, len as int),
            all_digits(d1@),
            all_digits(d2@),
            all_digits(p1),
            all_digits(p2),
            !saturated ==> diff == prefix_difference(p1, n1, p2, n2, k as int),
            !saturated ==> -big() <= diff <= big(),
            saturated ==> prefix_difference(p1, n1, p2, n2, k as int) > big() || prefix_difference(
                p1,
                n1,
                p2,
                n2,
                k as int,
            ) < -big(),
        decreases len - k,
    {
        let a: i128 = if k < len - l1 {
            0
        } else {
            digit_at(d1, k - (len - l1))
        };
        let b: i128 = if k < len - l2 {
            0
        } else {
            digit_at(d2, k - (len - l2))
        };
        proof {
            if k >= len - l1 {
                assert(p1[k as int] == d1@[k - (len - l1)]);
            } else {
                assert(p1[k as int] == '0');
            }
            if k >= len - l2 {
                assert(p2[k as int] == d2@[k - (len - l2)]);
            } else {
                assert(p2[k as int] == '0');
            }
            lemma_difference_step(p1, n1, p2, n2, k as int);
        }
        let da: i128 = if n1 {
            -a
        } else {
            a
        };
        let db: i128 = if n2 {
            -b
        } else {
            b
        };
        if !saturated {
            let next = diff * 10 + da - db;
            if next > 0x10000000000000000000000000 || next < -0x10000000000000000000000000 {
                saturated = true;
            } else {
                diff = next;
            }
        }
        k = k + 1;
    }
    assert(p1.take(len as int) =~= p1);
    assert(p2.take(len as int) =~= p2);
    proof {
        lemma_leading_zeros(Seq::new((len - l1) as nat, |i: int| '0'), d1@);
        lemma_leading_zeros(Seq::new((len - l2) as nat, |i: int| '0'), d2@);
    }
    if saturated {
        false
    } else {
        diff == c
    }
}


// ---------------------------------------------------------------------------
// The number that a float text denotes.
// ---------------------------------------------------------------------------

/// What a float text denotes: not a number, an infinity with its sign, or the
/// number `n * 10^x`.
pub enum FloatV {
    NaN,
    Inf(bool),
    Num(int, int),
}

/// `c` is the letter `w` in either case, or `w` itself.
pub open spec fn char_is(c: char, w: char) -> bool {
    c == w || ('a' <= w && w <= 'z' && c as u32 + 32 == w as u32)
}

/// `b` is the lower-case word `w`, ignoring ASCII case.
pub open spec fn word_is(b: Seq<char>, w: Seq<char>) -> bool {
    b.len() == w.len() && forall|i: int| 0 <= i < b.len() ==> char_is(#[trigger] b[i], w[i])
}

pub open spec fn has_dot(m: Seq<char>) -> bool
    decreases m.len(),
{
    m.len() > 0 && (m.last() == '.' || has_dot(m.drop_last()))
}

/// The value of the digits of a mantissa, its dot skipped.
pub open spec fn mant_value(m: Seq<char>) -> int
    decreases m.len(),
{
    if m.len() == 0 {
        0
    } else if m.last() == '.' {
        mant_value(m.drop_last())
    } else {
        mant_value(m.drop_last()) * 10 + digit_of(m.last())
    }
}

/// The number of digits after the dot of a mantissa.
pub open spec fn frac_len(m: Seq<char>) -> int
    decreases m.len(),
{
    if m.len() == 0 || m.last() == '.' {
        0
    } else if has_dot(m.drop_last()) {
        frac_len(m.drop_last()) + 1
    } else {
        0
    }
}

/// The value of an exponent part (`e`, an optional sign and digits), or zero
/// where there is none.
pub open spec fn exp_value(x: Seq<char>) -> int {
    if x.len() == 0 {
        0
    } else {
        let y = x.drop_first();
        signed(y.len() > 0 && y[0] == '-', digits_value(strip_sign(y)))
    }
}

/// What a float text denotes, as `f64`'s `FromStr` reads it: an optional sign,
/// then `nan`, `inf` or `infinity` in any case, or a decimal number. A text of
/// no such form denotes nothing and is treated as not a number.
pub open spec fn float_value(t: Seq<char>) -> FloatV {
    let neg = t.len() > 0 && t[0] == '-';
    let b = strip_sign(t);
    if word_is(b, seq!['n', 'a', 'n']) {
        FloatV::NaN
    } else if word_is(b, seq!['i', 'n', 'f']) || word_is(b, seq!['i', 'n', 'f', 'i', 'n', 'i', 't', 'y']) {
        FloatV::Inf(neg)
    } else if float_syntax(t) {
        let e = first_exp_mark(b, 0);
        let m = b.take(e);
        FloatV::Num(signed(neg, mant_value(m)), exp_value(b.skip(e)) - frac_len(m))
    } else {
        FloatV::NaN
    }
}

/// `n1 * 10^x1 == n2 * 10^x2`.
pub open spec fn num_eq(n1: int, x1: int, n2: int, x2: int) -> bool {
    if x1 <= x2 {
        n1 == n2 * pow10((x2 - x1) as nat)
    } else {
        n2 == n1 * pow10((x1 - x2) as nat)
    }
}

/// Two float texts denote equal numbers: finite numbers that are equal, or
/// infinities of the same sign. Not-a-number equals nothing, itself included.
pub open spec fn float_eq(a: Seq<char>, b: Seq<char>) -> bool {
    match (float_value(a), float_value(b)) {
        (FloatV::Num(n1, x1), FloatV::Num(n2, x2)) => num_eq(n1, x1, n2, x2),
        (FloatV::Inf(s1), FloatV::Inf(s2)) => s1 == s2,
        _ => false,
    }
}

// ---------------------------------------------------------------------------
// The canonical form of a finite number.
// ---------------------------------------------------------------------------

/// Digits without leading or trailing zeros.
pub open spec fn canonical(c: Seq<char>) -> bool {
    &&& c.len() > 0
    &&& all_digits(c)
    &&& c[0] != '0'
    &&& c[c.len() - 1] != '0'
}

proof fn lemma_all_digits_drop_last(ds: Seq<char>)
    requires
        all_digits(ds),
        ds.len() > 0,
    ensures
        all_digits(ds.drop_last()),
        is_ascii_digit(ds[ds.len() - 1]),
{
    assert forall|k: int| 0 <= k < ds.drop_last().len() implies is_ascii_digit(#[trigger] ds.drop_last()[k]) by {
        assert(ds.drop_last()[k] == ds[k]);
    }
}

/// Digits are worth less than ten to the power of their count.
proof fn lemma_digits_below(ds: Seq<char>)
    requires
        all_digits(ds),
    ensures
        0 <= digits_value(ds) < pow10(ds.len()),
    decreases ds.len(),
{
    if ds.len() > 0 {
        lemma_all_digits_drop_last(ds);
        lemma_digits_below(ds.drop_last());
    }
}

/// Digits that start with a non-zero digit are worth at least ten to the
/// power of their count less one.
proof fn lemma_digits_at_least(ds: Seq<char>)
    requires
        all_digits(ds),
        ds.len() > 0,
        ds[0] != '0',
    ensures
        digits_value(ds) >= pow10((ds.len() - 1) as nat),
    decreases ds.len(),
{
    lemma_all_digits_drop_last(ds);
    if ds.len() > 1 {
        assert(ds.drop_last()[0] == ds[0]);
        lemma_digits_at_least(ds.drop_last());
        assert(pow10((ds.len() - 1) as nat) == 10 * pow10((ds.len() - 2) as nat));
    } else {
        assert(is_ascii_digit(ds[0]));
        assert(ds.last() == ds[0]);
        assert(digits_value(ds.drop_last()) == 0);
    }
}

proof fn lemma_pow10_mono(a: nat, b: nat)
    requires
        a <= b,
    ensures
        pow10(a) <= pow10(b),
    decreases b,
{
    if a < b {
        lemma_pow10_mono(a, (b - 1) as nat);
        lemma_pow10_positive((b - 1) as nat);
    }
}

/// Digit strings of the same length and value are the same.
proof fn lemma_digits_same_length(c1: Seq<char>, c2: Seq<char>)
    requires
        all_digits(c1),
        all_digits(c2),
        c1.len() == c2.len(),
        digits_value(c1) == digits_value(c2),
    ensures
        c1 == c2,
    decreases c1.len(),
{
    if c1.len() > 0 {
        lemma_all_digits_drop_last(c1);
        lemma_all_digits_drop_last(c2);
        lemma_digits_value_nonneg(c1.drop_last());
        lemma_digits_value_nonneg(c2.drop_last());
        let d1 = digit_of(c1.last());
        let d2 = digit_of(c2.last());
        assert(d1 == d2);
        lemma_digits_same_length(c1.drop_last(), c2.drop_last());
        assert(c1.last() == c2.last());
        assert(c1 =~= c1.drop_last().push(c1.last()));
        assert(c2 =~= c2.drop_last().push(c2.last()));
    }
}

/// Canonical digit strings of the same value are the same.
proof fn lemma_canonical_injective(c1: Seq<char>, c2: Seq<char>)
    requires
        canonical(c1),
        canonical(c2),
        digits_value(c1) == digits_value(c2),
    ensures
        c1 == c2,
{
    lemma_digits_below(c1);
    lemma_digits_below(c2);
    lemma_digits_at_least(c1);
    lemma_digits_at_least(c2);
    if c1.len() < c2.len() {
        lemma_pow10_mono(c1.len(), (c2.len() - 1) as nat);
    } else if c2.len() < c1.len() {
        lemma_pow10_mono(c2.len(), (c1.len() - 1) as nat);
    }
    lemma_digits_same_length(c1, c2);
}

/// A canonical digit string is worth a positive number that ten does not divide.
proof fn lemma_canonical_value(c: Seq<char>)
    requires
        canonical(c),
    ensures
        digits_value(c) >= 1,
        digits_value(c) % 10 != 0,
{
    lemma_all_digits_drop_last(c);
    lemma_digits_value_nonneg(c.drop_last());
    let v = digits_value(c.drop_last());
    let d = digit_of(c.last());
    assert(1 <= d <= 9);
    assert((v * 10 + d) % 10 == d) by (nonlinear_arith)
        requires
            0 <= v,
            1 <= d <= 9,
    ;
}

/// A multiple of ten to a positive power is a multiple of ten.
proof fn lemma_times_pow10_divisible(v: int, k: nat)
    requires
        k > 0,
    ensures
        (v * pow10(k)) % 10 == 0,
{
    let p = pow10((k - 1) as nat);
    assert(v * pow10(k) == (v * p) * 10) by (nonlinear_arith)
        requires
            pow10(k) == 10 * p,
    ;
    assert(((v * p) * 10) % 10 == 0) by (nonlinear_arith);
}

/// The number `signed(s, c) * 10^(X - t)` written with `t` trailing zeros:
/// two such numbers with canonical digits are equal exactly when their signs,
/// digits and exponents `X` are.
proof fn lemma_canonical_eq(
    s1: bool,
    c1: Seq<char>,
    t1: nat,
    big_x1: int,
    s2: bool,
    c2: Seq<char>,
    t2: nat,
    big_x2: int,
)
    requires
        canonical(c1),
        canonical(c2),
    ensures
        num_eq(
            signed(s1, digits_value(c1) * pow10(t1)),
            big_x1 - t1,
            signed(s2, digits_value(c2) * pow10(t2)),
            big_x2 - t2,
        ) == (s1 == s2 && c1 == c2 && big_x1 == big_x2),
{
    lemma_canonical_value(c1);
    lemma_canonical_value(c2);
    lemma_pow10_positive(t1);
    lemma_pow10_positive(t2);
    let v1 = digits_value(c1);
    let v2 = digits_value(c2);
    let x1 = big_x1 - t1;
    let x2 = big_x2 - t2;
    if x1 <= x2 {
        lemma_canonical_eq_ordered(s1, v1, t1, big_x1, s2, v2, t2, big_x2);
    } else {
        lemma_canonical_eq_ordered(s2, v2, t2, big_x2, s1, v1, t1, big_x1);
    }
    if s1 == s2 && v1 == v2 && big_x1 == big_x2 {
        lemma_canonical_injective(c1, c2);
    }
}

proof fn lemma_canonical_eq_ordered(
    s1: bool,
    v1: int,
    t1: nat,
    big_x1: int,
    s2: bool,
    v2: int,
    t2: nat,
    big_x2: int,
)
    requires
        v1 >= 1,
        v2 >= 1,
        v1 % 10 != 0,
        v2 % 10 != 0,
        big_x1 - t1 <= big_x2 - t2,
    ensures
        (signed(s1, v1 * pow10(t1)) == signed(s2, v2 * pow10(t2)) * pow10(
            ((big_x2 - t2) - (big_x1 - t1)) as nat,
        )) == (s1 == s2 && v1 == v2 && big_x1 == big_x2),
{
    let g = ((big_x2 - t2) - (big_x1 - t1)) as nat;
    lemma_pow10_positive(t1);
    lemma_pow10_positive(t2);
    lemma_pow10_positive(g);
    lemma_pow10_adds(t2, g);
    lemma_pow10_positive(t2 + g);
    let p1 = pow10(t1);
    let q = pow10(t2 + g);
    assert(pow10(t2) * pow10(g) == q);
    assert(signed(s2, v2 * pow10(t2)) * pow10(g) == signed(s2, v2 * q)) by (nonlinear_arith)
        requires
            pow10(t2) * pow10(g) == q,
    ;
    // Both sides carry t1 and t2 + g trailing factors of ten; t2 + g - t1 = X2 - X1.
    if big_x1 <= big_x2 {
        let k = (big_x2 - big_x1) as nat;
        assert(t2 + g == t1 + k);
        lemma_pow10_adds(t1, k);
        lemma_pow10_positive(k);
        let pk = pow10(k);
        assert(q == p1 * pk);
        if signed(s1, v1 * p1) == signed(s2, v2 * q) {
            assert(signed(s1, v1) * p1 == signed(s2, v2 * pk) * p1) by (nonlinear_arith)
                requires
                    signed(s1, v1 * p1) == signed(s2, v2 * q),
                    q == p1 * pk,
            ;
            assert(signed(s1, v1) == signed(s2, v2 * pk)) by (nonlinear_arith)
                requires
                    signed(s1, v1) * p1 == signed(s2, v2 * pk) * p1,
                    p1 >= 1,
            ;
            assert(v2 * pk >= 1) by (nonlinear_arith)
                requires
                    v2 >= 1,
                    pk >= 1,
            ;
            assert(s1 == s2);
            assert(v1 == v2 * pk);
            if k > 0 {
                lemma_times_pow10_divisible(v2, k);
            }
            assert(k == 0);
            assert(pk == 1);
        }
        if s1 == s2 && v1 == v2 && big_x1 == big_x2 {
            assert(k == 0);
            assert(q == p1);
        }
    } else {
        let k = (big_x1 - big_x2) as nat;
        assert(t1 == t2 + g + k);
        lemma_pow10_adds(t2 + g, k);
        lemma_pow10_positive(k);
        let pk = pow10(k);
        assert(p1 == q * pk);
        if signed(s1, v1 * p1) == signed(s2, v2 * q) {
            assert(signed(s1, v1 * pk) * q == signed(s2, v2) * q) by (nonlinear_arith)
                requires
                    signed(s1, v1 * p1) == signed(s2, v2 * q),
                    p1 == q * pk,
            ;
            assert(signed(s1, v1 * pk) == signed(s2, v2)) by (nonlinear_arith)
                requires
                    signed(s1, v1 * pk) * q == signed(s2, v2) * q,
                    q >= 1,
            ;
            assert(v1 * pk >= 1) by (nonlinear_arith)
                requires
                    v1 >= 1,
                    pk >= 1,
            ;
            assert(v2 == v1 * pk);
            lemma_times_pow10_divisible(v1, k);
            assert(false);
        }
    }
}


// ---------------------------------------------------------------------------
// Reading and comparing float texts.
// ---------------------------------------------------------------------------

/// A float text read into its canonical form.
enum FloatForm {
    NaN,
    Inf(bool),
    Zero,
    /// `signed(neg, core) * 10^(signed(exp_neg, exp_digits) + shift)`.
    Num { neg: bool, core: Vec<char>, exp_neg: bool, exp_digits: Vec<char>, shift: i128 },
}

spec fn form_ok(f: FloatForm, t: Seq<char>) -> bool {
    match f {
        FloatForm::NaN => float_value(t) is NaN,
        FloatForm::Inf(s) => float_value(t) == FloatV::Inf(s),
        FloatForm::Zero => float_value(t) matches FloatV::Num(n, _) && n == 0,
        FloatForm::Num { neg, core, exp_neg, exp_digits, shift } => {
            &&& canonical(core@)
            &&& all_digits(exp_digits@)
            &&& -0x20000000000000000 <= shift <= 0x20000000000000000
            &&& exists|tz: nat|
                float_value(t) == FloatV::Num(
                    signed(neg, digits_value(core@) * #[trigger] pow10(tz)),
                    signed(exp_neg, digits_value(exp_digits@)) + shift - tz,
                )
        },
    }
}

/// Whether `t[s..]` is the lower-case word `w`, ignoring ASCII case.
fn word_at(t: &Vec<char>, s: usize, w: &Vec<char>) -> (res: bool)
    requires
        s <= t.len(),
    ensures
        res == word_is(t@.skip(s as int), w@),
{
    let ghost b = t@.skip(s as int);
    if t.len() - s != w.len() {
        return false;
    }
    let mut i: usize = 0;
    while i < w.len()
        invariant
            s <= t.len(),
            b == t@.skip(s as int),
            b.len() == w@.len(),
            i <= w@.len(),
            forall|j: int| 0 <= j < i ==> char_is(#[trigger] b[j], w@[j]),
        decreases w.len() - i,
    {
        let c = t[s + i];
        let x = w[i];
        assert(b[i as int] == c);
        let ok = c == x || ('a' <= x && x <= 'z' && c as u32 == x as u32 - 32);
        if !ok {
            assert(!char_is(b[i as int], w@[i as int]));
            return false;
        }
        i = i + 1;
    }
    true
}

proof fn lemma_digits_split(z1: Seq<char>, core: Seq<char>, z2: Seq<char>)
    requires
        forall|k: int| 0 <= k < z1.len() ==> #[trigger] z1[k] == '0',
        forall|k: int| 0 <= k < z2.len() ==> #[trigger] z2[k] == '0',
    ensures
        digits_value(z1 + core + z2) == digits_value(core) * pow10(z2.len()),
{
    lemma_trailing_zeros(z1 + core, z2);
    lemma_leading_zeros(z1, core);
}

#[verifier::spinoff_prover]
#[verifier::rlimit(100)]
fn read_float(t: &Vec<char>) -> (res: FloatForm)
    ensures
        form_ok(res, t@),
{
    let n = t.len();
    let neg = n > 0 && t[0] == '-';
    let s: usize = if n > 0 && (t[0] == '+' || t[0] == '-') {
        1
    } else {
        0
    };
    let ghost b = strip_sign(t@);
    assert(b =~= t@.skip(s as int));
    let nan_word = vec!['n', 'a', 'n'];
    let inf_word = vec!['i', 'n', 'f'];
    let infinity_word = vec!['i', 'n', 'f', 'i', 'n', 'i', 't', 'y'];
    assert(nan_word@ == seq!['n', 'a', 'n']);
    assert(inf_word@ == seq!['i', 'n', 'f']);
    assert(infinity_word@ == seq!['i', 'n', 'f', 'i', 'n', 'i', 't', 'y']);
    if word_at(t, s, &nan_word) {
        return FloatForm::NaN;
    }
    if word_at(t, s, &inf_word) || word_at(t, s, &infinity_word) {
        return FloatForm::Inf(neg);
    }
    if !float_text_valid(t) {
        return FloatForm::NaN;
    }
    let mut e = s;
    while e < n && !(t[e] == 'e' || t[e] == 'E')
        invariant
            s <= e <= n == t@.len(),
            b == t@.skip(s as int),
            first_exp_mark(b, 0) == first_exp_mark(b, e - s),
        decreases n - e,
    {
        assert(b[e - s] == t@[e as int]);
        e = e + 1;
    }
    if e < n {
        assert(b[e - s] == t@[e as int]);
    }
    assert(first_exp_mark(b, 0) == e - s);
    let ghost m = b.take(e - s);
    let ghost x = b.skip(e - s);
    assert(float_syntax(t@));
    // The mantissa: its digits, and how many of them follow the dot.
    let mut digits: Vec<char> = Vec::new();
    let mut frac: usize = 0;
    let mut dot = false;
    let mut k = s;
    assert(m.take(0) =~= Seq::<char>::empty());
    while k < e
        invariant
            s <= k <= e <= n == t@.len(),
            b == t@.skip(s as int),
            m == b.take(e - s),
            forall|j: int| 0 <= j < m.len() ==> is_ascii_digit(#[trigger] m[j]) || m[j] == '.',
            all_digits(digits@),
            digits@.len() <= k - s,
            frac <= k - s,
            digits_value(digits@) == mant_value(m.take(k - s)),
            frac == frac_len(m.take(k - s)),
            dot == has_dot(m.take(k - s)),
            !dot ==> frac == 0,
        decreases e - k,
    {
        let c = t[k];
        assert(m[k - s] == c);
        assert(m.take(k - s + 1).drop_last() =~= m.take(k - s));
        assert(m.take(k - s + 1).last() == c);
        if c == '.' {
            dot = true;
            frac = 0;
        } else {
            let ghost before = digits@;
            digits.push(c);
            assert(digits@.drop_last() =~= before);
            assert(all_digits(digits@)) by {
                assert forall|j: int| 0 <= j < digits@.len() implies is_ascii_digit(#[trigger] digits@[j]) by {
                    if j < before.len() {
                        assert(digits@[j] == before[j]);
                    }
                }
            }
            if dot {
                frac = frac + 1;
            }
        }
        k = k + 1;
    }
    assert(m.take(e - s) =~= m);
    // The exponent.
    let mut exp_neg = false;
    let mut exp_digits: Vec<char> = Vec::new();
    if e < n {
        let mut j = e + 1;
        if j < n && (t[j] == '+' || t[j] == '-') {
            exp_neg = t[j] == '-';
            j = j + 1;
        }
        let ghost y = x.drop_first();
        assert(y =~= t@.subrange(e + 1, n as int));
        assert(strip_sign(y) =~= t@.subrange(j as int, n as int));
        let mut q = j;
        while q < n
            invariant
                j <= q <= n == t@.len(),
                exp_digits@ == t@.subrange(j as int, q as int),
            decreases n - q,
        {
            exp_digits.push(t[q]);
            assert(exp_digits@ =~= t@.subrange(j as int, q + 1));
            q = q + 1;
        }
        assert(exp_digits@ == strip_sign(y));
        assert(exp_neg == (y.len() > 0 && y[0] == '-'));
    } else {
        assert(x.len() == 0);
        assert(exp_digits@ =~= Seq::<char>::empty());
    }
    assert(all_digits(exp_digits@));
    assert(exp_value(x) == signed(exp_neg, digits_value(exp_digits@)));
    // The canonical digits.
    let dn = digits.len();
    let mut a: usize = 0;
    while a < dn && digits[a] == '0'
        invariant
            a <= dn == digits@.len(),
            forall|j: int| 0 <= j < a ==> #[trigger] digits@[j] == '0',
        decreases dn - a,
    {
        a = a + 1;
    }
    if a == dn {
        proof {
            lemma_all_zero(digits@);
        }
        return FloatForm::Zero;
    }
    let mut z: usize = dn - 1;
    while digits[z] == '0'
        invariant
            a <= z < dn == digits@.len(),
            digits@[a as int] != '0',
            forall|j: int| z < j < dn ==> #[trigger] digits@[j] == '0',
        decreases z,
    {
        z = z - 1;
    }
    let mut core: Vec<char> = Vec::new();
    let mut i = a;
    while i <= z
        invariant
            a <= i <= z + 1,
            z < dn == digits@.len(),
            core@ == digits@.subrange(a as int, i as int),
        decreases z + 1 - i,
    {
        core.push(digits[i]);
        assert(core@ =~= digits@.subrange(a as int, i + 1));
        i = i + 1;
    }
    let tz = dn - 1 - z;
    let ghost z1 = digits@.subrange(0, a as int);
    let ghost z2 = digits@.subrange(z + 1, dn as int);
    assert(digits@ =~= z1 + core@ + z2);
    proof {
        assert forall|j: int| 0 <= j < z1.len() implies #[trigger] z1[j] == '0' by {
            assert(z1[j] == digits@[j]);
        }
        assert forall|j: int| 0 <= j < z2.len() implies #[trigger] z2[j] == '0' by {
            assert(z2[j] == digits@[z + 1 + j]);
        }
        lemma_digits_split(z1, core@, z2);
        assert(core@[0] == digits@[a as int]);
        assert(core@[core@.len() - 1] == digits@[z as int]);
        assert(all_digits(core@)) by {
            assert forall|j: int| 0 <= j < core@.len() implies is_ascii_digit(#[trigger] core@[j]) by {
                assert(core@[j] == digits@[a + j]);
            }
        }
    }
    let shift = tz as i128 - frac as i128;
    let res = FloatForm::Num { neg, core, exp_neg, exp_digits, shift };
    proof {
        let tzn = tz as nat;
        assert(z2.len() == tzn);
        assert(float_value(t@) == FloatV::Num(
            signed(neg, digits_value(core@) * pow10(tzn)),
            signed(exp_neg, digits_value(exp_digits@)) + shift - tzn,
        ));
    }
    res
}

/// Whether two character sequences are the same.
fn same_chars(a: &Vec<char>, b: &Vec<char>) -> (res: bool)
    ensures
        res == (a@ == b@),
{
    if a.len() != b.len() {
        return false;
    }
    let mut i: usize = 0;
    while i < a.len()
        invariant
            a@.len() == b@.len(),
            i <= a@.len(),
            forall|j: int| 0 <= j < i ==> a@[j] == b@[j],
        decreases a.len() - i,
    {
        if a[i] != b[i] {
            return false;
        }
        i = i + 1;
    }
    assert(a@ =~= b@);
    true
}

proof fn lemma_zero_vs_nonzero(x1: int, n2: int, x2: int)
    requires
        n2 != 0,
    ensures
        !num_eq(0, x1, n2, x2),
        !num_eq(n2, x2, 0, x1),
{
    let p = pow10((x2 - x1) as nat);
    let q = pow10((x1 - x2) as nat);
    lemma_pow10_positive((x2 - x1) as nat);
    lemma_pow10_positive((x1 - x2) as nat);
    assert(n2 * p != 0) by (nonlinear_arith)
        requires
            n2 != 0,
            p >= 1,
    ;
    assert(n2 * q != 0) by (nonlinear_arith)
        requires
            n2 != 0,
            q >= 1,
    ;
}

/// Whether two float texts denote equal numbers.
pub fn float_texts_equal(a: &Vec<char>, b: &Vec<char>) -> (res: bool)
    ensures
        res == float_eq(a@, b@),
{
    let fa = read_float(a);
    let fb = read_float(b);
    match (fa, fb) {
        (FloatForm::Inf(s1), FloatForm::Inf(s2)) => s1 == s2,
        (FloatForm::Zero, FloatForm::Zero) => true,
        (
            FloatForm::Num { neg: n1, core: c1, exp_neg: en1, exp_digits: ed1, shift: sh1 },
            FloatForm::Num { neg: n2, core: c2, exp_neg: en2, exp_digits: ed2, shift: sh2 },
        ) => {
            let ghost t1 = choose|tz: nat|
                float_value(a@) == FloatV::Num(
                    signed(n1, digits_value(c1@) * #[trigger] pow10(tz)),
                    signed(en1, digits_value(ed1@)) + sh1 - tz,
                );
            let ghost t2 = choose|tz: nat|
                float_value(b@) == FloatV::Num(
                    signed(n2, digits_value(c2@) * #[trigger] pow10(tz)),
                    signed(en2, digits_value(ed2@)) + sh2 - tz,
                );
            proof {
                lemma_canonical_eq(
                    n1,
                    c1@,
                    t1,
                    signed(en1, digits_value(ed1@)) + sh1,
                    n2,
                    c2@,
                    t2,
                    signed(en2, digits_value(ed2@)) + sh2,
                );
            }
            n1 == n2 && same_chars(&c1, &c2) && exp_difference_is(&ed1, en1, &ed2, en2, sh2 - sh1)
        },
        (FloatForm::Zero, FloatForm::Num { neg, core, exp_neg, exp_digits, shift }) => {
            proof {
                let t2 = choose|tz: nat|
                    float_value(b@) == FloatV::Num(
                        signed(neg, digits_value(core@) * #[trigger] pow10(tz)),
                        signed(exp_neg, digits_value(exp_digits@)) + shift - tz,
                    );
                lemma_canonical_value(core@);
                lemma_pow10_positive(t2);
                assert(digits_value(core@) * pow10(t2) >= 1) by (nonlinear_arith)
                    requires
                        digits_value(core@) >= 1,
                        pow10(t2) >= 1,
                ;
                let v = float_value(a@)->Num_1;
                let w = float_value(b@);
                lemma_zero_vs_nonzero(v, w->Num_0, w->Num_1);
            }
            false
        },
        (FloatForm::Num { neg, core, exp_neg, exp_digits, shift }, FloatForm::Zero) => {
            proof {
                let t1 = choose|tz: nat|
                    float_value(a@) == FloatV::Num(
                        signed(neg, digits_value(core@) * #[trigger] pow10(tz)),
                        signed(exp_neg, digits_value(exp_digits@)) + shift - tz,
                    );
                lemma_canonical_value(core@);
                lemma_pow10_positive(t1);
                assert(digits_value(core@) * pow10(t1) >= 1) by (nonlinear_arith)
                    requires
                        digits_value(core@) >= 1,
                        pow10(t1) >= 1,
                ;
                let v = float_value(b@)->Num_1;
                let w = float_value(a@);
                lemma_zero_vs_nonzero(v, w->Num_0, w->Num_1);
            }
            false
        },
        _ => false,
    }
}


/// Whether two float texts denote equal numbers.
pub fn float_strings_equal(a: &String, b: &String) -> (res: bool)
    ensures
        res == float_eq(a@, b@),
{
    let ca = chars_of(a.as_str());
    let cb = chars_of(b.as_str());
    float_texts_equal(&ca, &cb)
}

// ---------------------------------------------------------------------------
// Equality of float texts is symmetric and transitive; it is reflexive on
// texts that denote a number.
// ---------------------------------------------------------------------------

/// `num_eq` compared at any exponent `m` no greater than both.
proof fn lemma_num_eq_at(n1: int, x1: int, n2: int, x2: int, m: int)
    requires
        m <= x1,
        m <= x2,
    ensures
        num_eq(n1, x1, n2, x2) == (n1 * pow10((x1 - m) as nat) == n2 * pow10((x2 - m) as nat)),
{
    let lo = if x1 <= x2 {
        x1
    } else {
        x2
    };
    let d = (lo - m) as nat;
    let a1 = (x1 - lo) as nat;
    let a2 = (x2 - lo) as nat;
    lemma_pow10_adds(a1, d);
    lemma_pow10_adds(a2, d);
    lemma_pow10_positive(d);
    assert((x1 - m) as nat == a1 + d);
    assert((x2 - m) as nat == a2 + d);
    let pd = pow10(d);
    let p1 = pow10(a1);
    let p2 = pow10(a2);
    assert(pow10(0) == 1);
    assert((n1 * (p1 * pd) == n2 * (p2 * pd)) == (n1 * p1 == n2 * p2)) by (nonlinear_arith)
        requires
            pd >= 1,
    ;
    if x1 <= x2 {
        assert(a1 == 0);
        assert(n1 * p1 == n1);
    } else {
        assert(a2 == 0);
        assert(n2 * p2 == n2);
    }
}

pub proof fn lemma_float_eq_symmetric(a: Seq<char>, b: Seq<char>)
    ensures
        float_eq(a, b) == float_eq(b, a),
{
    match (float_value(a), float_value(b)) {
        (FloatV::Num(n1, x1), FloatV::Num(n2, x2)) => {
            let m = if x1 <= x2 {
                x1
            } else {
                x2
            };
            lemma_num_eq_at(n1, x1, n2, x2, m);
            lemma_num_eq_at(n2, x2, n1, x1, m);
        },
        _ => {},
    }
}

pub proof fn lemma_float_eq_transitive(a: Seq<char>, b: Seq<char>, c: Seq<char>)
    requires
        float_eq(a, b),
        float_eq(b, c),
    ensures
        float_eq(a, c),
{
    match (float_value(a), float_value(b), float_value(c)) {
        (FloatV::Num(n1, x1), FloatV::Num(n2, x2), FloatV::Num(n3, x3)) => {
            let m12 = if x1 <= x2 {
                x1
            } else {
                x2
            };
            let m = if m12 <= x3 {
                m12
            } else {
                x3
            };
            lemma_num_eq_at(n1, x1, n2, x2, m);
            lemma_num_eq_at(n2, x2, n3, x3, m);
            lemma_num_eq_at(n1, x1, n3, x3, m);
        },
        _ => {},
    }
}

/// A text that denotes a number or an infinity equals itself.
pub proof fn lemma_float_eq_reflexive(a: Seq<char>)
    requires
        !(float_value(a) is NaN),
    ensures
        float_eq(a, a),
{
    match float_value(a) {
        FloatV::Num(n, x) => {
            assert(pow10(0) == 1);
        },
        _ => {},
    }
}

} // verus!
