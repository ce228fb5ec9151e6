//! Exact fixed-precision decimal values for prices and sizes.
//!
//! A `Decimal` is an integer mantissa read at a fixed decimal exponent: the
//! value it denotes is `mantissa * 10^exponent`. Prices and sizes of one
//! trading pair are always parsed at the pair's configured exponent, so two
//! values of the same field are comparable by their mantissas alone.

use vstd::arithmetic::div_mod::*;
use vstd::arithmetic::mul::*;
use vstd::prelude::*;
use vstd::string::StringSliceAdditionalSpecFns;

verus! {

/// A non-negative exact decimal quantity: `mantissa * 10^exponent`.
#[derive(Clone, Copy, Debug, PartialEq, Eq, Structural)]
pub struct Decimal {
    pub mantissa: u64,
    pub exponent: i8,
}

/// Why a wire string failed to parse into a `Decimal`.
#[derive(Clone, Copy, Debug, PartialEq, Eq, Structural)]
pub enum ParseError {
    /// The input is not a non-negative decimal literal of the form
    /// `digits` or `digits.digits`, or it carries more fractional digits
    /// than the configured exponent allows.
    MalformedDecimal,
    /// The literal is well-formed but its mantissa does not fit in 64 bits.
    Overflow,
}

/// How many fractional digits an exponent admits: `-e` when `e` is negative,
/// none otherwise.
pub open spec fn frac_limit(e: i8) -> nat {
    if e < 0 {
        (-(e as int)) as nat
    } else {
        0
    }
}

pub open spec fn is_digit(b: u8) -> bool {
    48 <= b <= 57
}

pub open spec fn all_digits(s: Seq<u8>) -> bool {
    forall|i: int| 0 <= i < s.len() ==> is_digit(#[trigger] s[i])
}

/// The integer denoted by a sequence of decimal digit bytes.
pub open spec fn digits_val(s: Seq<u8>) -> int
    decreases s.len(),
{
    if s.len() == 0 {
        0
    } else {
        digits_val(s.drop_last()) * 10 + (s.last() - 48)
    }
}

pub open spec fn pow10(n: nat) -> nat
    decreases n,
{
    if n == 0 {
        1
    } else {
        10 * pow10((n - 1) as nat)
    }
}

/// `p` splits `s` into a literal `digits '.' digits`, with at most `frac`
/// digits after the dot.
pub open spec fn dot_split_ok(s: Seq<u8>, frac: nat, p: int) -> bool {
    &&& 1 <= p < s.len() - 1
    &&& s[p] == 46u8
    &&& all_digits(s.subrange(0, p))
    &&& all_digits(s.subrange(p + 1, s.len() as int))
    &&& s.len() - p - 1 <= frac
}

/// A valid non-negative decimal literal at `frac` allowed fractional digits:
/// one or more digits, optionally followed by a dot and one to `frac` digits.
pub open spec fn valid_literal(s: Seq<u8>, frac: nat) -> bool {
    ||| (s.len() > 0 && all_digits(s))
    ||| (exists|p: int| dot_split_ok(s, frac, p))
}

/// The digits of `s` with the dot removed, as one digit string.
pub open spec fn lit_digits(s: Seq<u8>, frac: nat) -> Seq<u8> {
    if s.len() > 0 && all_digits(s) {
        s
    } else {
        let p = choose|p: int| dot_split_ok(s, frac, p);
        s.subrange(0, p) + s.subrange(p + 1, s.len() as int)
    }
}

/// How many fractional digits `s` spells out.
pub open spec fn lit_frac_len(s: Seq<u8>, frac: nat) -> nat {
    if s.len() > 0 && all_digits(s) {
        0
    } else {
        let p = choose|p: int| dot_split_ok(s, frac, p);
        (s.len() - p - 1) as nat
    }
}

/// The mantissa a valid literal denotes at `frac` fractional digits:
/// its digits, scaled up to exactly `frac` fractional places.
pub open spec fn lit_mantissa(s: Seq<u8>, frac: nat) -> int {
    digits_val(lit_digits(s, frac)) * pow10((frac - lit_frac_len(s, frac)) as nat)
}

pub proof fn lemma_pow10_pos(n: nat)
    ensures
        pow10(n) >= 1,
    decreases n,
{
    if n > 0 {
        lemma_pow10_pos((n - 1) as nat);
    }
}

pub proof fn lemma_pow10_adds(a: nat, b: nat)
    ensures
        pow10(a + b) == pow10(a) * pow10(b),
    decreases a,
{
    if a == 0 {
        assert(pow10(a) == 1);
    } else {
        lemma_pow10_adds((a - 1) as nat, b);
        assert(((a + b - 1) as nat) == ((a - 1) as nat) + b);
        assert(pow10((a + b - 1) as nat) == pow10(((a - 1) as nat) + b));
        assert(pow10(a + b) == 10 * pow10((a + b - 1) as nat));
        assert(pow10(a) == 10 * pow10((a - 1) as nat));
        assert(pow10(a + b) == pow10(a) * pow10(b)) by (nonlinear_arith)
            requires
                pow10(a + b) == 10 * pow10(((a - 1) as nat) + b),
                pow10(((a - 1) as nat) + b) == pow10((a - 1) as nat) * pow10(b),
                pow10(a) == 10 * pow10((a - 1) as nat),
        ;
    }
}

pub proof fn lemma_digits_val_nonneg(s: Seq<u8>)
    requires
        all_digits(s),
    ensures
        digits_val(s) >= 0,
    decreases s.len(),
{
    if s.len() > 0 {
        assert(all_digits(s.drop_last()));
        lemma_digits_val_nonneg(s.drop_last());
    }
}

pub proof fn lemma_digits_val_concat(a: Seq<u8>, b: Seq<u8>)
    ensures
        digits_val(a + b) == digits_val(a) * pow10(b.len()) + digits_val(b),
    decreases b.len(),
{
    if b.len() == 0 {
        assert(a + b =~= a);
        assert(pow10(0) == 1);
        assert(digits_val(b) == 0);
    } else {
        let b0 = b.drop_last();
        lemma_digits_val_concat(a, b0);
        assert((a + b).drop_last() =~= a + b0);
        assert((a + b).last() == b.last());
        assert(digits_val(a + b) == digits_val(a + b0) * 10 + (b.last() - 48));
        assert(digits_val(b) == digits_val(b0) * 10 + (b.last() - 48));
        assert(pow10(b.len()) == 10 * pow10(b0.len()));
        assert(digits_val(a + b) == digits_val(a) * pow10(b.len()) + digits_val(b))
            by (nonlinear_arith)
            requires
                digits_val(a + b) == digits_val(a + b0) * 10 + (b.last() - 48),
                digits_val(a + b0) == digits_val(a) * pow10(b0.len()) + digits_val(b0),
                digits_val(b) == digits_val(b0) * 10 + (b.last() - 48),
                pow10(b.len()) == 10 * pow10(b0.len()),
        ;
    }
}

/// If a literal splits at some dot, that split position is the only dot.
pub proof fn lemma_dot_split_unique(s: Seq<u8>, frac: nat, p1: int, p2: int)
    requires
        dot_split_ok(s, frac, p1),
        dot_split_ok(s, frac, p2),
    ensures
        p1 == p2,
{
    if p1 < p2 {
        assert(is_digit(s.subrange(0, p2)[p1]));
    } else if p2 < p1 {
        assert(is_digit(s.subrange(0, p1)[p2]));
    }
}

/// Every byte of a valid literal is a digit or the dot.
pub proof fn lemma_valid_literal_chars(s: Seq<u8>, frac: nat)
    requires
        valid_literal(s, frac),
    ensures
        forall|j: int| 0 <= j < s.len() ==> is_digit(#[trigger] s[j]) || s[j] == 46u8,
{
    if s.len() > 0 && all_digits(s) {
    } else {
        let p = choose|p: int| dot_split_ok(s, frac, p);
        assert(forall|j: int| 0 <= j < s.len() ==> is_digit(#[trigger] s[j]) || s[j] == 46u8) by {
            assert forall|j: int| 0 <= j < s.len() && j != p implies is_digit(s[j]) by {
                if j < p {
                    assert(is_digit(s.subrange(0, p)[j]));
                } else {
                    assert(is_digit(s.subrange(p + 1, s.len() as int)[j - p - 1]));
                }
            }
        }
    }
}

/// In a valid literal, a dot sits only at its split position.
pub proof fn lemma_valid_literal_dot(s: Seq<u8>, frac: nat, p: int)
    requires
        valid_literal(s, frac),
        0 <= p < s.len(),
        s[p] == 46u8,
    ensures
        dot_split_ok(s, frac, p),
{
    assert(!is_digit(s[p]));
    let p2 = choose|p2: int| dot_split_ok(s, frac, p2);
    assert(dot_split_ok(s, frac, p2));
    if p2 != p {
        if p < p2 {
            assert(is_digit(s.subrange(0, p2)[p]));
        } else {
            assert(is_digit(s.subrange(p2 + 1, s.len() as int)[p - p2 - 1]));
        }
    }
}

/// The digits of `s` read so far, position `i`, with the dot at `dot` left out
/// (`dot` at or past `i` means no dot has been passed yet).
spec fn scanned(s: Seq<u8>, dot: int, i: int) -> Seq<u8> {
    if dot >= i {
        s.subrange(0, i)
    } else {
        s.subrange(0, dot) + s.subrange(dot + 1, i)
    }
}

/// The digits of `s` from position `i` on, with the dot at `dot` left out.
spec fn digits_from(s: Seq<u8>, dot: int, i: int) -> Seq<u8> {
    if dot >= s.len() || dot < i {
        s.subrange(i, s.len() as int)
    } else {
        s.subrange(i, dot) + s.subrange(dot + 1, s.len() as int)
    }
}

/// Parse a non-negative decimal literal at the given exponent.
///
/// The literal is one or more digits, optionally followed by a dot and one
/// to `frac_limit(exponent)` further digits. The resulting mantissa is the
/// literal's digit string scaled up to exactly `frac_limit(exponent)`
/// fractional places; a sign, exponent notation, any other character, too
/// many fractional digits, or an empty string is malformed.
pub fn parse(s: &str, exponent: i8) -> (r: Result<Decimal, ParseError>)
    ensures
        ({
            let bs = s.spec_bytes();
            let frac = frac_limit(exponent);
            match r {
                Ok(v) => valid_literal(bs, frac) && 0 <= lit_mantissa(bs, frac) <= u64::MAX
                    && v.mantissa == lit_mantissa(bs, frac) && v.exponent == exponent,
                Err(ParseError::MalformedDecimal) => !valid_literal(bs, frac),
                Err(ParseError::Overflow) => valid_literal(bs, frac) && lit_mantissa(bs, frac)
                    > u64::MAX,
            }
        }),
{
    let bytes: &[u8] = s.as_bytes();
    let n: usize = bytes.len();
    let ghost bs = s.spec_bytes();
    let ghost fg = frac_limit(exponent);
    if n == 0 {
        return Err(ParseError::MalformedDecimal);
    }
    let frac: usize = if exponent < 0 {
        (-(exponent as i64)) as usize
    } else {
        0
    };
    assert(frac == fg);
    // Scan: locate the single dot and check the alphabet.
    let mut dot_at: usize = n;  // `n` means: no dot seen
    let mut i: usize = 0;
    while i < n
        invariant
            bs == s.spec_bytes(),
            fg == frac_limit(exponent),
            bytes@ == bs,
            n == bs.len(),
            0 < n,
            i <= n,
            dot_at == n || (1 <= dot_at < i && dot_at < n - 1 && bs[dot_at as int] == 46),
            forall|j: int| 0 <= j < i && j != dot_at ==> is_digit(#[trigger] bs[j]),
        decreases n - i,
    {
        let b = bytes[i];
        if b == 46 {
            if dot_at != n || i == 0 || i == n - 1 {
                proof {
                    if valid_literal(bs, fg) {
                        lemma_valid_literal_dot(bs, fg, i as int);
                        if dot_at != n {
                            lemma_valid_literal_dot(bs, fg, dot_at as int);
                            lemma_dot_split_unique(bs, fg, i as int, dot_at as int);
                        }
                        assert(false);
                    }
                }
                return Err(ParseError::MalformedDecimal);
            }
            dot_at = i;
        } else if b < 48 || b > 57 {
            proof {
                if valid_literal(bs, fg) {
                    lemma_valid_literal_chars(bs, fg);
                    assert(is_digit(bs[i as int]) || bs[i as int] == 46u8);
                    assert(false);
                }
            }
            return Err(ParseError::MalformedDecimal);
        }
        i += 1;
    }
    let frac_len: usize = if dot_at == n {
        0
    } else {
        n - 1 - dot_at
    };
    if frac_len > frac {
        proof {
            if valid_literal(bs, fg) {
                lemma_valid_literal_dot(bs, fg, dot_at as int);
                assert(false);
            }
        }
        return Err(ParseError::MalformedDecimal);
    }
    // The scan succeeded: the input is a valid literal whose digit string is `dd`.
    let ghost dd = scanned(bs, dot_at as int, n as int);
    proof {
        if dot_at == n {
            assert(dd =~= bs);
            assert(valid_literal(bs, fg));
            assert(lit_digits(bs, fg) == dd);
            assert(lit_frac_len(bs, fg) == frac_len as nat);
        } else {
            let left = bs.subrange(0, dot_at as int);
            let right = bs.subrange(dot_at as int + 1, n as int);
            assert forall|j: int| 0 <= j < left.len() implies is_digit(#[trigger] left[j]) by {
                assert(left[j] == bs[j]);
            }
            assert forall|j: int| 0 <= j < right.len() implies is_digit(#[trigger] right[j]) by {
                assert(right[j] == bs[j + dot_at + 1]);
            }
            assert(dot_split_ok(bs, fg, dot_at as int));
            assert(valid_literal(bs, fg));
            assert(!is_digit(bs[dot_at as int]));
            assert(!all_digits(bs));
            let p = choose|p: int| dot_split_ok(bs, fg, p);
            lemma_dot_split_unique(bs, fg, p, dot_at as int);
            assert(lit_digits(bs, fg) == dd);
            assert(lit_frac_len(bs, fg) == frac_len as nat);
        }
        assert forall|j: int| 0 <= j < dd.len() implies is_digit(dd[j]) by {
            if dot_at == n || j < dot_at {
                assert(dd[j] == bs[j]);
            } else {
                assert(dd[j] == bs[j + 1]);
            }
        }
        lemma_digits_val_nonneg(dd);
    }
    // Accumulate the digit string's value, rejecting a mantissa past 64 bits.
    let mut m: u64 = 0;
    i = 0;
    while i < n
        invariant
            bs == s.spec_bytes(),
            fg == frac_limit(exponent),
            bytes@ == bs,
            n == bs.len(),
            0 < n,
            i <= n,
            dot_at == n || (1 <= dot_at < n - 1 && bs[dot_at as int] == 46),
            forall|j: int| 0 <= j < n && j != dot_at ==> is_digit(#[trigger] bs[j]),
            valid_literal(bs, fg),
            dd == scanned(bs, dot_at as int, n as int),
            lit_digits(bs, fg) == dd,
            lit_frac_len(bs, fg) == frac_len as nat,
            frac_len <= frac,
            frac == fg,
            all_digits(dd),
            m == digits_val(scanned(bs, dot_at as int, i as int)),
        decreases n - i,
    {
        let b = bytes[i];
        if b != 46 {
            let ghost sc = scanned(bs, dot_at as int, i as int);
            let ghost scd = sc.push(bs[i as int]);
            proof {
                assert(is_digit(bs[i as int]));
                assert(scd.drop_last() =~= sc);
                assert(digits_val(scd) == m * 10 + (b - 48));
            }
            let d: u64 = (b - 48) as u64;
            let step = match m.checked_mul(10) {
                Some(x) => x.checked_add(d),
                None => None,
            };
            match step {
                Some(x) => {
                    m = x;
                },
                None => {
                    proof {
                        let rest = digits_from(bs, dot_at as int, i as int + 1);
                        assert(dd =~= scd + rest);
                        assert forall|j: int| 0 <= j < rest.len() implies is_digit(rest[j]) by {
                            if dot_at < n && i < dot_at && j >= dot_at - i - 1 {
                                assert(rest[j] == bs[j + i + 2]);
                            } else {
                                assert(rest[j] == bs[j + i + 1]);
                            }
                        }
                        lemma_digits_val_nonneg(rest);
                        lemma_digits_val_concat(scd, rest);
                        lemma_pow10_pos(rest.len());
                        assert(digits_val(dd) >= digits_val(scd)) by (nonlinear_arith)
                            requires
                                digits_val(dd) == digits_val(scd) * pow10(rest.len())
                                    + digits_val(rest),
                                digits_val(rest) >= 0,
                                digits_val(scd) >= 0,
                                pow10(rest.len()) >= 1,
                        ;
                        let sc_all = (frac_limit(exponent) - lit_frac_len(bs, fg)) as nat;
                        lemma_pow10_pos(sc_all);
                        assert(lit_mantissa(bs, fg) >= digits_val(dd)) by (nonlinear_arith)
                            requires
                                lit_mantissa(bs, fg) == digits_val(dd) * pow10(sc_all),
                                digits_val(dd) >= 0,
                                pow10(sc_all) >= 1,
                        ;
                        assert(digits_val(scd) > u64::MAX);
                    }
                    return Err(ParseError::Overflow);
                },
            }
            proof {
                assert(scanned(bs, dot_at as int, i as int + 1) =~= scd);
            }
        } else {
            proof {
                assert(scanned(bs, dot_at as int, i as int + 1) =~= scanned(
                    bs,
                    dot_at as int,
                    i as int,
                ));
            }
        }
        i += 1;
    }
    proof {
        assert(m == digits_val(dd));
        assert(pow10(0) == 1);
    }
    // Scale up to exactly `frac` fractional places.
    let scale: usize = frac - frac_len;
    let mut j: usize = 0;
    while j < scale
        invariant
            bs == s.spec_bytes(),
            fg == frac_limit(exponent),
            j <= scale,
            valid_literal(bs, fg),
            lit_digits(bs, fg) == dd,
            lit_frac_len(bs, fg) == frac_len as nat,
            scale == fg - frac_len,
            frac_len <= frac,
            frac == fg,
            all_digits(dd),
            digits_val(dd) >= 0,
            m == digits_val(dd) * pow10(j as nat),
        decreases scale - j,
    {
        match m.checked_mul(10) {
            Some(x) => {
                proof {
                    assert(pow10((j + 1) as nat) == 10 * pow10(j as nat));
                    assert(digits_val(dd) * pow10((j + 1) as nat) == m * 10) by (nonlinear_arith)
                        requires
                            m == digits_val(dd) * pow10(j as nat),
                            pow10((j + 1) as nat) == 10 * pow10(j as nat),
                    ;
                }
                m = x;
            },
            None => {
                proof {
                    let k = (scale - j - 1) as nat;
                    lemma_pow10_adds((j + 1) as nat, k);
                    lemma_pow10_pos(k);
                    assert(pow10((j + 1) as nat) == 10 * pow10(j as nat));
                    assert(lit_mantissa(bs, fg) == digits_val(dd) * pow10((scale) as nat));
                    assert(lit_mantissa(bs, fg) >= m * 10) by (nonlinear_arith)
                        requires
                            lit_mantissa(bs, fg) == digits_val(dd) * pow10(scale as nat),
                            pow10(scale as nat) == pow10((j + 1) as nat) * pow10(k),
                            pow10((j + 1) as nat) == 10 * pow10(j as nat),
                            m == digits_val(dd) * pow10(j as nat),
                            pow10(k) >= 1,
                            m >= 0,
                            digits_val(dd) >= 0,
                            pow10(j as nat) >= 0,
                    ;
                }
                return Err(ParseError::Overflow);
            },
        }
        j += 1;
    }
    proof {
        assert(lit_mantissa(bs, fg) == digits_val(dd) * pow10(scale as nat));
        assert(m == lit_mantissa(bs, fg));
    }
    Ok(Decimal { mantissa: m, exponent })
}

/// The decimal digit string of `n`, most significant digit first.
pub open spec fn dec_digits(n: nat) -> Seq<u8>
    decreases n,
{
    if n < 10 {
        seq![(n + 48) as u8]
    } else {
        dec_digits(n / 10) + seq![((n % 10) + 48) as u8]
    }
}

/// The low `w` decimal digits of `n`, zero-padded to exactly width `w`.
pub open spec fn dec_digits_padded(n: nat, w: nat) -> Seq<u8>
    decreases w,
{
    if w == 0 {
        Seq::empty()
    } else {
        dec_digits_padded(n / 10, (w - 1) as nat) + seq![((n % 10) + 48) as u8]
    }
}

/// How a mantissa is rendered at `frac` fractional places: its high digits,
/// then a dot and exactly `frac` low digits when `frac` is positive.
pub open spec fn format_spec(m: u64, frac: nat) -> Seq<u8> {
    if frac == 0 {
        dec_digits(m as nat)
    } else {
        dec_digits((m as nat) / pow10(frac)) + seq![46u8] + dec_digits_padded(m as nat, frac)
    }
}

pub proof fn lemma_dec_digits_props(n: nat)
    ensures
        dec_digits(n).len() >= 1,
        all_digits(dec_digits(n)),
        digits_val(dec_digits(n)) == n,
    decreases n,
{
    if n < 10 {
        assert(dec_digits(n) == seq![(n + 48) as u8]);
        assert(dec_digits(n).drop_last() =~= Seq::<u8>::empty());
        assert(digits_val(Seq::<u8>::empty()) == 0);
        assert(dec_digits(n).last() == (n + 48) as u8);
        assert(digits_val(dec_digits(n)) == n);
    } else {
        lemma_dec_digits_props(n / 10);
        let d0 = dec_digits(n / 10);
        let dn = dec_digits(n);
        assert(dn.drop_last() =~= d0);
        assert(dn.last() == ((n % 10) + 48) as u8);
        assert(digits_val(dn) == digits_val(d0) * 10 + (n % 10));
        lemma_fundamental_div_mod(n as int, 10);
        assert forall|j: int| 0 <= j < dn.len() implies is_digit(#[trigger] dn[j]) by {
            if j < d0.len() {
                assert(dn[j] == d0[j]);
            }
        }
    }
}

pub proof fn lemma_padded_digits_props(n: nat, w: nat)
    ensures
        dec_digits_padded(n, w).len() == w,
        all_digits(dec_digits_padded(n, w)),
        digits_val(dec_digits_padded(n, w)) == n % pow10(w),
    decreases w,
{
    lemma_pow10_pos(w);
    if w == 0 {
        assert(pow10(0) == 1);
        assert(n % 1 == 0) by (nonlinear_arith);
    } else {
        let w0 = (w - 1) as nat;
        lemma_padded_digits_props(n / 10, w0);
        let p0 = pow10(w0);
        let p = pow10(w);
        assert(p == 10 * p0);
        lemma_pow10_pos(w0);
        let pd0 = dec_digits_padded(n / 10, w0);
        let pd = dec_digits_padded(n, w);
        assert(pd.drop_last() =~= pd0);
        assert(pd.last() == ((n % 10) + 48) as u8);
        assert(digits_val(pd) == digits_val(pd0) * 10 + (n % 10));
        // n % (10 * p0) == ((n / 10) % p0) * 10 + n % 10
        lemma_fundamental_div_mod(n as int, 10);
        lemma_fundamental_div_mod(n as int, p as int);
        lemma_fundamental_div_mod((n / 10) as int, p0 as int);
        lemma_div_denominator(n as int, 10, p0 as int);
        assert(n % p == ((n / 10) % p0) * 10 + n % 10) by (nonlinear_arith)
            requires
                p == 10 * p0,
                0 < p0,
                n == 10 * (n / 10) + n % 10,
                n == p * ((n as int) / (p as int)) + n % p,
                (n / 10) as int == p0 * (((n / 10) as int) / (p0 as int)) + (n / 10) % p0,
                ((n as int) / 10) / (p0 as int) == (n as int) / (10 * p0 as int),
        ;
        assert forall|j: int| 0 <= j < pd.len() implies is_digit(#[trigger] pd[j]) by {
            if j < pd0.len() {
                assert(pd[j] == pd0[j]);
            }
        }
    }
}

/// Formatting a mantissa at `frac` fractional places yields a valid literal
/// that denotes exactly that mantissa back at the same precision.
pub proof fn lemma_format_round_trip(m: u64, frac: nat)
    ensures
        valid_literal(format_spec(m, frac), frac),
        lit_mantissa(format_spec(m, frac), frac) == m,
{
    let out = format_spec(m, frac);
    if frac == 0 {
        lemma_dec_digits_props(m as nat);
        assert(valid_literal(out, frac));
        assert(lit_digits(out, frac) == out);
        assert(lit_frac_len(out, frac) == 0);
        assert(pow10(0) == 1);
        assert((frac - lit_frac_len(out, frac)) as nat == 0);
        assert(lit_mantissa(out, frac) == digits_val(out) * pow10(0));
        assert(digits_val(out) == m);
    } else {
        let p = pow10(frac);
        let hi = dec_digits((m as nat) / p);
        let lo = dec_digits_padded(m as nat, frac);
        lemma_dec_digits_props((m as nat) / p);
        lemma_padded_digits_props(m as nat, frac);
        lemma_pow10_pos(frac);
        let dp = hi.len() as int;
        assert(out == hi + seq![46u8] + lo);
        assert(out[dp] == 46u8);
        assert(out.subrange(0, dp) =~= hi);
        assert(out.subrange(dp + 1, out.len() as int) =~= lo);
        assert(out.len() - dp - 1 == frac);
        assert(dot_split_ok(out, frac, dp));
        assert(valid_literal(out, frac));
        assert(!is_digit(out[dp]));
        assert(!all_digits(out));
        let p2 = choose|q: int| dot_split_ok(out, frac, q);
        lemma_dot_split_unique(out, frac, p2, dp);
        assert(lit_digits(out, frac) == hi + lo);
        assert(lit_frac_len(out, frac) == frac);
        lemma_digits_val_concat(hi, lo);
        assert(pow10(lo.len()) == p);
        assert(digits_val(hi + lo) == digits_val(hi) * p + digits_val(lo));
        assert(m == p * ((m as nat) / p) + (m as nat) % p) by {
            lemma_fundamental_div_mod(m as int, p as int);
        }
        assert(digits_val(hi) * p == p * digits_val(hi)) by {
            lemma_mul_is_commutative(digits_val(hi), p as int);
        }
        assert(p * digits_val(hi) == p * ((m as nat) / p));
        assert(digits_val(hi + lo) == m);
        assert((frac - lit_frac_len(out, frac)) as nat == 0);
        assert(pow10((frac - lit_frac_len(out, frac)) as nat) == 1);
        assert(lit_mantissa(out, frac) == digits_val(hi + lo) * pow10(0));
    }
}

/// Precision round trip: the mantissa a valid literal parses to formats back
/// to a literal that denotes the same mantissa at the same precision, so the
/// two spell the same number.
pub proof fn lemma_precision_round_trip(s: Seq<u8>, e: i8)
    requires
        valid_literal(s, frac_limit(e)),
        0 <= lit_mantissa(s, frac_limit(e)) <= u64::MAX,
    ensures
        valid_literal(format_spec(lit_mantissa(s, frac_limit(e)) as u64, frac_limit(e)), frac_limit(e)),
        lit_mantissa(format_spec(lit_mantissa(s, frac_limit(e)) as u64, frac_limit(e)), frac_limit(e))
            == lit_mantissa(s, frac_limit(e)),
{
    lemma_format_round_trip(lit_mantissa(s, frac_limit(e)) as u64, frac_limit(e));
}

/// Appends the decimal digits of `n` to `out`.
fn push_dec_digits(n: u64, out: &mut Vec<u8>)
    ensures
        final(out)@ == old(out)@ + dec_digits(n as nat),
    decreases n,
{
    if n < 10 {
        out.push((n as u8) + 48);
        proof {
            assert(final(out)@ =~= old(out)@ + dec_digits(n as nat));
        }
    } else {
        push_dec_digits(n / 10, out);
        out.push(((n % 10) as u8) + 48);
        proof {
            assert(final(out)@ =~= old(out)@ + dec_digits(n as nat));
        }
    }
}

/// Appends the low `width` decimal digits of `n` to `out`, zero-padded.
fn push_padded_digits(n: u64, width: usize, out: &mut Vec<u8>)
    ensures
        final(out)@ == old(out)@ + dec_digits_padded(n as nat, width as nat),
    decreases width,
{
    if width > 0 {
        push_padded_digits(n / 10, width - 1, out);
        out.push(((n % 10) as u8) + 48);
        proof {
            assert(final(out)@ =~= old(out)@ + dec_digits_padded(n as nat, width as nat));
        }
    } else {
        proof {
            assert(final(out)@ =~= old(out)@ + dec_digits_padded(n as nat, width as nat));
        }
    }
}

/// The characters of a byte string read as ASCII.
pub open spec fn ascii_chars(s: Seq<u8>) -> Seq<char> {
    Seq::new(s.len(), |i: int| s[i] as char)
}

/// Relies on `String::from_utf8`: bytes that are all ASCII are valid UTF-8
/// and form a string of exactly those characters, one per byte.
#[verifier::external_body]
fn ascii_string(v: Vec<u8>) -> (r: String)
    requires
        forall|i: int| 0 <= i < v@.len() ==> #[trigger] v@[i] < 128,
    ensures
        r@ == ascii_chars(v@),
{
    String::from_utf8(v).unwrap_or_default()
}

impl Decimal {
    /// Zero is zero at every exponent: exactly a zero mantissa.
    pub fn is_zero(&self) -> (r: bool)
        ensures
            r == (self.mantissa == 0),
    {
        self.mantissa == 0
    }

    /// Numeric order of two values read at one common exponent.
    pub fn lt(&self, other: &Decimal) -> (r: bool)
        requires
            self.exponent == other.exponent,
        ensures
            r == (self.mantissa < other.mantissa),
    {
        self.mantissa < other.mantissa
    }

    /// The value written back out as a decimal literal, as ASCII bytes:
    /// the mantissa's high digits, then a dot and exactly
    /// `frac_limit(exponent)` fractional digits when the exponent is
    /// negative.
    pub fn render_bytes(&self) -> (r: Vec<u8>)
        ensures
            r@ == format_spec(self.mantissa, frac_limit(self.exponent)),
    {
        let ghost fg = frac_limit(self.exponent);
        let frac: usize = if self.exponent < 0 {
            (-(self.exponent as i64)) as usize
        } else {
            0
        };
        assert(frac == fg);
        let mut out: Vec<u8> = Vec::new();
        if frac == 0 {
            push_dec_digits(self.mantissa, &mut out);
            proof {
                assert(out@ =~= format_spec(self.mantissa, fg));
            }
        } else {
            let m = self.mantissa;
            let mut q: u64 = m;
            let mut j: usize = 0;
            proof {
                assert(pow10(0) == 1);
            }
            while j < frac
                invariant
                    j <= frac,
                    q == (m as nat) / pow10(j as nat),
                decreases frac - j,
            {
                proof {
                    lemma_pow10_pos(j as nat);
                    lemma_div_denominator(m as int, pow10(j as nat) as int, 10);
                    assert(pow10((j + 1) as nat) == pow10(j as nat) * 10) by (nonlinear_arith)
                        requires
                            pow10((j + 1) as nat) == 10 * pow10(j as nat),
                    ;
                }
                q = q / 10;
                j += 1;
            }
            push_dec_digits(q, &mut out);
            out.push(46);
            push_padded_digits(m, frac, &mut out);
            proof {
                assert(out@ =~= format_spec(self.mantissa, fg));
            }
        }
        out
    }

    /// The value written back out as a decimal literal.
    pub fn render(&self) -> (r: String)
        ensures
            r@ == ascii_chars(format_spec(self.mantissa, frac_limit(self.exponent))),
    {
        let bytes = self.render_bytes();
        proof {
            let fs = format_spec(self.mantissa, frac_limit(self.exponent));
            if frac_limit(self.exponent) == 0 {
                lemma_dec_digits_props(self.mantissa as nat);
            } else {
                lemma_format_round_trip(self.mantissa, frac_limit(self.exponent));
                lemma_valid_literal_chars(fs, frac_limit(self.exponent));
            }
            assert forall|i: int| 0 <= i < bytes@.len() implies #[trigger] bytes@[i] < 128 by {
                if frac_limit(self.exponent) == 0 {
                    assert(is_digit(bytes@[i]));
                } else {
                    assert(is_digit(bytes@[i]) || bytes@[i] == 46u8);
                }
            }
        }
        ascii_string(bytes)
    }
}

} // verus!
