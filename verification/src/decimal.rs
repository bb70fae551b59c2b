//! Lossless encode/decode of arbitrary-precision non-negative integers
//! to/from base-10 decimal strings.
//!
//! The integer is carried as its sequence of decimal digits, most
//! significant first, so that every conversion stays exact: no stage of the
//! codec rounds, and values far beyond 64-bit range round-trip verbatim.
//! Decoding first parses the text as an arbitrary-precision decimal
//! (optional sign, digits, at most one decimal point), then requires the
//! value to be an integer and non-negative.

use vstd::prelude::*;
use vstd::string::StrSliceExecFns;
use vstd::string::StringExecFns;
use crate::DecodeError;

verus! {

/// An arbitrary-precision non-negative integer, carried as its canonical
/// base-10 digit sequence: most significant digit first, every digit below
/// ten, no leading zero except for the single-digit zero itself.
#[derive(Clone, Debug)]
pub struct BigUintValue {
    pub digits: Vec<u8>,
}

/// Whether a digit sequence is canonical: non-empty, all digits below ten,
/// and no leading zero unless the sequence is the single digit zero.
pub open spec fn canonical_digits(ds: Seq<u8>) -> bool {
    &&& ds.len() >= 1
    &&& forall|i: int| 0 <= i < ds.len() ==> #[trigger] ds[i] < 10
    &&& ds.len() > 1 ==> ds[0] != 0
}

/// The numeric value of a digit sequence, most significant digit first.
pub open spec fn digits_value(ds: Seq<u8>) -> nat
    decreases ds.len(),
{
    if ds.len() == 0 {
        0
    } else {
        digits_value(ds.drop_last()) * 10 + ds.last() as nat
    }
}

impl BigUintValue {
    /// Whether this value is canonical; constructors of this crate only
    /// produce canonical values.
    pub open spec fn wf(&self) -> bool {
        canonical_digits(self.digits@)
    }

    /// The numeric value represented.
    pub open spec fn value(&self) -> nat {
        digits_value(self.digits@)
    }

    /// Checks canonicity of the digit sequence.
    pub fn well_formed(&self) -> (r: bool)
        ensures
            r == self.wf(),
    {
        if self.digits.len() == 0 {
            return false;
        }
        if self.digits.len() > 1 && self.digits[0] == 0 {
            return false;
        }
        let mut i: usize = 0;
        while i < self.digits.len()
            invariant
                i <= self.digits@.len(),
                forall|j: int| 0 <= j < i ==> #[trigger] self.digits@[j] < 10,
            decreases self.digits@.len() - i,
        {
            if self.digits[i] >= 10 {
                return false;
            }
            i = i + 1;
        }
        true
    }
}

/// Whether a character is a decimal digit.
pub open spec fn is_dec_digit(c: char) -> bool {
    '0' <= c && c <= '9'
}

/// The value of a decimal digit character.
pub open spec fn dec_digit_val(c: char) -> u8
    recommends
        is_dec_digit(c),
{
    (c as u8 - '0' as u8) as u8
}

/// The character for a decimal digit value.
pub open spec fn dec_digit_char(d: u8) -> char
    recommends
        d < 10,
{
    if d == 0 {
        '0'
    } else if d == 1 {
        '1'
    } else if d == 2 {
        '2'
    } else if d == 3 {
        '3'
    } else if d == 4 {
        '4'
    } else if d == 5 {
        '5'
    } else if d == 6 {
        '6'
    } else if d == 7 {
        '7'
    } else if d == 8 {
        '8'
    } else {
        '9'
    }
}

/// The digit values of a digit-character sequence.
pub open spec fn digit_vals(s: Seq<char>) -> Seq<u8> {
    s.map_values(|c: char| dec_digit_val(c))
}

/// The digit characters of a digit-value sequence.
pub open spec fn dec_chars_of(ds: Seq<u8>) -> Seq<char> {
    ds.map_values(|d: u8| dec_digit_char(d))
}

/// Whether every character of `s` is a decimal digit.
pub open spec fn all_dec_digits(s: Seq<char>) -> bool {
    forall|i: int| 0 <= i < s.len() ==> is_dec_digit(#[trigger] s[i])
}

/// Whether `p` is the position of the decimal point of a well-formed
/// unsigned decimal body `b` (`p == b.len()` when there is no point):
/// digits on both sides, at least one digit in all.
pub open spec fn split_ok(b: Seq<char>, p: int) -> bool {
    &&& 0 <= p <= b.len()
    &&& b.len() > 0
    &&& (p == b.len() || b[p] == '.')
    &&& (p < b.len() ==> b.len() > 1)
    &&& all_dec_digits(b.take(p))
    &&& (p < b.len() ==> all_dec_digits(b.skip(p + 1)))
}

/// Whether `b` is a well-formed unsigned decimal body: digits with at most
/// one decimal point and at least one digit.
pub open spec fn decimal_shape(b: Seq<char>) -> bool {
    exists|p: int| split_ok(b, p)
}

/// The position of the decimal point of a well-formed body (`b.len()` when
/// there is none); unique by `lemma_split_unique`.
pub open spec fn dot_split(b: Seq<char>) -> int {
    choose|p: int| split_ok(b, p)
}

/// The integer-part digit characters of a well-formed body.
pub open spec fn int_part(b: Seq<char>) -> Seq<char> {
    b.take(dot_split(b))
}

/// The fractional-part digit characters of a well-formed body; empty when
/// there is no decimal point.
pub open spec fn frac_part(b: Seq<char>) -> Seq<char> {
    if dot_split(b) < b.len() {
        b.skip(dot_split(b) + 1)
    } else {
        Seq::empty()
    }
}

/// Whether the fractional part of a well-formed body is zero.
pub open spec fn frac_zero(b: Seq<char>) -> bool {
    forall|i: int| 0 <= i < frac_part(b).len() ==> #[trigger] frac_part(b)[i] == '0'
}

/// The body of a decimal string: the part after the optional single
/// leading sign.
pub open spec fn body_of(s: Seq<char>) -> Seq<char> {
    if s.len() > 0 && (s[0] == '-' || s[0] == '+') {
        s.skip(1)
    } else {
        s
    }
}

/// Whether a decimal string carries a negative sign.
pub open spec fn is_negative_sign(s: Seq<char>) -> bool {
    s.len() > 0 && s[0] == '-'
}

/// The digit sequence with leading zeros removed, down to at least one
/// digit.
pub open spec fn strip_zeros(ds: Seq<u8>) -> Seq<u8>
    decreases ds.len(),
{
    if ds.len() > 1 && ds[0] == 0 {
        strip_zeros(ds.skip(1))
    } else {
        ds
    }
}

/// The canonical digit sequence with the same value as `ds`.
pub open spec fn canonical_of(ds: Seq<u8>) -> Seq<u8> {
    if strip_zeros(ds).len() == 0 {
        seq![0u8]
    } else {
        strip_zeros(ds)
    }
}

/// What decoding a decimal string yields: the canonical digit sequence of
/// its integer value; `MalformedNumber` if the text is not an
/// arbitrary-precision decimal (optional sign, digits, at most one decimal
/// point, at least one digit); `FractionalValue` if the fractional part is
/// non-zero; `NegativeValue` if the value is negative.
pub open spec fn spec_decode_decimal(s: Seq<char>) -> Result<Seq<u8>, DecodeError> {
    let b = body_of(s);
    if !decimal_shape(b) {
        Err(DecodeError::MalformedNumber)
    } else if !frac_zero(b) {
        Err(DecodeError::FractionalValue)
    } else if is_negative_sign(s) && digits_value(digit_vals(int_part(b))) != 0 {
        Err(DecodeError::NegativeValue)
    } else {
        Ok(canonical_of(digit_vals(int_part(b))))
    }
}

/// Whether an executable decode result agrees with a specification-level
/// decode result.
pub open spec fn decimal_result_matches(
    r: Result<BigUintValue, DecodeError>,
    m: Result<Seq<u8>, DecodeError>,
) -> bool {
    match r {
        Ok(v) => m is Ok && v.digits@ == m->Ok_0 && v.wf(),
        Err(e) => m is Err && e == m->Err_0,
    }
}

/// A well-formed body has exactly one decimal-point position.
pub proof fn lemma_split_unique(b: Seq<char>, p1: int, p2: int)
    requires
        split_ok(b, p1),
        split_ok(b, p2),
    ensures
        p1 == p2,
{
    if p1 < p2 {
        assert(is_dec_digit(b.take(p2)[p1]));
    }
    if p2 < p1 {
        assert(is_dec_digit(b.take(p1)[p2]));
    }
}

/// A digit sequence has value zero exactly when all its digits are zero.
pub proof fn lemma_value_zero(ds: Seq<u8>)
    ensures
        digits_value(ds) == 0 <==> (forall|i: int| 0 <= i < ds.len() ==> #[trigger] ds[i] == 0),
    decreases ds.len(),
{
    if ds.len() > 0 {
        let dl = ds.drop_last();
        lemma_value_zero(dl);
        if digits_value(ds) == 0 {
            assert(digits_value(dl) * 10 + ds.last() as nat == 0);
            assert(digits_value(dl) == 0);
            assert forall|i: int| 0 <= i < ds.len() implies #[trigger] ds[i] == 0 by {
                if i < ds.len() - 1 {
                    assert(ds[i] == dl[i]);
                } else {
                    assert(ds[i] == ds.last());
                }
            }
        }
        if forall|i: int| 0 <= i < ds.len() ==> #[trigger] ds[i] == 0 {
            assert forall|i: int| 0 <= i < dl.len() implies #[trigger] dl[i] == 0 by {
                assert(dl[i] == ds[i]);
            }
            assert(digits_value(dl) == 0);
            assert(ds.last() == ds[ds.len() - 1]);
            assert(digits_value(ds) == 0);
        }
    }
}

/// Removing the leading zeros of a digit sequence leaves its suffix from
/// the first non-zero digit.
proof fn lemma_strip_zeros_skip(ds: Seq<u8>, k: int)
    requires
        0 <= k < ds.len(),
        forall|j: int| 0 <= j < k ==> #[trigger] ds[j] == 0,
        ds[k] != 0,
    ensures
        strip_zeros(ds) == ds.skip(k),
    decreases k,
{
    if k == 0 {
        assert(ds.skip(0) =~= ds);
    } else {
        lemma_strip_zeros_skip(ds.skip(1), k - 1);
        assert(ds.skip(1).skip(k - 1) =~= ds.skip(k));
    }
}

/// Removing the leading zeros of an all-zero digit sequence leaves a
/// single zero (or nothing, if it was empty).
proof fn lemma_strip_zeros_all_zero(ds: Seq<u8>)
    requires
        forall|j: int| 0 <= j < ds.len() ==> #[trigger] ds[j] == 0,
    ensures
        ds.len() == 0 ==> strip_zeros(ds) == ds,
        ds.len() > 0 ==> strip_zeros(ds) =~= seq![0u8],
    decreases ds.len(),
{
    if ds.len() > 1 {
        lemma_strip_zeros_all_zero(ds.skip(1));
    }
}

/// A leading zero does not change the value a digit sequence denotes.
proof fn lemma_value_skip_leading_zero(ds: Seq<u8>)
    requires
        ds.len() >= 1,
        ds[0] == 0,
    ensures
        digits_value(ds) == digits_value(ds.skip(1)),
    decreases ds.len(),
{
    if ds.len() == 1 {
        assert(ds.skip(1) =~= Seq::<u8>::empty());
        assert(ds.drop_last() =~= Seq::<u8>::empty());
    } else {
        lemma_value_skip_leading_zero(ds.drop_last());
        assert(ds.drop_last().skip(1) =~= ds.skip(1).drop_last());
        assert(ds.skip(1).last() == ds.last());
    }
}

/// Law: canonicalization preserves the value a digit sequence denotes, so
/// decoding loses nothing by returning the canonical form.
pub proof fn lemma_canonical_value(ds: Seq<u8>)
    ensures
        digits_value(canonical_of(ds)) == digits_value(ds),
    decreases ds.len(),
{
    if ds.len() > 1 && ds[0] == 0 {
        lemma_value_skip_leading_zero(ds);
        lemma_canonical_value(ds.skip(1));
    } else if ds.len() == 0 {
        let z = seq![0u8];
        assert(z.last() == 0);
        assert(z.drop_last() =~= Seq::<u8>::empty());
        assert(digits_value(z.drop_last()) == 0);
        assert(digits_value(z) == 0);
    }
}

/// Each decimal digit character denotes the digit it encodes, and is
/// neither a sign nor a decimal point.
pub proof fn lemma_dec_val_of_digit(d: u8)
    requires
        d < 10,
    ensures
        is_dec_digit(dec_digit_char(d)),
        dec_digit_val(dec_digit_char(d)) == d,
        dec_digit_char(d) != '-',
        dec_digit_char(d) != '+',
        dec_digit_char(d) != '.',
{
}

/// The value of a decimal digit character, or `None` if the character is
/// not a decimal digit.
fn dec_digit_value(c: char) -> (r: Option<u8>)
    ensures
        r is Some <==> is_dec_digit(c),
        r is Some ==> r->0 == dec_digit_val(c) && r->0 < 10,
        r == Some(0u8) <==> c == '0',
{
    let u = c as u32;
    if 48 <= u && u <= 57 {
        Some((u - 48) as u8)
    } else {
        None
    }
}

/// Appends the decimal digit character for `d` to `s`.
fn push_dec_digit(s: &mut String, d: u8)
    requires
        d < 10,
    ensures
        final(s)@ == old(s)@.push(dec_digit_char(d)),
{
    proof {
        reveal_strlit("0");
        reveal_strlit("1");
        reveal_strlit("2");
        reveal_strlit("3");
        reveal_strlit("4");
        reveal_strlit("5");
        reveal_strlit("6");
        reveal_strlit("7");
        reveal_strlit("8");
        reveal_strlit("9");
    }
    match d {
        0 => s.append("0"),
        1 => s.append("1"),
        2 => s.append("2"),
        3 => s.append("3"),
        4 => s.append("4"),
        5 => s.append("5"),
        6 => s.append("6"),
        7 => s.append("7"),
        8 => s.append("8"),
        _ => s.append("9"),
    }
    proof {
        assert(s@ =~= old(s)@.push(dec_digit_char(d)));
    }
}

/// Lossless encode/decode of an arbitrary-precision non-negative integer
/// to/from its base-10 text form.
#[derive(Clone, Debug)]
pub struct BigUintSerdeAsRadix10Str;

impl BigUintSerdeAsRadix10Str {
    /// Encodes a value as its canonical base-10 text: no sign, no leading
    /// zero (except the literal "0"), no fractional or exponent component.
    /// Never fails.
    pub fn encode(v: &BigUintValue) -> (r: String)
        requires
            v.wf(),
        ensures
            r@ == dec_chars_of(v.digits@),
            r@.len() >= 1,
    {
        let mut out = String::new();
        let mut i: usize = 0;
        while i < v.digits.len()
            invariant
                v.wf(),
                i <= v.digits@.len(),
                out@ =~= dec_chars_of(v.digits@.take(i as int)),
            decreases v.digits@.len() - i,
        {
            push_dec_digit(&mut out, v.digits[i]);
            i = i + 1;
            proof {
                assert(out@ =~= dec_chars_of(v.digits@.take(i as int)));
            }
        }
        proof {
            assert(v.digits@.take(v.digits@.len() as int) =~= v.digits@);
        }
        out
    }

    /// Decodes a base-10 decimal string into the non-negative integer it
    /// denotes. Fails with `MalformedNumber` if the text is not a decimal
    /// numeral, `FractionalValue` if its fractional part is non-zero, and
    /// `NegativeValue` if it denotes a negative value.
    #[verifier::rlimit(80)]
    pub fn decode(s: &str) -> (r: Result<BigUintValue, DecodeError>)
        ensures
            decimal_result_matches(r, spec_decode_decimal(s@)),
    {
        let ghost sv = s@;
        let n = s.unicode_len();
        let mut start: usize = 0;
        let mut neg = false;
        if n > 0 {
            let c0 = s.get_char(0);
            if c0 == '-' {
                neg = true;
                start = 1;
            } else if c0 == '+' {
                start = 1;
            }
        }
        let ghost b = body_of(sv);
        proof {
            assert(b =~= sv.skip(start as int));
            assert(neg == is_negative_sign(sv));
        }
        let mut int_vals: Vec<u8> = Vec::new();
        let mut dot: Option<usize> = None;
        let mut frac_all_zero = true;
        let mut i = start;
        while i < n
            invariant
                sv == s@,
                n == sv.len(),
                start <= 1,
                start <= i <= n,
                b == body_of(sv),
                b =~= sv.skip(start as int),
                neg == is_negative_sign(sv),
                forall|j: int| 0 <= j < int_vals@.len() ==> #[trigger] int_vals@[j] < 10,
                match dot {
                    None => {
                        &&& forall|j: int| 0 <= j < i - start ==> is_dec_digit(#[trigger] b[j])
                        &&& int_vals@ == digit_vals(b.take(i - start))
                        &&& frac_all_zero
                    },
                    Some(d) => {
                        &&& start <= d < i
                        &&& b[d - start] == '.'
                        &&& forall|j: int| 0 <= j < d - start ==> is_dec_digit(#[trigger] b[j])
                        &&& int_vals@ == digit_vals(b.take(d - start))
                        &&& forall|j: int| d - start < j < i - start ==> is_dec_digit(#[trigger] b[j])
                        &&& (frac_all_zero <==> (forall|j: int|
                            d - start < j < i - start ==> #[trigger] b[j] == '0'))
                    },
                },
            decreases n - i,
        {
            let c = s.get_char(i);
            proof {
                assert(b[i - start] == c);
            }
            match dec_digit_value(c) {
                Some(v) => {
                    match dot {
                        None => {
                            int_vals.push(v);
                            proof {
                                assert(int_vals@ =~= digit_vals(b.take(i + 1 - start)));
                            }
                        },
                        Some(_) => {
                            if v != 0 {
                                frac_all_zero = false;
                            }
                        },
                    }
                },
                None => {
                    if c == '.' {
                        match dot {
                            Some(d) => {
                                proof {
                                    let j0 = d - start;
                                    let j1 = i - start;
                                    assert forall|p: int| !split_ok(b, p) by {
                                        if split_ok(b, p) {
                                            if j0 < p {
                                                assert(is_dec_digit(b.take(p)[j0]));
                                            } else if j0 > p {
                                                assert(is_dec_digit(b.skip(p + 1)[j0 - p - 1]));
                                            } else {
                                                assert(is_dec_digit(b.take(p)[j1]) || is_dec_digit(
                                                    b.skip(p + 1)[j1 - p - 1],
                                                ));
                                            }
                                        }
                                    }
                                }
                                return Err(DecodeError::MalformedNumber);
                            },
                            None => {
                                dot = Some(i);
                            },
                        }
                    } else {
                        proof {
                            let j = i - start;
                            assert forall|p: int| !split_ok(b, p) by {
                                if split_ok(b, p) {
                                    if j < p {
                                        assert(is_dec_digit(b.take(p)[j]));
                                    } else if j > p {
                                        assert(is_dec_digit(b.skip(p + 1)[j - p - 1]));
                                    }
                                }
                            }
                        }
                        return Err(DecodeError::MalformedNumber);
                    }
                },
            }
            i = i + 1;
        }
        if n == start {
            proof {
                assert(b.len() == 0);
            }
            return Err(DecodeError::MalformedNumber);
        }
        if dot.is_some() && n - start == 1 {
            proof {
                assert(b[0] == '.');
                assert forall|p: int| !split_ok(b, p) by {
                    if split_ok(b, p) {
                        if p == 1 {
                            assert(is_dec_digit(b.take(1)[0]));
                        }
                    }
                }
            }
            return Err(DecodeError::MalformedNumber);
        }
        let ghost p_rel: int = match dot {
            None => b.len() as int,
            Some(d) => d - start,
        };
        proof {
            if dot is Some {
                let d = dot->0 as int;
                assert forall|m: int| 0 <= m < b.skip(p_rel + 1).len() implies is_dec_digit(
                    #[trigger] b.skip(p_rel + 1)[m],
                ) by {
                    assert(b.skip(p_rel + 1)[m] == b[p_rel + 1 + m]);
                }
            } else {
                assert(b.take(p_rel) =~= b);
            }
            assert(split_ok(b, p_rel));
            assert(decimal_shape(b));
            lemma_split_unique(b, dot_split(b), p_rel);
            assert(int_part(b) == b.take(p_rel));
            assert(int_vals@ == digit_vals(int_part(b)));
            if dot is Some {
                assert(frac_part(b) == b.skip(p_rel + 1));
                if frac_all_zero {
                    assert forall|m: int| 0 <= m < frac_part(b).len() implies #[trigger] frac_part(
                        b,
                    )[m] == '0' by {
                        assert(frac_part(b)[m] == b[p_rel + 1 + m]);
                        assert(b[p_rel + 1 + m] == '0');
                    }
                    assert(frac_zero(b));
                }
                if frac_zero(b) {
                    assert forall|j: int| p_rel < j < b.len() implies #[trigger] b[j] == '0' by {
                        assert(b[j] == frac_part(b)[j - p_rel - 1]);
                    }
                    assert(frac_all_zero);
                }
                assert(frac_all_zero == frac_zero(b));
            } else {
                assert(frac_part(b) =~= Seq::<char>::empty());
                assert(frac_zero(b));
            }
        }
        if !frac_all_zero {
            return Err(DecodeError::FractionalValue);
        }
        let mut k: usize = 0;
        while k < int_vals.len() && int_vals[k] == 0
            invariant
                k <= int_vals@.len(),
                forall|j: int| 0 <= j < k ==> #[trigger] int_vals@[j] == 0,
            decreases int_vals@.len() - k,
        {
            k = k + 1;
        }
        if neg && k < int_vals.len() {
            proof {
                lemma_value_zero(int_vals@);
            }
            return Err(DecodeError::NegativeValue);
        }
        if neg {
            proof {
                lemma_value_zero(int_vals@);
            }
        }
        let digits: Vec<u8> = if k == int_vals.len() {
            vec![0u8]
        } else {
            let mut d: Vec<u8> = Vec::new();
            let mut m = k;
            while m < int_vals.len()
                invariant
                    k <= m <= int_vals@.len(),
                    d@ =~= int_vals@.subrange(k as int, m as int),
                decreases int_vals@.len() - m,
            {
                d.push(int_vals[m]);
                m = m + 1;
            }
            d
        };
        proof {
            if k == int_vals@.len() {
                lemma_strip_zeros_all_zero(int_vals@);
                assert(digits@ =~= canonical_of(int_vals@));
            } else {
                lemma_strip_zeros_skip(int_vals@, k as int);
                assert(int_vals@.subrange(k as int, int_vals@.len() as int) =~= int_vals@.skip(
                    k as int,
                ));
                assert(digits@ =~= canonical_of(int_vals@));
            }
            assert(canonical_digits(digits@));
        }
        Ok(BigUintValue { digits })
    }
}

/// Element-wise lossless encode/decode of a sequence of
/// arbitrary-precision non-negative integers to/from base-10 text forms.
pub struct VecBigUintSerdeAsRadix10Str;

impl VecBigUintSerdeAsRadix10Str {
    /// Encodes each value as its canonical base-10 text, in order. Never
    /// fails.
    pub fn encode(operations: &Vec<BigUintValue>) -> (r: Vec<String>)
        requires
            forall|i: int| 0 <= i < operations@.len() ==> (#[trigger] operations@[i]).wf(),
        ensures
            r@.len() == operations@.len(),
            forall|i: int|
                0 <= i < r@.len() ==> (#[trigger] r@[i])@ == dec_chars_of(
                    operations@[i].digits@,
                ),
    {
        let mut out: Vec<String> = Vec::new();
        let mut i: usize = 0;
        while i < operations.len()
            invariant
                forall|j: int| 0 <= j < operations@.len() ==> (#[trigger] operations@[j]).wf(),
                i <= operations@.len(),
                out@.len() == i,
                forall|j: int|
                    0 <= j < i ==> (#[trigger] out@[j])@ == dec_chars_of(operations@[j].digits@),
            decreases operations@.len() - i,
        {
            out.push(BigUintSerdeAsRadix10Str::encode(&operations[i]));
            i = i + 1;
        }
        out
    }

    /// Decodes each base-10 string, in order, failing on the first element
    /// that fails and discarding partial results.
    pub fn decode(strs: &Vec<String>) -> (r: Result<Vec<BigUintValue>, DecodeError>)
        ensures
            r is Ok ==> r->Ok_0@.len() == strs@.len() && forall|i: int|
                0 <= i < strs@.len() ==> decimal_result_matches(
                    Ok(#[trigger] r->Ok_0@[i]),
                    spec_decode_decimal(strs@[i]@),
                ),
            r is Err ==> exists|i: int|
                0 <= i < strs@.len() && (#[trigger] spec_decode_decimal(strs@[i]@)) is Err
                    && r->Err_0 == spec_decode_decimal(strs@[i]@)->Err_0 && (forall|j: int|
                    0 <= j < i ==> spec_decode_decimal(strs@[j]@) is Ok),
    {
        let mut out: Vec<BigUintValue> = Vec::new();
        let mut i: usize = 0;
        while i < strs.len()
            invariant
                i <= strs@.len(),
                out@.len() == i,
                forall|j: int|
                    0 <= j < i ==> decimal_result_matches(
                        Ok(#[trigger] out@[j]),
                        spec_decode_decimal(strs@[j]@),
                    ),
            decreases strs@.len() - i,
        {
            match BigUintSerdeAsRadix10Str::decode(strs[i].as_str()) {
                Ok(v) => {
                    out.push(v);
                },
                Err(e) => {
                    proof {
                        assert forall|j: int| 0 <= j < i implies spec_decode_decimal(
                            strs@[j]@,
                        ) is Ok by {
                            assert(decimal_result_matches(
                                Ok(out@[j]),
                                spec_decode_decimal(strs@[j]@),
                            ));
                        }
                        assert(0 <= i < strs@.len() && spec_decode_decimal(strs@[i as int]@) is Err
                            && e == spec_decode_decimal(strs@[i as int]@)->Err_0);
                    }
                    return Err(e);
                },
            }
            i = i + 1;
        }
        Ok(out)
    }
}

/// Encode/decode of an optional arbitrary-precision non-negative integer:
/// an absent value encodes to an absent textual value.
#[derive(Clone, Debug)]
pub struct OptionBigUintSerdeAsRadix10Str;

impl OptionBigUintSerdeAsRadix10Str {
    /// Encodes an optional value; `None` encodes to `None`, not to a
    /// placeholder string.
    pub fn encode(val: &Option<BigUintValue>) -> (r: Option<String>)
        requires
            val is Some ==> val->0.wf(),
        ensures
            r is Some <==> val is Some,
            r is Some ==> r->0@ == dec_chars_of(val->0.digits@),
    {
        match val {
            Some(v) => Some(BigUintSerdeAsRadix10Str::encode(v)),
            None => None,
        }
    }

    /// Decodes an optional base-10 string; an absent value decodes to an
    /// absent integer, a present one as under `BigUintSerdeAsRadix10Str`,
    /// surfacing the same failures.
    pub fn decode(val: &Option<String>) -> (r: Result<Option<BigUintValue>, DecodeError>)
        ensures
            val is None ==> r is Ok && r->Ok_0 is None,
            val is Some ==> match spec_decode_decimal(val->0@) {
                Ok(ds) => r is Ok && r->Ok_0 is Some && r->Ok_0->0.digits@ == ds
                    && r->Ok_0->0.wf(),
                Err(e) => r is Err && r->Err_0 == e,
            },
    {
        match val {
            None => Ok(None),
            Some(s) => match BigUintSerdeAsRadix10Str::decode(s.as_str()) {
                Ok(v) => Ok(Some(v)),
                Err(e) => Err(e),
            },
        }
    }
}

/// Law (round trip): decoding the canonical encoding of any non-negative
/// integer returns exactly that integer.
pub proof fn lemma_decimal_round_trip(ds: Seq<u8>)
    requires
        canonical_digits(ds),
    ensures
        spec_decode_decimal(dec_chars_of(ds)) == Ok::<Seq<u8>, DecodeError>(ds),
{
    let cs = dec_chars_of(ds);
    assert forall|i: int| 0 <= i < cs.len() implies is_dec_digit(#[trigger] cs[i]) && dec_digit_val(
        cs[i],
    ) == ds[i] by {
        lemma_dec_val_of_digit(ds[i]);
    }
    lemma_dec_val_of_digit(ds[0]);
    assert(body_of(cs) == cs);
    assert(!is_negative_sign(cs));
    assert(cs.take(cs.len() as int) =~= cs);
    assert(split_ok(cs, cs.len() as int));
    assert(decimal_shape(cs));
    lemma_split_unique(cs, dot_split(cs), cs.len() as int);
    assert(int_part(cs) =~= cs);
    assert(frac_part(cs) =~= Seq::<char>::empty());
    assert(frac_zero(cs));
    assert(digit_vals(int_part(cs)) =~= ds);
    assert(strip_zeros(ds) == ds);
    assert(canonical_of(ds) == ds);
}

/// Law (sequence round trip): element-wise decoding of an element-wise
/// canonical encoding yields the same integers in the same order; in
/// particular the empty sequence round-trips to the empty sequence.
pub proof fn lemma_decimal_seq_round_trip(dss: Seq<Seq<u8>>)
    requires
        forall|i: int| 0 <= i < dss.len() ==> canonical_digits(#[trigger] dss[i]),
    ensures
        forall|i: int|
            0 <= i < dss.len() ==> spec_decode_decimal(dec_chars_of(#[trigger] dss[i]))
                == Ok::<Seq<u8>, DecodeError>(dss[i]),
{
    assert forall|i: int| 0 <= i < dss.len() implies spec_decode_decimal(
        dec_chars_of(#[trigger] dss[i]),
    ) == Ok::<Seq<u8>, DecodeError>(dss[i]) by {
        lemma_decimal_round_trip(dss[i]);
    }
}

} // verus!
