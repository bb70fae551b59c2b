//! Generic encode/decode of a raw byte buffer to/from a prefixed,
//! lowercase-hexadecimal string, parameterized by a prefix policy.

use vstd::prelude::*;
use vstd::string::StrSliceExecFns;
use vstd::string::StringExecFns;
use crate::DecodeError;

verus! {

/// The lowercase hexadecimal digit character for a nibble value.
pub open spec fn hex_digit_char(n: u8) -> char
    recommends
        n < 16,
{
    if n == 0 {
        '0'
    } else if n == 1 {
        '1'
    } else if n == 2 {
        '2'
    } else if n == 3 {
        '3'
    } else if n == 4 {
        '4'
    } else if n == 5 {
        '5'
    } else if n == 6 {
        '6'
    } else if n == 7 {
        '7'
    } else if n == 8 {
        '8'
    } else if n == 9 {
        '9'
    } else if n == 10 {
        'a'
    } else if n == 11 {
        'b'
    } else if n == 12 {
        'c'
    } else if n == 13 {
        'd'
    } else if n == 14 {
        'e'
    } else {
        'f'
    }
}

/// Whether a character is a hexadecimal digit (either case accepted on
/// decode, as is conventional for hex input).
pub open spec fn is_hex_digit(c: char) -> bool {
    ('0' <= c && c <= '9') || ('a' <= c && c <= 'f') || ('A' <= c && c <= 'F')
}

/// The nibble value of a hexadecimal digit character.
pub open spec fn hex_digit_val(c: char) -> u8
    recommends
        is_hex_digit(c),
{
    if '0' <= c && c <= '9' {
        (c as u8 - '0' as u8) as u8
    } else if 'a' <= c && c <= 'f' {
        (c as u8 - 'a' as u8 + 10) as u8
    } else if 'A' <= c && c <= 'F' {
        (c as u8 - 'A' as u8 + 10) as u8
    } else {
        0
    }
}

/// The lowercase hexadecimal encoding of a byte buffer: two digit
/// characters per byte, high nibble first.
pub open spec fn hex_of(b: Seq<u8>) -> Seq<char> {
    Seq::new(
        b.len() * 2,
        |i: int|
            if i % 2 == 0 {
                hex_digit_char((b[i / 2] / 16) as u8)
            } else {
                hex_digit_char((b[i / 2] % 16) as u8)
            },
    )
}

/// Whether a character sequence is a well-formed hexadecimal numeral body:
/// even length and hex digits throughout.
pub open spec fn is_valid_hex(s: Seq<char>) -> bool {
    &&& s.len() % 2 == 0
    &&& forall|i: int| 0 <= i < s.len() ==> is_hex_digit(#[trigger] s[i])
}

/// The byte buffer denoted by a well-formed hexadecimal character sequence.
pub open spec fn bytes_of_hex(s: Seq<char>) -> Seq<u8>
    recommends
        is_valid_hex(s),
{
    Seq::new(
        s.len() / 2,
        |i: int| (hex_digit_val(s[2 * i]) * 16 + hex_digit_val(s[2 * i + 1])) as u8,
    )
}

/// Appends the lowercase hexadecimal digit for the nibble `n` to `s`.
fn push_hex_digit(s: &mut String, n: u8)
    requires
        n < 16,
    ensures
        final(s)@ == old(s)@.push(hex_digit_char(n)),
        final(s)@.len() == old(s)@.len() + 1,
{
    proof {
        reveal_strlit("0");
        reveal_strlit("1");
        reveal_strlit("2");
        reveal_strlit("3");
        reveal_strlit("4");
        reveal_strlit("5");
        reveal_strlit("6");
        reveal_strlit("7");
        reveal_strlit("8");
        reveal_strlit("9");
        reveal_strlit("a");
        reveal_strlit("b");
        reveal_strlit("c");
        reveal_strlit("d");
        reveal_strlit("e");
        reveal_strlit("f");
    }
    match n {
        0 => s.append("0"),
        1 => s.append("1"),
        2 => s.append("2"),
        3 => s.append("3"),
        4 => s.append("4"),
        5 => s.append("5"),
        6 => s.append("6"),
        7 => s.append("7"),
        8 => s.append("8"),
        9 => s.append("9"),
        10 => s.append("a"),
        11 => s.append("b"),
        12 => s.append("c"),
        13 => s.append("d"),
        14 => s.append("e"),
        _ => s.append("f"),
    }
    proof {
        assert(s@ =~= old(s)@.push(hex_digit_char(n)));
    }
}

/// Encodes a byte buffer as lowercase hexadecimal text, two digits per
/// byte, high nibble first. Never fails.
pub fn encode_hex(bytes: &[u8]) -> (r: String)
    ensures
        r@ == hex_of(bytes@),
{
    let mut out = String::new();
    let mut i: usize = 0;
    while i < bytes.len()
        invariant
            i <= bytes@.len(),
            out@ =~= hex_of(bytes@.take(i as int)),
        decreases bytes@.len() - i,
    {
        let b = bytes[i];
        push_hex_digit(&mut out, b / 16);
        push_hex_digit(&mut out, b % 16);
        i = i + 1;
        proof {
            assert(out@ =~= hex_of(bytes@.take(i as int)));
        }
    }
    proof {
        assert(bytes@.take(bytes@.len() as int) =~= bytes@);
    }
    out
}

/// The nibble value of a hexadecimal digit character, or `None` if the
/// character is not a hexadecimal digit.
fn hex_digit_value(c: char) -> (r: Option<u8>)
    ensures
        r is Some <==> is_hex_digit(c),
        r is Some ==> r->0 == hex_digit_val(c) && r->0 < 16,
{
    let u = c as u32;
    if 48 <= u && u <= 57 {
        Some((u - 48) as u8)
    } else if 97 <= u && u <= 102 {
        Some((u - 97 + 10) as u8)
    } else if 65 <= u && u <= 70 {
        Some((u - 65 + 10) as u8)
    } else {
        None
    }
}

/// Decodes a hexadecimal string into the byte buffer it denotes. Fails if
/// the input has odd length or contains a non-hex character; upper- and
/// lowercase digits are both accepted, as conventional for hex input.
pub fn decode_hex(s: &str) -> (r: Result<Vec<u8>, DecodeError>)
    ensures
        r is Ok <==> is_valid_hex(s@),
        r is Ok ==> r->Ok_0@ == bytes_of_hex(s@),
        r is Err ==> r->Err_0 == DecodeError::InvalidHex,
{
    let n = s.unicode_len();
    if n % 2 != 0 {
        return Err(DecodeError::InvalidHex);
    }
    let mut out: Vec<u8> = Vec::new();
    let mut i: usize = 0;
    while i < n / 2
        invariant
            n == s@.len(),
            n % 2 == 0,
            i <= n / 2,
            out@.len() == i,
            forall|j: int| 0 <= j < 2 * i ==> is_hex_digit(#[trigger] s@[j]),
            forall|j: int| 0 <= j < i ==> out@[j] == bytes_of_hex(s@)[j],
        decreases n / 2 - i,
    {
        let hi = match hex_digit_value(s.get_char(2 * i)) {
            Some(v) => v,
            None => {
                return Err(DecodeError::InvalidHex);
            },
        };
        let lo = match hex_digit_value(s.get_char(2 * i + 1)) {
            Some(v) => v,
            None => {
                return Err(DecodeError::InvalidHex);
            },
        };
        out.push(hi * 16 + lo);
        i = i + 1;
    }
    proof {
        assert(out@ =~= bytes_of_hex(s@));
    }
    Ok(out)
}

/// Whether `s` begins with the exact character sequence `p`.
pub open spec fn starts_with(s: Seq<char>, p: Seq<char>) -> bool {
    s.len() >= p.len() && s.take(p.len() as int) == p
}

/// Whether `s` begins with the exact character sequence `p@`.
fn str_starts_with(s: &str, p: &str) -> (r: bool)
    ensures
        r == starts_with(s@, p@),
{
    let n = s.unicode_len();
    let m = p.unicode_len();
    if n < m {
        return false;
    }
    let mut i: usize = 0;
    while i < m
        invariant
            n == s@.len(),
            m == p@.len(),
            m <= n,
            i <= m,
            forall|j: int| 0 <= j < i ==> s@[j] == p@[j],
        decreases m - i,
    {
        if s.get_char(i) != p.get_char(i) {
            proof {
                assert(s@.take(m as int)[i as int] != p@[i as int]);
            }
            return false;
        }
        i = i + 1;
    }
    proof {
        assert(s@.take(m as int) =~= p@);
    }
    true
}

/// What decoding a prefixed hexadecimal string yields: the byte buffer of
/// the hex body after the prefix, `MissingPrefix` if the string does not
/// start with the exact prefix, `InvalidHex` if the body is not valid
/// hexadecimal.
pub open spec fn spec_decode_prefixed(prefix: Seq<char>, s: Seq<char>) -> Result<Seq<u8>, DecodeError> {
    if !starts_with(s, prefix) {
        Err(DecodeError::MissingPrefix)
    } else if !is_valid_hex(s.skip(prefix.len() as int)) {
        Err(DecodeError::InvalidHex)
    } else {
        Ok(bytes_of_hex(s.skip(prefix.len() as int)))
    }
}

/// Whether an executable decode result agrees with a specification-level
/// decode result.
pub open spec fn bytes_result_matches(
    r: Result<Vec<u8>, DecodeError>,
    m: Result<Seq<u8>, DecodeError>,
) -> bool {
    match r {
        Ok(v) => m is Ok && v@ == m->Ok_0,
        Err(e) => m is Err && e == m->Err_0,
    }
}

/// A prefix policy: the textual tag prepended to a hex-encoded value to
/// disambiguate its semantic kind at the serialization boundary.
pub trait Prefix {
    /// The prefix as a character sequence; non-empty.
    spec fn spec_prefix() -> Seq<char>;

    /// The prefix literal.
    fn prefix() -> (r: &'static str)
        ensures
            r@ == Self::spec_prefix(),
            r@.len() >= 1,
    ;
}

/// "sync:" hex prefix, tagging account key-hashes.
pub struct SyncPrefix;

impl Prefix for SyncPrefix {
    open spec fn spec_prefix() -> Seq<char> {
        "sync:"@
    }

    fn prefix() -> (r: &'static str)
        ensures
            r@ == Self::spec_prefix(),
            r@.len() >= 1,
    {
        proof {
            reveal_strlit("sync:");
        }
        "sync:"
    }
}

/// "sync-bl:" hex prefix, tagging block identifiers.
pub struct SyncBlockPrefix;

impl Prefix for SyncBlockPrefix {
    open spec fn spec_prefix() -> Seq<char> {
        "sync-bl:"@
    }

    fn prefix() -> (r: &'static str)
        ensures
            r@ == Self::spec_prefix(),
            r@.len() >= 1,
    {
        proof {
            reveal_strlit("sync-bl:");
        }
        "sync-bl:"
    }
}

/// "0x" hex prefix, tagging generic hex values.
pub struct ZeroxPrefix;

impl Prefix for ZeroxPrefix {
    open spec fn spec_prefix() -> Seq<char> {
        "0x"@
    }

    fn prefix() -> (r: &'static str)
        ensures
            r@ == Self::spec_prefix(),
            r@.len() >= 1,
    {
        proof {
            reveal_strlit("0x");
        }
        "0x"
    }
}

/// "sync-tx:" hex prefix, tagging transaction identifiers.
pub struct SyncTxPrefix;

impl Prefix for SyncTxPrefix {
    open spec fn spec_prefix() -> Seq<char> {
        "sync-tx:"@
    }

    fn prefix() -> (r: &'static str)
        ensures
            r@ == Self::spec_prefix(),
            r@.len() >= 1,
    {
        proof {
            reveal_strlit("sync-tx:");
        }
        "sync-tx:"
    }
}

/// Encode/decode of a raw byte buffer to/from a prefixed hexadecimal
/// string, under the prefix policy `P`.
pub struct BytesToHexSerde<P> {
    _marker: core::marker::PhantomData<P>,
}

impl<P: Prefix> BytesToHexSerde<P> {
    /// Encodes a byte buffer as `prefix || lowercase-hex(bytes)`. Never
    /// fails, and the empty buffer encodes to the bare prefix.
    pub fn encode(value: &[u8]) -> (r: String)
        ensures
            r@ == P::spec_prefix() + hex_of(value@),
    {
        let mut out = String::from_str(P::prefix());
        let h = encode_hex(value);
        out.append(h.as_str());
        out
    }

    /// Decodes a prefixed hexadecimal string back into the byte buffer it
    /// denotes. Fails with `MissingPrefix` if the string does not start
    /// with the exact prefix, and with `InvalidHex` if the remainder is
    /// not valid hexadecimal.
    pub fn decode(s: &str) -> (r: Result<Vec<u8>, DecodeError>)
        ensures
            bytes_result_matches(r, spec_decode_prefixed(P::spec_prefix(), s@)),
    {
        let p = P::prefix();
        if !str_starts_with(s, p) {
            return Err(DecodeError::MissingPrefix);
        }
        let body = s.substring_char(p.unicode_len(), s.unicode_len());
        proof {
            assert(body@ =~= s@.skip(P::spec_prefix().len() as int));
        }
        decode_hex(body)
    }
}

/// Encode/decode of an optional byte buffer: an absent buffer encodes to
/// an absent textual value, a present one as under `BytesToHexSerde<P>`.
pub struct OptionBytesToHexSerde<P> {
    _marker: core::marker::PhantomData<P>,
}

impl<P: Prefix> OptionBytesToHexSerde<P> {
    /// Encodes an optional byte buffer; `None` encodes to `None`, not to a
    /// placeholder string.
    pub fn encode(value: &Option<Vec<u8>>) -> (r: Option<String>)
        ensures
            r is Some <==> value is Some,
            r is Some ==> r->0@ == P::spec_prefix() + hex_of(value->0@),
    {
        match value {
            Some(v) => Some(BytesToHexSerde::<P>::encode(v.as_slice())),
            None => None,
        }
    }

    /// Decodes an optional prefixed hexadecimal string; an absent value
    /// decodes to an absent buffer, a present one as under
    /// `BytesToHexSerde<P>`, surfacing the same failures.
    pub fn decode(value: &Option<String>) -> (r: Result<Option<Vec<u8>>, DecodeError>)
        ensures
            value is None ==> r is Ok && r->Ok_0 is None,
            value is Some ==> match spec_decode_prefixed(P::spec_prefix(), value->0@) {
                Ok(b) => r is Ok && r->Ok_0 is Some && r->Ok_0->0@ == b,
                Err(e) => r is Err && r->Err_0 == e,
            },
    {
        match value {
            None => Ok(None),
            Some(s) => match BytesToHexSerde::<P>::decode(s.as_str()) {
                Ok(b) => Ok(Some(b)),
                Err(e) => Err(e),
            },
        }
    }
}

/// Each hexadecimal digit character denotes the nibble it encodes.
proof fn lemma_hex_val_of_digit(n: u8)
    requires
        n < 16,
    ensures
        is_hex_digit(hex_digit_char(n)),
        hex_digit_val(hex_digit_char(n)) == n,
{
}

/// Law: hexadecimal encoding is lossless — the encoding of any byte buffer
/// is valid hexadecimal and decodes back to the same buffer.
pub proof fn lemma_hex_round_trip(b: Seq<u8>)
    ensures
        is_valid_hex(hex_of(b)),
        bytes_of_hex(hex_of(b)) == b,
{
    assert forall|i: int| 0 <= i < hex_of(b).len() implies is_hex_digit(#[trigger] hex_of(b)[i]) by {
        if i % 2 == 0 {
            lemma_hex_val_of_digit((b[i / 2] / 16) as u8);
        } else {
            lemma_hex_val_of_digit((b[i / 2] % 16) as u8);
        }
    }
    assert forall|i: int| 0 <= i < b.len() implies bytes_of_hex(hex_of(b))[i] == b[i] by {
        let hi = (b[i] / 16) as u8;
        let lo = (b[i] % 16) as u8;
        lemma_hex_val_of_digit(hi);
        lemma_hex_val_of_digit(lo);
        assert(hex_of(b)[2 * i] == hex_digit_char(hi));
        assert(hex_of(b)[2 * i + 1] == hex_digit_char(lo));
        assert(hi * 16 + lo == b[i]);
    }
    assert(bytes_of_hex(hex_of(b)) =~= b);
}

/// Law (round trip): under any prefix, decoding the encoding of any byte
/// buffer returns exactly that buffer.
pub proof fn lemma_prefixed_round_trip(prefix: Seq<char>, b: Seq<u8>)
    ensures
        spec_decode_prefixed(prefix, prefix + hex_of(b)) == Ok::<Seq<u8>, DecodeError>(b),
{
    let s = prefix + hex_of(b);
    assert(s.take(prefix.len() as int) =~= prefix);
    assert(s.skip(prefix.len() as int) =~= hex_of(b));
    lemma_hex_round_trip(b);
}

/// Law (prefix rejection): decoding a string that does not start with the
/// exact configured prefix always fails with `MissingPrefix`.
pub proof fn lemma_missing_prefix(prefix: Seq<char>, s: Seq<char>)
    requires
        !starts_with(s, prefix),
    ensures
        spec_decode_prefixed(prefix, s) == Err::<Seq<u8>, DecodeError>(DecodeError::MissingPrefix),
{
}

} // verus!
