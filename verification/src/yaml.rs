//! Shared scalar machinery of the YAML text bridge: tag recognition,
//! the scalar lexer, quoting rules, and decimal/hex integer text.
//!
//! Float values are carried as IEEE-754 bit patterns; the conversions
//! between bits and decimal text go through the `lexical` crate.
use vstd::prelude::*;
use vstd::string::*;

use byteorder::ByteOrder;

use crate::aamp::{AampError, Result};

verus! {

/// The coarse type a standard YAML tag asks for.
#[derive(Debug, Clone, Copy, PartialEq, Eq, Structural)]
pub enum TagBasedType {
    Bool,
    Int,
    Float,
    Str,
    Null,
}

/// A lexed scalar token. `Float` holds the bit pattern of the parsed
/// 64-bit value; narrowing to 32 bits happens at the tree level.
#[derive(Debug, Clone, PartialEq)]
pub enum Scalar {
    Null,
    Bool(bool),
    Int(i64),
    Float(u64),
    String(String),
}

/// The mathematical value of a [`Scalar`].
pub ghost enum SpecScalar {
    Null,
    Bool(bool),
    Int(i64),
    Float(u64),
    Str(Seq<char>),
}

impl View for Scalar {
    type V = SpecScalar;

    open spec fn view(&self) -> SpecScalar {
        match self {
            Scalar::Null => SpecScalar::Null,
            Scalar::Bool(b) => SpecScalar::Bool(*b),
            Scalar::Int(i) => SpecScalar::Int(*i),
            Scalar::Float(f) => SpecScalar::Float(*f),
            Scalar::String(s) => SpecScalar::Str(s@),
        }
    }
}

// ---------------------------------------------------------------
// Character classes and lexemes
// ---------------------------------------------------------------
/// A decimal digit.
pub open spec fn is_dec_digit(c: char) -> bool {
    ('0' as u32) <= (c as u32) && (c as u32) <= ('9' as u32)
}

/// A hexadecimal digit.
pub open spec fn is_hex_digit(c: char) -> bool {
    is_dec_digit(c) || (('a' as u32) <= (c as u32) && (c as u32) <= ('f' as u32)) || (('A' as u32)
        <= (c as u32) && (c as u32) <= ('F' as u32))
}

/// The value of a decimal digit.
pub open spec fn dec_digit_val(c: char) -> int {
    (c as u32) - ('0' as u32)
}

/// The value of a hexadecimal digit.
pub open spec fn hex_digit_val(c: char) -> int {
    if is_dec_digit(c) {
        (c as u32) - ('0' as u32)
    } else if ('a' as u32) <= (c as u32) && (c as u32) <= ('f' as u32) {
        (c as u32) - ('a' as u32) + 10
    } else {
        (c as u32) - ('A' as u32) + 10
    }
}

/// Every character is a decimal digit, and there is at least one.
pub open spec fn is_dec_digits(s: Seq<char>) -> bool {
    s.len() > 0 && forall|i: int| 0 <= i < s.len() ==> is_dec_digit(#[trigger] s[i])
}

/// Every character is a hexadecimal digit, and there is at least one.
pub open spec fn is_hex_digits(s: Seq<char>) -> bool {
    s.len() > 0 && forall|i: int| 0 <= i < s.len() ==> is_hex_digit(#[trigger] s[i])
}

/// The number a decimal digit string denotes.
pub open spec fn dec_val(s: Seq<char>) -> int
    decreases s.len(),
{
    if s.len() == 0 {
        0
    } else {
        dec_val(s.drop_last()) * 10 + dec_digit_val(s.last())
    }
}

/// The number a hexadecimal digit string denotes.
pub open spec fn hex_val(s: Seq<char>) -> int
    decreases s.len(),
{
    if s.len() == 0 {
        0
    } else {
        hex_val(s.drop_last()) * 16 + hex_digit_val(s.last())
    }
}

/// A `0x`-prefixed hexadecimal integer token.
pub open spec fn is_hex_int_lexeme(s: Seq<char>) -> bool {
    s.len() > 2 && s[0] == '0' && (s[1] == 'x' || s[1] == 'X') && is_hex_digits(s.skip(2))
}

/// A boolean token.
pub open spec fn is_bool_lexeme(s: Seq<char>) -> bool {
    s == "true"@ || s == "false"@ || s == "True"@ || s == "False"@
}

/// The value of a boolean token.
pub open spec fn bool_lex_val(s: Seq<char>) -> bool {
    s == "true"@ || s == "True"@
}

/// A null token: `null`, `~`, or the empty plain scalar.
pub open spec fn is_null_lexeme(s: Seq<char>) -> bool {
    s == "null"@ || s == "~"@ || s.len() == 0
}

/// The 64-bit signed value an integer token denotes: hexadecimal
/// tokens cover the full unsigned range and wrap into the signed
/// carrier; decimal tokens must fit the signed range. Anything else
/// is not an integer.
pub open spec fn int_lex(s: Seq<char>) -> Option<i64> {
    if is_hex_int_lexeme(s) {
        if hex_val(s.skip(2)) <= u64::MAX {
            if hex_val(s.skip(2)) <= i64::MAX {
                Some(hex_val(s.skip(2)) as i64)
            } else {
                Some((hex_val(s.skip(2)) - 0x10000000000000000) as i64)
            }
        } else {
            None
        }
    } else if is_dec_digits(s) {
        if dec_val(s) <= i64::MAX {
            Some(dec_val(s) as i64)
        } else {
            None
        }
    } else if s.len() > 1 && s[0] == '-' && is_dec_digits(s.skip(1)) {
        if dec_val(s.skip(1)) <= 0x8000000000000000 {
            Some((-dec_val(s.skip(1))) as i64)
        } else {
            None
        }
    } else {
        None
    }
}

/// The digit character of a value below sixteen, lowercase.
pub open spec fn digit_char(d: int) -> char {
    if d == 0 {
        '0'
    } else if d == 1 {
        '1'
    } else if d == 2 {
        '2'
    } else if d == 3 {
        '3'
    } else if d == 4 {
        '4'
    } else if d == 5 {
        '5'
    } else if d == 6 {
        '6'
    } else if d == 7 {
        '7'
    } else if d == 8 {
        '8'
    } else if d == 9 {
        '9'
    } else if d == 10 {
        'a'
    } else if d == 11 {
        'b'
    } else if d == 12 {
        'c'
    } else if d == 13 {
        'd'
    } else if d == 14 {
        'e'
    } else {
        'f'
    }
}

/// The decimal digit string of a natural number, most significant
/// digit first.
pub open spec fn dec_digits_text(n: nat) -> Seq<char>
    decreases n,
{
    if n < 10 {
        seq![digit_char(n as int)]
    } else {
        dec_digits_text(n / 10).push(digit_char((n % 10) as int))
    }
}

/// The lowercase hexadecimal digit string of a natural number.
pub open spec fn hex_digits_text(n: nat) -> Seq<char>
    decreases n,
{
    if n < 16 {
        seq![digit_char(n as int)]
    } else {
        hex_digits_text(n / 16).push(digit_char((n % 16) as int))
    }
}

/// The canonical decimal text of a 64-bit signed integer.
pub open spec fn int_text(v: i64) -> Seq<char> {
    if v >= 0 {
        dec_digits_text(v as nat)
    } else {
        seq!['-'] + dec_digits_text((-(v as int)) as nat)
    }
}

/// The canonical `0x`-prefixed hexadecimal text of an unsigned value.
pub open spec fn hex_int_text(v: nat) -> Seq<char> {
    seq!['0', 'x'] + hex_digits_text(v)
}

/// A decimal digit string denotes its number, and every character in
/// it is a digit.
pub proof fn lemma_dec_text_val(n: nat)
    ensures
        is_dec_digits(dec_digits_text(n)),
        dec_val(dec_digits_text(n)) == n,
    decreases n,
{
    if n < 10 {
        let s = dec_digits_text(n);
        assert(s =~= seq![digit_char(n as int)]);
        assert(s.drop_last() =~= Seq::<char>::empty());
        assert(dec_val(s.drop_last()) == 0);
        assert(s.last() == digit_char(n as int));
        assert(dec_val(s) == dec_digit_val(digit_char(n as int)));
        assert(dec_val(dec_digits_text(n)) == n);
    } else {
        lemma_dec_text_val(n / 10);
        let s = dec_digits_text(n / 10);
        let t = s.push(digit_char((n % 10) as int));
        assert(t.drop_last() =~= s);
        assert(dec_val(t) == dec_val(s) * 10 + dec_digit_val(t.last()));
        assert(dec_val(t) == n);
        assert forall|i: int| 0 <= i < t.len() implies is_dec_digit(#[trigger] t[i]) by {
            if i < s.len() {
                assert(is_dec_digit(s[i]));
            }
        }
    }
}

/// A hexadecimal digit string denotes its number, and every
/// character in it is a hexadecimal digit.
pub proof fn lemma_hex_text_val(n: nat)
    ensures
        is_hex_digits(hex_digits_text(n)),
        hex_val(hex_digits_text(n)) == n,
    decreases n,
{
    if n < 16 {
        let s = hex_digits_text(n);
        assert(s =~= seq![digit_char(n as int)]);
        assert(s.drop_last() =~= Seq::<char>::empty());
        assert(hex_val(s.drop_last()) == 0);
        assert(s.last() == digit_char(n as int));
        assert(hex_val(s) == hex_digit_val(digit_char(n as int)));
        assert(hex_val(hex_digits_text(n)) == n);
    } else {
        lemma_hex_text_val(n / 16);
        let s = hex_digits_text(n / 16);
        let t = s.push(digit_char((n % 16) as int));
        assert(t.drop_last() =~= s);
        assert(hex_val(t) == hex_val(s) * 16 + hex_digit_val(t.last()));
        assert(hex_val(t) == n);
        assert forall|i: int| 0 <= i < t.len() implies is_hex_digit(#[trigger] t[i]) by {
            if i < s.len() {
                assert(is_hex_digit(s[i]));
            }
        }
    }
}

/// Decimal integer text always lexes back to the integer it was
/// written from.
pub proof fn lemma_int_text_round_trip(v: i64)
    ensures
        int_lex(int_text(v)) == Some(v),
{
    if v >= 0 {
        lemma_dec_text_val(v as nat);
        let s = int_text(v);
        assert(!is_hex_int_lexeme(s)) by {
            if s.len() > 2 {
                assert(is_dec_digit(s[1]));
            }
        }
    } else {
        let m = (-(v as int)) as nat;
        lemma_dec_text_val(m);
        let s = int_text(v);
        assert(s[0] == '-');
        assert(s.skip(1) =~= dec_digits_text(m));
        assert(!is_dec_digits(s)) by {
            assert(!is_dec_digit(s[0]));
        }
        assert(!is_hex_int_lexeme(s));
        assert(m <= 0x8000000000000000);
        assert(int_lex(s) == Some(v));
    }
}

/// Hexadecimal integer text lexes back to the unsigned value it was
/// written from, wrapped into the signed carrier.
pub proof fn lemma_hex_text_round_trip(v: u64)
    ensures
        is_hex_int_lexeme(hex_int_text(v as nat)),
        v <= i64::MAX ==> int_lex(hex_int_text(v as nat)) == Some(v as i64),
        v > i64::MAX ==> int_lex(hex_int_text(v as nat)) == Some((v - 0x10000000000000000) as i64),
{
    lemma_hex_text_val(v as nat);
    let s = hex_int_text(v as nat);
    assert(s.skip(2) =~= hex_digits_text(v as nat));
    assert(is_hex_int_lexeme(s));
}

/// The canonical decimal text of an integer, lexed untagged and
/// unquoted, comes back as exactly that integer: the integer leg of
/// the text round trip.
pub proof fn lemma_untagged_int_round_trip(v: i64)
    ensures
        lex_scalar(None, int_text(v), false) == Some(SpecScalar::Int(v)),
{
    reveal_strlit("null");
    reveal_strlit("~");
    reveal_strlit("true");
    reveal_strlit("false");
    reveal_strlit("True");
    reveal_strlit("False");
    lemma_int_text_round_trip(v);
    let s = int_text(v);
    if v >= 0 {
        lemma_dec_text_val(v as nat);
        assert(is_dec_digit(s[0]));
    } else {
        assert(s[0] == '-');
    }
    assert(s.len() > 0);
    assert(s != "null"@ && s != "~"@ && s != "true"@ && s != "false"@ && s != "True"@ && s
        != "False"@) by {
        assert("null"@[0] == 'n' && "~"@[0] == '~' && "true"@[0] == 't' && "false"@[0] == 'f'
            && "True"@[0] == 'T' && "False"@[0] == 'F');
    }
}

/// The canonical hexadecimal text of an unsigned 64-bit value, lexed
/// untagged and unquoted, comes back as that value wrapped into the
/// signed carrier: the unsigned leg of the text round trip.
pub proof fn lemma_untagged_hex_round_trip(v: u64)
    ensures
        v <= i64::MAX ==> lex_scalar(None, hex_int_text(v as nat), false) == Some(
            SpecScalar::Int(v as i64),
        ),
        v > i64::MAX ==> lex_scalar(None, hex_int_text(v as nat), false) == Some(
            SpecScalar::Int((v - 0x10000000000000000) as i64),
        ),
{
    reveal_strlit("null");
    reveal_strlit("~");
    reveal_strlit("true");
    reveal_strlit("false");
    reveal_strlit("True");
    reveal_strlit("False");
    lemma_hex_text_round_trip(v);
    let s = hex_int_text(v as nat);
    assert(s[0] == '0');
    assert(s.len() > 2);
    assert(s != "null"@ && s != "~"@ && s != "true"@ && s != "false"@ && s != "True"@ && s
        != "False"@) by {
        assert("null"@[0] == 'n' && "~"@[0] == '~' && "true"@[0] == 't' && "false"@[0] == 'f'
            && "True"@[0] == 'T' && "False"@[0] == 'F');
    }
}

// ---------------------------------------------------------------
// The scalar lexer
// ---------------------------------------------------------------
/// What a scalar token denotes, given an optional coarse type from a
/// tag and whether the token was quoted. Quoted tokens are never
/// reinterpreted; a tagged token that does not lex as the tagged
/// type is an error (`None`); an untagged token falls through null,
/// boolean, integer, and float recognition to plain text.
pub open spec fn lex_scalar(tag: Option<TagBasedType>, s: Seq<char>, quoted: bool) -> Option<
    SpecScalar,
> {
    if quoted {
        Some(SpecScalar::Str(s))
    } else {
        match tag {
            Some(TagBasedType::Str) => Some(SpecScalar::Str(s)),
            Some(TagBasedType::Null) => Some(SpecScalar::Null),
            Some(TagBasedType::Bool) => if is_bool_lexeme(s) {
                Some(SpecScalar::Bool(bool_lex_val(s)))
            } else {
                None
            },
            Some(TagBasedType::Int) => match int_lex(s) {
                Some(i) => Some(SpecScalar::Int(i)),
                None => None,
            },
            Some(TagBasedType::Float) => match f64_bits_of_text(s) {
                Some(b) => Some(SpecScalar::Float(b)),
                None => None,
            },
            None => if is_null_lexeme(s) {
                Some(SpecScalar::Null)
            } else if is_bool_lexeme(s) {
                Some(SpecScalar::Bool(bool_lex_val(s)))
            } else if int_lex(s) is Some {
                Some(SpecScalar::Int(int_lex(s)->0))
            } else if f64_bits_of_text(s) is Some {
                Some(SpecScalar::Float(f64_bits_of_text(s)->0))
            } else {
                Some(SpecScalar::Str(s))
            },
        }
    }
}

/// A character that the text bridge cannot leave bare in a plain
/// scalar: a control character, a flow indicator, a comment or
/// anchor indicator, or a quote.
pub open spec fn is_yaml_special(c: char) -> bool {
    (c as u32) < 0x20 || c == ':' || c == ',' || c == '[' || c == ']' || c == '{' || c == '}'
        || c == '#' || c == '"' || c == '\\' || c == '\'' || c == '!' || c == '&' || c == '*'
        || c == '%' || c == '@' || c == '`' || c == '|' || c == '>'
}

/// Whether text must be quoted to survive as a string: it is empty,
/// it would lex as some other scalar kind, it has a leading or
/// trailing space, or it holds a special character.
pub open spec fn spec_string_needs_quotes(s: Seq<char>) -> bool {
    ||| s.len() == 0
    ||| is_null_lexeme(s)
    ||| is_bool_lexeme(s)
    ||| int_lex(s) is Some
    ||| f64_bits_of_text(s) is Some
    ||| s[0] == ' '
    ||| s.last() == ' '
    ||| exists|i: int| 0 <= i < s.len() && is_yaml_special(#[trigger] s[i])
}

/// Text that needs no quoting lexes, untagged and unquoted, back to
/// exactly itself.
pub proof fn lemma_plain_string_round_trip(s: Seq<char>)
    requires
        !spec_string_needs_quotes(s),
    ensures
        lex_scalar(None, s, false) == Some(SpecScalar::Str(s)),
{
}

// ---------------------------------------------------------------
// Trusted float and base64 conversions
// ---------------------------------------------------------------
/// The bit pattern `lexical` parses from a 64-bit float token, if any.
pub uninterp spec fn f64_bits_of_text(s: Seq<char>) -> Option<u64>;

/// The bit pattern `lexical` parses from a 32-bit float token, if any.
pub uninterp spec fn f32_bits_of_text(s: Seq<char>) -> Option<u32>;

/// The decimal text `lexical` writes for a 64-bit float.
pub uninterp spec fn f64_dec_of(bits: u64) -> Seq<char>;

/// The decimal text `lexical` writes for a 32-bit float.
pub uninterp spec fn f32_dec_of(bits: u32) -> Seq<char>;

/// The exponent field of a 64-bit float is not all ones: the value is
/// neither an infinity nor a NaN.
pub open spec fn f64_is_finite_bits(b: u64) -> bool {
    (b >> 52) & 0x7FF != 0x7FF
}

/// The exponent field of a 32-bit float is not all ones.
pub open spec fn f32_is_finite_bits(b: u32) -> bool {
    (b >> 23) & 0xFF != 0xFF
}

/// Relies on `lexical::parse` for `f64`: the correctly rounded value
/// of a float token, or a failure, from the text alone.
#[verifier::external_body]
pub fn parse_f64_bits(s: &str) -> (r: Option<u64>)
    ensures
        r == f64_bits_of_text(s@),
{
    match lexical::parse(s) {
        Ok(v) => {
            let mut buf = [0u8; 8];
            byteorder::LittleEndian::write_f64(&mut buf, v);
            Some(byteorder::LittleEndian::read_u64(&buf))
        },
        Err(_) => None,
    }
}

/// Relies on `lexical::parse` for `f32`: the correctly rounded value
/// of a float token, or a failure, from the text alone.
#[verifier::external_body]
pub fn parse_f32_bits(s: &str) -> (r: Option<u32>)
    ensures
        r == f32_bits_of_text(s@),
{
    match lexical::parse(s) {
        Ok(v) => {
            let mut buf = [0u8; 4];
            byteorder::LittleEndian::write_f32(&mut buf, v);
            Some(byteorder::LittleEndian::read_u32(&buf))
        },
        Err(_) => None,
    }
}

/// Relies on `lexical::to_string` for `f64`: minimal round-trip
/// decimal text, from the bits alone. Of a finite value the text
/// parses back to the same bits, parses as a float token, and is
/// plainly not an integer, boolean, or null token.
#[verifier::external_body]
pub fn f64_text(bits: u64) -> (r: String)
    ensures
        r@ == f64_dec_of(bits),
        f64_is_finite_bits(bits) ==> f64_bits_of_text(r@) == Some(bits),
        f64_is_finite_bits(bits) ==> int_lex(r@) is None,
        f64_is_finite_bits(bits) ==> !is_bool_lexeme(r@) && !is_null_lexeme(r@),
{
    let mut buf = [0u8; 8];
    byteorder::LittleEndian::write_u64(&mut buf, bits);
    lexical::to_string(byteorder::LittleEndian::read_f64(&buf))
}

/// Relies on `lexical::to_string` for `f32`: minimal round-trip
/// decimal text, from the bits alone. Of a finite value the text
/// parses back to the same bits, parses as a 64-bit float token too,
/// and is plainly not an integer, boolean, or null token.
#[verifier::external_body]
pub fn f32_text(bits: u32) -> (r: String)
    ensures
        r@ == f32_dec_of(bits),
        f32_is_finite_bits(bits) ==> f32_bits_of_text(r@) == Some(bits),
        f32_is_finite_bits(bits) ==> f64_bits_of_text(r@) is Some,
        f32_is_finite_bits(bits) ==> int_lex(r@) is None,
        f32_is_finite_bits(bits) ==> !is_bool_lexeme(r@) && !is_null_lexeme(r@),
{
    let mut buf = [0u8; 4];
    byteorder::LittleEndian::write_u32(&mut buf, bits);
    lexical::to_string(byteorder::LittleEndian::read_f32(&buf))
}

/// The base64 alphabet, including the padding character.
pub open spec fn is_base64_char(c: char) -> bool {
    is_dec_digit(c) || (('a' as u32) <= (c as u32) && (c as u32) <= ('z' as u32)) || (('A' as u32)
        <= (c as u32) && (c as u32) <= ('Z' as u32)) || c == '+' || c == '/' || c == '='
}

/// The base64 text of a byte string.
pub uninterp spec fn base64_text_of(b: Seq<u8>) -> Seq<char>;

/// The bytes a base64 text decodes to, if it is well formed.
pub uninterp spec fn base64_bytes_of(s: Seq<char>) -> Option<Seq<u8>>;

/// Relies on `base64::encode`: standard-alphabet padded base64 text,
/// from the bytes alone; `base64::decode` inverts it.
#[verifier::external_body]
pub fn base64_encode(data: &Vec<u8>) -> (r: String)
    ensures
        r@ == base64_text_of(data@),
        base64_bytes_of(r@) == Some(data@),
        forall|i: int| 0 <= i < r@.len() ==> is_base64_char(#[trigger] r@[i]),
{
    base64::encode(data)
}

/// Relies on `base64::decode`: the decoded bytes, or a failure, from
/// the text alone.
#[verifier::external_body]
pub fn base64_decode(s: &str) -> (r: Option<Vec<u8>>)
    ensures
        match r {
            Some(v) => base64_bytes_of(s@) == Some(v@),
            None => base64_bytes_of(s@) is None,
        },
{
    match base64::decode(s) {
        Ok(v) => Some(v),
        Err(_) => None,
    }
}

/// Relies on `String::from_iter` over characters: rebuilds owned text
/// from a character vector.
#[verifier::external_body]
pub fn string_from_chars(v: &Vec<char>) -> (r: String)
    ensures
        r@ == v@,
{
    v.iter().collect()
}

// ---------------------------------------------------------------
// Character access helpers
// ---------------------------------------------------------------
/// The characters of a string slice, as an indexable vector.
pub fn chars_of(s: &str) -> (r: Vec<char>)
    ensures
        r@ == s@,
{
    let n: usize = s.unicode_len();
    let mut v: Vec<char> = Vec::new();
    let mut i: usize = 0;
    while i < n
        invariant
            n == s@.len(),
            i <= n,
            v@ == s@.take(i as int),
        decreases n - i,
    {
        v.push(s.get_char(i));
        proof {
            assert(v@ =~= s@.take(i + 1));
        }
        i = i + 1;
    }
    proof {
        assert(v@ =~= s@);
    }
    v
}

/// Whether two string slices spell the same text.
pub fn str_eq(a: &str, b: &str) -> (r: bool)
    ensures
        r <==> a@ == b@,
{
    let n: usize = a.unicode_len();
    if b.unicode_len() != n {
        proof {
            assert(a@.len() != b@.len());
        }
        return false;
    }
    let mut i: usize = 0;
    while i < n
        invariant
            n == a@.len(),
            b@.len() == n,
            i <= n,
            forall|j: int| 0 <= j < i ==> a@[j] == b@[j],
        decreases n - i,
    {
        if a.get_char(i) != b.get_char(i) {
            proof {
                assert(a@[i as int] != b@[i as int]);
            }
            return false;
        }
        i = i + 1;
    }
    proof {
        assert(a@ =~= b@);
    }
    true
}

// ---------------------------------------------------------------
// Executable integer lexing and formatting
// ---------------------------------------------------------------
/// The value of a run of decimal digits, or `None` when it exceeds
/// the unsigned 64-bit range.
fn dec_chars_val(v: &Vec<char>, start: usize, end: usize) -> (r: Option<u64>)
    requires
        start <= end <= v@.len(),
        is_dec_digits(v@.subrange(start as int, end as int)),
    ensures
        match r {
            Some(n) => n == dec_val(v@.subrange(start as int, end as int)),
            None => dec_val(v@.subrange(start as int, end as int)) > u64::MAX,
        },
{
    let ghost s = v@.subrange(start as int, end as int);
    let mut acc: u128 = 0;
    let mut over: bool = false;
    let mut i: usize = start;
    while i < end
        invariant
            start <= i <= end <= v@.len(),
            s == v@.subrange(start as int, end as int),
            is_dec_digits(s),
            !over ==> acc == dec_val(s.take(i - start)) && acc <= u64::MAX,
            over ==> dec_val(s.take(i - start)) > u64::MAX,
        decreases end - i,
    {
        let c: char = v[i];
        proof {
            assert(s[i - start] == v@[i as int]);
            assert(is_dec_digit(s[i - start]));
            assert(s.take(i - start + 1).drop_last() =~= s.take(i - start));
        }
        let d: u32 = (c as u32) - 48;
        if !over {
            let next: u128 = acc * 10 + (d as u128);
            if next > 0xFFFF_FFFF_FFFF_FFFF {
                over = true;
                proof {
                    assert(dec_val(s.take(i - start + 1)) == dec_val(s.take(i - start)) * 10
                        + dec_digit_val(s[i - start]));
                }
            } else {
                acc = next;
            }
        } else {
            proof {
                let prev = dec_val(s.take(i - start));
                assert(dec_val(s.take(i - start + 1)) == prev * 10 + dec_digit_val(s[i - start]));
                assert(prev * 10 == prev + 9 * prev);
                assert(9 * prev >= 0);
            }
        }
        i = i + 1;
    }
    proof {
        assert(s.take(end - start) =~= s);
    }
    if over {
        None
    } else {
        Some(acc as u64)
    }
}

/// The value of a run of hexadecimal digits, or `None` when it
/// exceeds the unsigned 64-bit range.
fn hex_chars_val(v: &Vec<char>, start: usize, end: usize) -> (r: Option<u64>)
    requires
        start <= end <= v@.len(),
        is_hex_digits(v@.subrange(start as int, end as int)),
    ensures
        match r {
            Some(n) => n == hex_val(v@.subrange(start as int, end as int)),
            None => hex_val(v@.subrange(start as int, end as int)) > u64::MAX,
        },
{
    let ghost s = v@.subrange(start as int, end as int);
    let mut acc: u128 = 0;
    let mut over: bool = false;
    let mut i: usize = start;
    while i < end
        invariant
            start <= i <= end <= v@.len(),
            s == v@.subrange(start as int, end as int),
            is_hex_digits(s),
            !over ==> acc == hex_val(s.take(i - start)) && acc <= u64::MAX,
            over ==> hex_val(s.take(i - start)) > u64::MAX,
        decreases end - i,
    {
        let c: char = v[i];
        proof {
            assert(s[i - start] == v@[i as int]);
            assert(is_hex_digit(s[i - start]));
            assert(s.take(i - start + 1).drop_last() =~= s.take(i - start));
        }
        let u: u32 = c as u32;
        let d: u32 = if u >= 97 {
            u - 97 + 10
        } else if u >= 65 {
            u - 65 + 10
        } else {
            u - 48
        };
        proof {
            assert(d == hex_digit_val(s[i - start]));
        }
        if !over {
            let next: u128 = acc * 16 + (d as u128);
            if next > 0xFFFF_FFFF_FFFF_FFFF {
                over = true;
                proof {
                    assert(hex_val(s.take(i - start + 1)) == hex_val(s.take(i - start)) * 16
                        + hex_digit_val(s[i - start]));
                }
            } else {
                acc = next;
            }
        } else {
            proof {
                let prev = hex_val(s.take(i - start));
                assert(hex_val(s.take(i - start + 1)) == prev * 16 + hex_digit_val(s[i - start]));
                assert(prev * 16 == prev + 15 * prev);
                assert(15 * prev >= 0);
            }
        }
        i = i + 1;
    }
    proof {
        assert(s.take(end - start) =~= s);
    }
    if over {
        None
    } else {
        Some(acc as u64)
    }
}

/// Whether every character in `v[start..end]` is a decimal digit,
/// the range being nonempty.
fn check_dec_digits(v: &Vec<char>, start: usize, end: usize) -> (r: bool)
    requires
        start <= end <= v@.len(),
    ensures
        r == is_dec_digits(v@.subrange(start as int, end as int)),
{
    if start == end {
        return false;
    }
    let mut i: usize = start;
    while i < end
        invariant
            start <= i <= end <= v@.len(),
            forall|j: int| start <= j < i ==> is_dec_digit(#[trigger] v@[j]),
        decreases end - i,
    {
        let u: u32 = v[i] as u32;
        if u < 48 || u > 57 {
            proof {
                assert(!is_dec_digit(v@.subrange(start as int, end as int)[i - start]));
            }
            return false;
        }
        i = i + 1;
    }
    proof {
        assert forall|j: int|
            0 <= j < end - start implies is_dec_digit(
            #[trigger] v@.subrange(start as int, end as int)[j],
        ) by {
            assert(is_dec_digit(v@[start + j]));
        }
    }
    true
}

/// Whether every character in `v[start..end]` is a hexadecimal
/// digit, the range being nonempty.
fn check_hex_digits(v: &Vec<char>, start: usize, end: usize) -> (r: bool)
    requires
        start <= end <= v@.len(),
    ensures
        r == is_hex_digits(v@.subrange(start as int, end as int)),
{
    if start == end {
        return false;
    }
    let mut i: usize = start;
    while i < end
        invariant
            start <= i <= end <= v@.len(),
            forall|j: int| start <= j < i ==> is_hex_digit(#[trigger] v@[j]),
        decreases end - i,
    {
        let u: u32 = v[i] as u32;
        if !((u >= 48 && u <= 57) || (u >= 97 && u <= 102) || (u >= 65 && u <= 70)) {
            proof {
                assert(!is_hex_digit(v@.subrange(start as int, end as int)[i - start]));
            }
            return false;
        }
        i = i + 1;
    }
    proof {
        assert forall|j: int|
            0 <= j < end - start implies is_hex_digit(
            #[trigger] v@.subrange(start as int, end as int)[j],
        ) by {
            assert(is_hex_digit(v@[start + j]));
        }
    }
    true
}

/// Lex an integer token: `0x` hexadecimal over the full unsigned
/// range, wrapped into the signed carrier, or signed decimal.
pub fn parse_int_token(v: &Vec<char>) -> (r: Option<i64>)
    ensures
        r == int_lex(v@),
{
    let n: usize = v.len();
    if n > 2 && v[0] == '0' && (v[1] == 'x' || v[1] == 'X') && check_hex_digits(v, 2, n) {
        proof {
            assert(v@.skip(2) =~= v@.subrange(2, n as int));
        }
        match hex_chars_val(v, 2, n) {
            Some(h) => {
                if h <= 0x7FFF_FFFF_FFFF_FFFF {
                    Some(h as i64)
                } else {
                    let m: u64 = h - 0x8000_0000_0000_0000;
                    Some((-0x7FFF_FFFF_FFFF_FFFFi64 - 1) + (m as i64))
                }
            },
            None => None,
        }
    } else if check_dec_digits(v, 0, n) {
        proof {
            assert(v@.subrange(0, n as int) =~= v@);
            assert(!is_hex_int_lexeme(v@)) by {
                if n > 2 {
                    assert(is_dec_digit(v@[1]));
                }
            }
        }
        match dec_chars_val(v, 0, n) {
            Some(d) => {
                if d <= 0x7FFF_FFFF_FFFF_FFFF {
                    Some(d as i64)
                } else {
                    None
                }
            },
            None => None,
        }
    } else if n > 1 && v[0] == '-' && check_dec_digits(v, 1, n) {
        proof {
            assert(v@.skip(1) =~= v@.subrange(1, n as int));
            assert(!is_dec_digits(v@)) by {
                assert(!is_dec_digit(v@[0]));
            }
            assert(!is_hex_int_lexeme(v@));
        }
        match dec_chars_val(v, 1, n) {
            Some(d) => {
                if d < 0x8000_0000_0000_0000 {
                    Some(-(d as i64))
                } else if d == 0x8000_0000_0000_0000 {
                    Some(-0x7FFF_FFFF_FFFF_FFFFi64 - 1)
                } else {
                    None
                }
            },
            None => None,
        }
    } else {
        proof {
            if is_hex_int_lexeme(v@) {
                assert(v@.subrange(2, n as int) =~= v@.skip(2));
            }
            if is_dec_digits(v@) {
                assert(v@.subrange(0, n as int) =~= v@);
            }
            if v@.len() > 1 && v@[0] == '-' && is_dec_digits(v@.skip(1)) {
                assert(v@.subrange(1, n as int) =~= v@.skip(1));
            }
        }
        None
    }
}

/// Append the decimal digits of `n` to `out`.
fn push_dec_digits(n: u64, out: &mut Vec<char>)
    ensures
        final(out)@ == old(out)@ + dec_digits_text(n as nat),
    decreases n,
{
    if n < 10 {
        let d: u64 = n;
        let c: char = match d {
            0 => '0',
            1 => '1',
            2 => '2',
            3 => '3',
            4 => '4',
            5 => '5',
            6 => '6',
            7 => '7',
            8 => '8',
            _ => '9',
        };
        out.push(c);
        proof {
            assert(out@ =~= old(out)@ + dec_digits_text(n as nat));
        }
    } else {
        push_dec_digits(n / 10, out);
        let d: u64 = n % 10;
        let c: char = match d {
            0 => '0',
            1 => '1',
            2 => '2',
            3 => '3',
            4 => '4',
            5 => '5',
            6 => '6',
            7 => '7',
            8 => '8',
            _ => '9',
        };
        out.push(c);
        proof {
            assert(out@ =~= old(out)@ + dec_digits_text(n as nat));
        }
    }
}

/// Append the lowercase hexadecimal digits of `n` to `out`.
fn push_hex_digits(n: u64, out: &mut Vec<char>)
    ensures
        final(out)@ == old(out)@ + hex_digits_text(n as nat),
    decreases n,
{
    if n >= 16 {
        push_hex_digits(n / 16, out);
    }
    let d: u64 = n % 16;
    let c: char = match d {
        0 => '0',
        1 => '1',
        2 => '2',
        3 => '3',
        4 => '4',
        5 => '5',
        6 => '6',
        7 => '7',
        8 => '8',
        9 => '9',
        10 => 'a',
        11 => 'b',
        12 => 'c',
        13 => 'd',
        14 => 'e',
        _ => 'f',
    };
    out.push(c);
    proof {
        if n < 16 {
            assert(out@ =~= old(out)@ + hex_digits_text(n as nat));
        } else {
            assert(out@ =~= old(out)@ + hex_digits_text(n as nat));
        }
    }
}

/// The canonical decimal text of a signed 64-bit integer.
pub fn i64_text(v: i64) -> (r: String)
    ensures
        r@ == int_text(v),
{
    let mut out: Vec<char> = Vec::new();
    if v >= 0 {
        push_dec_digits(v as u64, &mut out);
    } else {
        out.push('-');
        let m: u64 = if v == -0x7FFF_FFFF_FFFF_FFFFi64 - 1 {
            0x8000_0000_0000_0000
        } else {
            (-v) as u64
        };
        push_dec_digits(m, &mut out);
        proof {
            assert(out@ =~= seq!['-'] + dec_digits_text(m as nat));
        }
    }
    string_from_chars(&out)
}

/// The canonical `0x`-prefixed lowercase hexadecimal text of an
/// unsigned 64-bit integer.
pub fn u64_hex_text(v: u64) -> (r: String)
    ensures
        r@ == hex_int_text(v as nat),
{
    let mut out: Vec<char> = Vec::new();
    out.push('0');
    out.push('x');
    push_hex_digits(v, &mut out);
    proof {
        assert(out@ =~= hex_int_text(v as nat));
    }
    string_from_chars(&out)
}

/// Whether a character vector spells exactly the given string.
pub fn chars_eq_str(v: &Vec<char>, s: &str) -> (r: bool)
    ensures
        r <==> v@ == s@,
{
    let n: usize = s.unicode_len();
    if v.len() != n {
        proof {
            assert(v@.len() != s@.len());
        }
        return false;
    }
    let mut i: usize = 0;
    while i < n
        invariant
            n == s@.len(),
            v@.len() == n,
            i <= n,
            forall|j: int| 0 <= j < i ==> v@[j] == s@[j],
        decreases n - i,
    {
        if v[i] != s.get_char(i) {
            proof {
                assert(v@[i as int] != s@[i as int]);
            }
            return false;
        }
        i = i + 1;
    }
    proof {
        assert(v@ =~= s@);
    }
    true
}

/// Whether the text bridge cannot leave this character bare in a
/// plain scalar.
pub fn yaml_special(c: char) -> (r: bool)
    ensures
        r == is_yaml_special(c),
{
    (c as u32) < 0x20 || c == ':' || c == ',' || c == '[' || c == ']' || c == '{' || c == '}'
        || c == '#' || c == '"' || c == '\\' || c == '\'' || c == '!' || c == '&' || c == '*'
        || c == '%' || c == '@' || c == '`' || c == '|' || c == '>'
}

/// Whether `v` spells a boolean token, and which.
fn lex_bool(v: &Vec<char>) -> (r: Option<bool>)
    ensures
        r is Some <==> is_bool_lexeme(v@),
        r is Some ==> r->0 == bool_lex_val(v@),
{
    if chars_eq_str(v, "true") || chars_eq_str(v, "True") {
        Some(true)
    } else if chars_eq_str(v, "false") || chars_eq_str(v, "False") {
        Some(false)
    } else {
        None
    }
}

/// Whether `v` spells a null token.
fn lex_null(v: &Vec<char>) -> (r: bool)
    ensures
        r == is_null_lexeme(v@),
{
    v.len() == 0 || chars_eq_str(v, "null") || chars_eq_str(v, "~")
}

/// Lex one scalar token under an optional coarse tag type. Quoted
/// tokens always stay text; a tagged token that does not lex as the
/// tagged type is refused; an untagged token falls through null,
/// boolean, integer, and float recognition to plain text.
pub fn parse_scalar(tag_type: Option<TagBasedType>, value: &str, is_quoted: bool) -> (r: Result<
    Scalar,
>)
    ensures
        r is Ok <==> lex_scalar(tag_type, value@, is_quoted) is Some,
        r matches Ok(sc) ==> Some(sc@) == lex_scalar(tag_type, value@, is_quoted),
{
    if is_quoted {
        return Ok(Scalar::String(value.to_owned()));
    }
    match tag_type {
        Some(TagBasedType::Str) => Ok(Scalar::String(value.to_owned())),
        Some(TagBasedType::Null) => Ok(Scalar::Null),
        Some(TagBasedType::Bool) => {
            let v = chars_of(value);
            match lex_bool(&v) {
                Some(b) => Ok(Scalar::Bool(b)),
                None => Err(AampError::InvalidData("scalar is not a boolean")),
            }
        },
        Some(TagBasedType::Int) => {
            let v = chars_of(value);
            match parse_int_token(&v) {
                Some(i) => Ok(Scalar::Int(i)),
                None => Err(AampError::InvalidData("scalar is not an integer")),
            }
        },
        Some(TagBasedType::Float) => match parse_f64_bits(value) {
            Some(b) => Ok(Scalar::Float(b)),
            None => Err(AampError::InvalidData("scalar is not a float")),
        },
        None => {
            let v = chars_of(value);
            if lex_null(&v) {
                return Ok(Scalar::Null);
            }
            match lex_bool(&v) {
                Some(b) => Ok(Scalar::Bool(b)),
                None => match parse_int_token(&v) {
                    Some(i) => Ok(Scalar::Int(i)),
                    None => match parse_f64_bits(value) {
                        Some(b) => Ok(Scalar::Float(b)),
                        None => Ok(Scalar::String(value.to_owned())),
                    },
                },
            }
        },
    }
}

/// Whether text must be quoted to survive as a string through the
/// bridge.
pub fn string_needs_quotes(value: &str) -> (r: bool)
    ensures
        r == spec_string_needs_quotes(value@),
{
    let v = chars_of(value);
    let n: usize = v.len();
    if n == 0 {
        return true;
    }
    if lex_null(&v) {
        return true;
    }
    if lex_bool(&v).is_some() {
        return true;
    }
    if parse_int_token(&v).is_some() {
        return true;
    }
    if parse_f64_bits(value).is_some() {
        return true;
    }
    if v[0] == ' ' || v[n - 1] == ' ' {
        return true;
    }
    let mut i: usize = 0;
    while i < n
        invariant
            n == v@.len(),
            i <= n,
            v@ == value@,
            forall|j: int| 0 <= j < i ==> !is_yaml_special(#[trigger] v@[j]),
        decreases n - i,
    {
        if yaml_special(v[i]) {
            return true;
        }
        i = i + 1;
    }
    false
}

} // verus!
