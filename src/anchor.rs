//! Anchor (URL fragment) generation for heading text.

use vstd::prelude::*;
use vstd::std_specs::iter::IteratorSpec;
use vstd::utf8::*;

verus! {

/// The uppercase hexadecimal digit for a value below sixteen.
pub open spec fn hex_digit(n: u8) -> char
    recommends
        n < 16,
{
    if n < 10 {
        (('0' as u8) + n) as char
    } else {
        (('A' as u8) + (n - 10)) as char
    }
}

/// `%XX` for one byte, with two uppercase hexadecimal digits.
pub open spec fn percent_byte(b: u8) -> Seq<char> {
    seq!['%', hex_digit(b / 16), hex_digit(b % 16)]
}

/// The percent encoding of a byte sequence, byte by byte in order.
pub open spec fn percent_bytes(bs: Seq<u8>) -> Seq<char>
    decreases bs.len(),
{
    if bs.len() == 0 {
        Seq::empty()
    } else {
        percent_bytes(bs.drop_last()) + percent_byte(bs.last())
    }
}

/// The percent encoding of a character: each byte of its UTF-8 form as `%XX`.
pub open spec fn percent_spec(c: char) -> Seq<char> {
    percent_bytes(encode_scalar(c as u32))
}

/// Relies on `String::push`: appends one character.
#[verifier::external_body]
pub(crate) fn push_char(s: &mut String, c: char)
    ensures
        final(s)@ == old(s)@.push(c),
{
    s.push(c);
}

fn hex_char(n: u8) -> (r: char)
    requires
        n < 16,
    ensures
        r == hex_digit(n),
{
    if n < 10 {
        (48u8 + n) as char
    } else {
        (55u8 + n) as char
    }
}

/// The UTF-8 encoding of one character.
pub fn utf8_of(c: char) -> (r: Vec<u8>)
    ensures
        r@ == encode_scalar(c as u32),
{
    let v: u32 = c as u32;
    let mut r: Vec<u8> = Vec::new();
    if v <= 0x7F {
        r.push((v & 0x7F) as u8);
    } else if v <= 0x7FF {
        r.push(0xC0 | ((v >> 6) & 0x1F) as u8);
        r.push(0x80 | (v & 0x3F) as u8);
    } else if v <= 0xFFFF {
        r.push(0xE0 | ((v >> 12) & 0x0F) as u8);
        r.push(0x80 | ((v >> 6) & 0x3F) as u8);
        r.push(0x80 | (v & 0x3F) as u8);
    } else {
        r.push(0xF0 | ((v >> 18) & 0x7) as u8);
        r.push(0x80 | ((v >> 12) & 0x3F) as u8);
        r.push(0x80 | ((v >> 6) & 0x3F) as u8);
        r.push(0x80 | (v & 0x3F) as u8);
    }
    r
}

/// Percent-encodes a character: every byte of its UTF-8 encoding becomes
/// `%` followed by two uppercase hexadecimal digits, in byte order.
pub fn percent_encode(c: char) -> (r: String)
    ensures
        r@ == percent_spec(c),
{
    let bytes = utf8_of(c);
    let mut r = String::new();
    let mut i: usize = 0;
    while i < bytes.len()
        invariant
            i <= bytes@.len(),
            bytes@ == encode_scalar(c as u32),
            r@ == percent_bytes(bytes@.subrange(0, i as int)),
        decreases bytes@.len() - i,
    {
        let b = bytes[i];
        push_char(&mut r, '%');
        push_char(&mut r, hex_char(b / 16));
        push_char(&mut r, hex_char(b % 16));
        proof {
            let s = bytes@.subrange(0, i + 1);
            assert(s.drop_last() =~= bytes@.subrange(0, i as int));
        }
        i = i + 1;
    }
    proof {
        assert(bytes@.subrange(0, bytes@.len() as int) =~= bytes@);
    }
    r
}


/// What `char::is_uppercase` reports of a character.
pub uninterp spec fn upper_of(c: char) -> bool;

/// What `char::is_alphanumeric` reports of a character.
pub uninterp spec fn alnum_of(c: char) -> bool;

/// The characters that `char::to_lowercase` yields for a character.
pub uninterp spec fn lower_of(c: char) -> Seq<char>;

/// Relies on `char::is_uppercase`: whether the character has the Unicode
/// `Uppercase` property.
#[verifier::external_body]
fn is_upper(c: char) -> (r: bool)
    ensures
        r == upper_of(c),
{
    c.is_uppercase()
}

/// Relies on `char::is_alphanumeric`: whether the character is alphabetic or
/// numeric in Unicode's sense.
#[verifier::external_body]
fn is_alnum(c: char) -> (r: bool)
    ensures
        r == alnum_of(c),
{
    c.is_alphanumeric()
}

/// Relies on `char::to_lowercase`: the full lowercase mapping of a character,
/// collected into a string.
#[verifier::external_body]
fn lowercase(c: char) -> (r: String)
    ensures
        r@ == lower_of(c),
{
    c.to_lowercase().collect()
}

/// Characters that never reach an anchor.
pub open spec fn is_ignored(c: char) -> bool {
    c == '+' || c == ':' || c == ';' || c == '.' || c == ',' || c == '{' || c == '}'
        || c == '"' || c == '@' || c == '#' || c == '>' || c == '<' || c == '[' || c == ']'
        || c == '|' || c == '/' || c == '?' || c == '!' || c == '$' || c == '*' || c == '='
        || c == '&' || c == '\'' || c == '(' || c == ')' || c == '~'
}

/// ASCII lowercasing of one character; other characters are unchanged.
pub open spec fn ascii_lower(c: char) -> char {
    if 'A' <= c && c <= 'Z' {
        ((c as u32) + 32) as char
    } else {
        c
    }
}

/// What one character of heading text contributes to its anchor.
pub open spec fn anchor_char(c: char) -> Seq<char> {
    if is_ignored(c) {
        Seq::empty()
    } else if c == ' ' {
        seq!['-']
    } else if (c as u32) < 128 {
        seq![ascii_lower(c)]
    } else if upper_of(c) {
        lower_of(c)
    } else if !alnum_of(c) {
        percent_spec(c)
    } else {
        seq![c]
    }
}

/// The anchor of a heading text: the contributions of its characters, in order.
pub open spec fn anchor_spec(t: Seq<char>) -> Seq<char>
    decreases t.len(),
{
    if t.len() == 0 {
        Seq::empty()
    } else {
        anchor_spec(t.drop_last()) + anchor_char(t.last())
    }
}

/// The characters of a string slice, in order.
pub fn chars_of(s: &str) -> (r: Vec<char>)
    ensures
        r@ == s@,
{
    let mut r: Vec<char> = Vec::new();
    for c in it: s.chars()
        invariant
            it.seq() == s@,
            r@ == it.seq().subrange(0, it.index() as int),
    {
        r.push(c);
    }
    r
}

fn push_ascii_lower(s: &mut String, c: char)
    ensures
        final(s)@ == old(s)@.push(ascii_lower(c)),
{
    if 'A' <= c && c <= 'Z' {
        push_char(s, ((c as u8) + 32) as char);
    } else {
        push_char(s, c);
    }
}

/// Appends the contribution of one character to an anchor under construction.
fn push_anchor_char(s: &mut String, c: char)
    ensures
        final(s)@ == old(s)@ + anchor_char(c),
{
    if c == '+' || c == ':' || c == ';' || c == '.' || c == ',' || c == '{' || c == '}'
        || c == '"' || c == '@' || c == '#' || c == '>' || c == '<' || c == '[' || c == ']'
        || c == '|' || c == '/' || c == '?' || c == '!' || c == '$' || c == '*' || c == '='
        || c == '&' || c == '\'' || c == '(' || c == ')' || c == '~' {
        assert(old(s)@ + anchor_char(c) =~= old(s)@);
    } else if c == ' ' {
        push_char(s, '-');
        assert(old(s)@.push('-') =~= old(s)@ + seq!['-']);
    } else if (c as u32) < 128 {
        push_ascii_lower(s, c);
        assert(old(s)@.push(ascii_lower(c)) =~= old(s)@ + seq![ascii_lower(c)]);
    } else if is_upper(c) {
        let low = lowercase(c);
        s.append(low.as_str());
    } else if !is_alnum(c) {
        let enc = percent_encode(c);
        s.append(enc.as_str());
    } else {
        push_char(s, c);
        assert(old(s)@.push(c) =~= old(s)@ + seq![c]);
    }
}

/// Maps heading text to its anchor: ignored punctuation is dropped, a space
/// becomes `-`, ASCII is lowercased, other uppercase letters take their
/// lowercase form, other non-alphanumeric characters are percent-encoded, and
/// the remaining characters are kept.
pub fn make_link(heading_name: &str) -> (r: String)
    ensures
        r@ == anchor_spec(heading_name@),
{
    let cs = chars_of(heading_name);
    let mut r = String::new();
    let mut i: usize = 0;
    while i < cs.len()
        invariant
            i <= cs@.len(),
            cs@ == heading_name@,
            r@ == anchor_spec(cs@.subrange(0, i as int)),
        decreases cs@.len() - i,
    {
        push_anchor_char(&mut r, cs[i]);
        proof {
            assert(cs@.subrange(0, i + 1).drop_last() =~= cs@.subrange(0, i as int));
        }
        i = i + 1;
    }
    proof {
        assert(cs@.subrange(0, cs@.len() as int) =~= cs@);
    }
    r
}

} // verus!
