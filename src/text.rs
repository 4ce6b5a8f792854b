//! Conversions between text encodings, made by std and by `utf16string`.
use vstd::prelude::*;
use vstd::std_specs::iter::IteratorSpec;

verus! {

/// The 16-bit little-endian code unit at byte `i`.
pub open spec fn unit_at(b: Seq<u8>, i: int) -> int {
    b[i] as int + 256 * (b[i + 1] as int)
}

/// The text that a little-endian UTF-16 byte string encodes, or `None` where
/// the bytes are not well-formed UTF-16: an odd length, a trailing surrogate
/// without a leading one before it, or a leading surrogate not followed by a
/// trailing one.  A leading and a trailing surrogate together give one
/// character beyond the basic plane.
pub open spec fn utf16le_text(b: Seq<u8>) -> Option<Seq<char>>
    decreases b.len(),
{
    if b.len() == 0 {
        Some(Seq::empty())
    } else if b.len() < 2 {
        None
    } else {
        let u = unit_at(b, 0);
        if 0xDC00 <= u < 0xE000 {
            None
        } else if 0xD800 <= u < 0xDC00 {
            if b.len() < 4 {
                None
            } else {
                let w = unit_at(b, 2);
                if !(0xDC00 <= w < 0xE000) {
                    None
                } else {
                    match utf16le_text(b.subrange(4, b.len() as int)) {
                        Some(rest) => Some(seq![(0x10000 + (u - 0xD800) * 0x400 + (w - 0xDC00)) as char] + rest),
                        None => None,
                    }
                }
            }
        } else {
            match utf16le_text(b.subrange(2, b.len() as int)) {
                Some(rest) => Some(seq![u as char] + rest),
                None => None,
            }
        }
    }
}

/// Relies on `utf16string::WString::<LE>::from_utf16le`, which validates the
/// bytes as little-endian UTF-16 (`validate_raw_utf16`), and on `to_utf8` of
/// the result, which yields its characters, pairing surrogates.
#[verifier::external_body]
pub(crate) fn decode_utf16le(b: Vec<u8>) -> (r: Option<String>)
    ensures
        r.is_some() == utf16le_text(b@).is_some(),
        r.is_some() ==> r.unwrap()@ == utf16le_text(b@).unwrap(),
{
    match utf16string::WString::<utf16string::LE>::from_utf16le(b) {
        Ok(w) => Some(w.to_utf8()),
        Err(_) => None,
    }
}

/// Relies on std's `String::push`: the character is appended.
#[verifier::external_body]
fn push_char(s: &mut String, c: char)
    ensures
        final(s)@ == old(s)@.push(c),
{
    s.push(c);
}

/// The string made of the characters `v`, in order.
pub fn string_of_chars(v: &[char]) -> (r: String)
    ensures
        r@ == v@,
{
    let mut r = String::new();
    let mut i: usize = 0;
    while i < v.len()
        invariant
            0 <= i <= v@.len(),
            r@ == v@.subrange(0, i as int),
        decreases v@.len() - i,
    {
        push_char(&mut r, v[i]);
        i = i + 1;
        assert(r@ =~= v@.subrange(0, i as int));
    }
    assert(v@.subrange(0, v@.len() as int) =~= v@);
    r
}

/// The characters of `s`, in order.
pub fn chars_of(s: &str) -> (r: Vec<char>)
    ensures
        r@ == s@,
{
    broadcast use vstd::string::axiom_spec_iter, vstd::string::next_postcondition;
    let mut v: Vec<char> = Vec::new();
    let mut it = s.chars();
    loop
        invariant
            v@ + it.remaining() == s@,
            it.obeys_prophetic_iter_laws(),
        decreases s@.len() - v@.len(),
    {
        match it.next() {
            Some(c) => {
                v.push(c);
                assert(v@ + it.remaining() =~= s@);
            },
            None => {
                assert(v@ =~= s@);
                return v;
            },
        }
    }
}

} // verus!
