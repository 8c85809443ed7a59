use vstd::prelude::*;

verus! {

/// Whether `b` is an ASCII letter.
pub open spec fn is_alpha_byte(b: u8) -> bool {
    (65 <= b <= 90) || (97 <= b <= 122)
}

/// The upper-case form of an ASCII byte; other bytes are unchanged.
pub open spec fn upper_byte(b: u8) -> u8 {
    if 97 <= b <= 122 {
        (b - 32) as u8
    } else {
        b
    }
}

/// The characters of a run of bytes below 128, one character per byte.
pub open spec fn ascii_chars(v: Seq<u8>) -> Seq<char> {
    Seq::new(v.len(), |i: int| v[i] as char)
}

/// Whether every byte of `v` is below 128.
pub open spec fn all_ascii(v: Seq<u8>) -> bool {
    forall|i: int| 0 <= i < v.len() ==> #[trigger] v[i] < 128
}

/// Relies on `String::from_utf8`: a vector of bytes below 128 is valid
/// UTF-8, and decodes to the string whose characters are those bytes.
#[verifier::external_body]
pub fn ascii_to_string(v: Vec<u8>) -> (r: String)
    requires
        all_ascii(v@),
    ensures
        r@ == ascii_chars(v@),
        vstd::utf8::is_ascii_chars(r@),
{
    match String::from_utf8(v) {
        Ok(s) => s,
        Err(_) => String::new(),
    }
}


/// The characters of a run of bytes below 128 encode back to exactly
/// those bytes.
pub proof fn lemma_ascii_chars_encode(b: Seq<u8>)
    requires
        all_ascii(b),
    ensures
        vstd::utf8::is_ascii_chars(ascii_chars(b)),
        vstd::utf8::encode_utf8(ascii_chars(b)) == b,
{
    let c = ascii_chars(b);
    assert forall|i: int| 0 <= i < c.len() implies '\0' <= #[trigger] c[i] <= '\u{7f}' by {
        assert(c[i] == b[i] as char);
        assert(b[i] < 128);
    }
    assert(vstd::utf8::is_ascii_chars(c));
    vstd::utf8::is_ascii_chars_encode_utf8(c);
    assert forall|i: int| 0 <= i < b.len() implies vstd::utf8::encode_utf8(c)[i] == #[trigger] b[i]
    by {
        assert(c[i] as u8 == vstd::utf8::encode_utf8(c)[i]);
        assert((b[i] as char) as u8 == b[i]);
    }
    assert(vstd::utf8::encode_utf8(c) =~= b);
}

} // verus!
