use vstd::prelude::*;
use vstd::string::StringSliceAdditionalSpecFns;

verus! {

/// The bytes of an ASCII character sequence, one byte per character.
pub open spec fn bytes_of(s: Seq<char>) -> Seq<u8> {
    Seq::new(s.len(), |i: int| s[i] as u8)
}

/// True when every byte is an ASCII code point.
pub open spec fn ascii_bytes(s: Seq<u8>) -> bool {
    forall|i: int| 0 <= i < s.len() ==> #[trigger] s[i] < 128
}

/// For an ASCII character sequence the UTF-8 bytes are exactly the
/// characters, one byte each.
pub proof fn lemma_ascii_chars_bytes(s: Seq<char>)
    requires
        vstd::utf8::is_ascii_chars(s),
    ensures
        vstd::utf8::encode_utf8(s) =~= bytes_of(s),
        ascii_bytes(bytes_of(s)),
{
    vstd::utf8::is_ascii_chars_encode_utf8(s);
    assert forall|i: int| 0 <= i < s.len() implies #[trigger] bytes_of(s)[i] < 128 by {
        assert(s[i] <= '\u{7f}');
    }
}

/// Relies on `String::from_utf8`: a buffer of ASCII bytes is valid UTF-8 and
/// decodes to the same code points, one character per byte.
#[verifier::external_body]
pub(crate) fn ascii_to_string(bytes: Vec<u8>) -> (r: String)
    requires
        ascii_bytes(bytes@),
    ensures
        r@.len() == bytes@.len(),
        forall|i: int| 0 <= i < bytes@.len() ==> #[trigger] r@[i] == bytes@[i] as char,
        r.is_ascii(),
{
    match String::from_utf8(bytes) {
        Ok(s) => s,
        Err(_) => String::new(),
    }
}

/// `bytes_of` after `ascii_to_string` gives back the original bytes.
pub proof fn lemma_ascii_to_string_bytes(bytes: Seq<u8>, s: Seq<char>)
    requires
        ascii_bytes(bytes),
        s.len() == bytes.len(),
        forall|i: int| 0 <= i < bytes.len() ==> #[trigger] s[i] == bytes[i] as char,
    ensures
        bytes_of(s) =~= bytes,
        vstd::utf8::is_ascii_chars(s),
{
    assert forall|i| 0 <= i < s.len() implies '\0' <= #[trigger] s[i] <= '\u{7f}' by {
        assert(s[i] == bytes[i] as char);
        assert(bytes[i] < 128);
    }
}

} // verus!
