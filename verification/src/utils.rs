use vstd::prelude::*;

use base64::Engine as _;
use blake2::Digest as _;
use rand::RngCore as _;

use crate::errors::{AppError, AppResult};
use crate::models::Choice;
use std::collections::HashSet;
use vstd::slice::slice_index_get;
use vstd::string::StringExecFns as _;

verus! {

broadcast use vstd::std_specs::hash::group_hash_axioms;

/// The 12-byte keyed digest the pseudonymization uses; a function of the
/// input bytes alone.
pub uninterp spec fn blake2b96_of(input: Seq<u8>) -> Seq<u8>;

/// The URL-safe unpadded base64 encoding of a byte sequence.
pub uninterp spec fn b64url_encode_of(bytes: Seq<u8>) -> Seq<char>;

/// What decoding URL-safe unpadded base64 yields: the bytes, or nothing
/// when the text is not valid base64.
pub uninterp spec fn b64url_decode_of(s: Seq<char>) -> Option<Seq<u8>>;

/// A character of the URL-safe base64 alphabet.
pub open spec fn is_b64url_char(c: char) -> bool {
    ('A' <= c && c <= 'Z') || ('a' <= c && c <= 'z') || ('0' <= c && c <= '9') || c == '-' || c
        == '_'
}

/// Relies on blake2's `Blake2b` with 12-byte output: the digest is a
/// function of the input bytes alone and is always 12 bytes long.
#[verifier::external_body]
fn blake2b96(input: &[u8]) -> (r: Vec<u8>)
    ensures
        r@ == blake2b96_of(input@),
        r@.len() == 12,
{
    let mut hasher: blake2::Blake2b<blake2::digest::consts::U12> = blake2::Blake2b::new();
    hasher.update(input);
    hasher.finalize().to_vec()
}

/// Relies on base64's `URL_SAFE_NO_PAD` engine: the encoding is a function
/// of the input bytes alone, four characters for every three bytes with an
/// unpadded remainder of two or three, drawn from the URL-safe alphabet
/// `A-Z a-z 0-9 - _`, which is ASCII.
#[verifier::external_body]
fn b64url_encode(bytes: &[u8]) -> (r: String)
    requires
        bytes@.len() <= usize::MAX / 4,
    ensures
        r@ == b64url_encode_of(bytes@),
        r@.len() == (bytes@.len() * 4 + 2) / 3,
        forall|i: int| 0 <= i < r@.len() ==> is_b64url_char(#[trigger] r@[i]),
        vstd::utf8::is_ascii_chars(r@),
{
    base64::engine::general_purpose::URL_SAFE_NO_PAD.encode(bytes)
}

/// Relies on base64's `URL_SAFE_NO_PAD` engine: decoding is a function of
/// the input characters alone, succeeding exactly on valid unpadded
/// URL-safe base64.
#[verifier::external_body]
fn b64url_decode(s: &str) -> (r: Option<Vec<u8>>)
    ensures
        match r {
            Some(v) => b64url_decode_of(s@) == Some(v@),
            None => b64url_decode_of(s@) is None,
        },
{
    base64::engine::general_purpose::URL_SAFE_NO_PAD.decode(s).ok()
}

/// Relies on rand's `OsRng::fill_bytes`: fills a buffer of the requested
/// length from the operating system's randomness source. Nothing is
/// assumed about the values.
#[verifier::external_body]
fn random_bytes(len: usize) -> (r: Vec<u8>)
    ensures
        r@.len() == len,
{
    let mut buf = vec![0u8; len];
    rand::rngs::OsRng.fill_bytes(&mut buf);
    buf
}

/// A fresh URL-safe base64 string over `length` random bytes. Its length
/// is determined; its characters are random draws from the base64
/// alphabet.
pub fn gen_random_b64_string(length: usize) -> (r: String)
    requires
        length <= usize::MAX / 4,
    ensures
        r@.len() == (length * 4 + 2) / 3,
        forall|i: int| 0 <= i < r@.len() ==> is_b64url_char(#[trigger] r@[i]),
        vstd::utf8::is_ascii_chars(r@),
{
    let bytes = random_bytes(length);
    b64url_encode(bytes.as_slice())
}

/// Appends all bytes of a slice.
fn push_bytes(out: &mut Vec<u8>, bytes: &[u8])
    ensures
        final(out)@ == old(out)@ + bytes@,
{
    let mut i: usize = 0;
    while i < bytes.len()
        invariant
            0 <= i <= bytes@.len(),
            out@ == old(out)@ + bytes@.subrange(0, i as int),
        decreases bytes@.len() - i,
    {
        let b = *slice_index_get(bytes, i);
        out.push(b);
        i = i + 1;
        proof {
            assert(bytes@.subrange(0, i as int) =~= bytes@.subrange(0, i - 1).push(
                bytes@[i - 1],
            ));
            assert(out@ =~= old(out)@ + bytes@.subrange(0, i as int));
        }
    }
    proof {
        assert(bytes@.subrange(0, bytes@.len() as int) =~= bytes@);
    }
}

/// The pseudonymous voter hash: the URL-safe base64 text of a 12-byte
/// keyed digest over subject, decoded voter salt and backend salt.
pub open spec fn user_hash_of(
    subject: Seq<char>,
    salt_bytes: Seq<u8>,
    backend_salt: Seq<u8>,
) -> Seq<char> {
    b64url_encode_of(blake2b96_of(vstd::utf8::encode_utf8(subject) + salt_bytes + backend_salt))
}

/// Derives the pseudonymous user hash for one voter: 16 URL-safe base64
/// characters, the same for the same inputs. Fails exactly when the
/// voter's salt is not valid URL-safe base64, and then with a bad-request
/// error.
pub fn hash_user_id(user_id: &str, user_salt: &str, backend_salt_bytes: &[u8]) -> (r: AppResult<
    String,
>)
    ensures
        r is Ok <==> b64url_decode_of(user_salt@) is Some,
        r is Ok ==> {
            let h = r->Ok_0;
            &&& h@ == user_hash_of(
                user_id@,
                b64url_decode_of(user_salt@)->Some_0,
                backend_salt_bytes@,
            )
            &&& h@.len() == 16
            &&& forall|i: int| 0 <= i < h@.len() ==> is_b64url_char(#[trigger] h@[i])
            &&& vstd::utf8::is_ascii_chars(h@)
        },
        r is Err ==> r->Err_0.is_bad_request(),
{
    match b64url_decode(user_salt) {
        None => Err(
            AppError::BadRequest {
                title: String::from_str("Base64 decoding error"),
                message: String::from_str("voter salt is not valid URL-safe base64"),
            },
        ),
        Some(salt) => {
            let mut input: Vec<u8> = Vec::new();
            push_bytes(&mut input, user_id.as_bytes());
            push_bytes(&mut input, salt.as_slice());
            push_bytes(&mut input, backend_salt_bytes);
            proof {
                assert(input@ =~= vstd::utf8::encode_utf8(user_id@) + salt@
                    + backend_salt_bytes@);
            }
            let digest = blake2b96(input.as_slice());
            let encoded = b64url_encode(digest.as_slice());
            Ok(encoded)
        },
    }
}

/// Decodes the configured backend salt, which must be exactly 8 bytes of
/// URL-safe base64; anything else fails startup.
pub fn decode_backend_salt(s: &str) -> (r: AppResult<Vec<u8>>)
    ensures
        r is Ok <==> (b64url_decode_of(s@) is Some && b64url_decode_of(s@)->Some_0.len() == 8),
        r is Ok ==> r->Ok_0@ == b64url_decode_of(s@)->Some_0,
{
    match b64url_decode(s) {
        None => Err(
            AppError::InternalError {
                title: String::from_str("Invalid backend salt"),
                message: String::from_str("the backend salt is not valid URL-safe base64"),
            },
        ),
        Some(bytes) => {
            if bytes.len() != 8 {
                Err(
                    AppError::InternalError {
                        title: String::from_str("Invalid backend salt"),
                        message: String::from_str("the backend salt must be 8 bytes long"),
                    },
                )
            } else {
                Ok(bytes)
            }
        },
    }
}

/// Checks the choice configuration: every key nonempty ASCII, and the
/// identifying first bytes pairwise distinct. Startup proceeds only when
/// this holds.
pub fn validate_unique_choice_keys(choices: &[Choice]) -> (r: bool)
    ensures
        r == crate::counting::wf_choices(choices@),
{
    let mut seen: HashSet<u8> = HashSet::new();
    let mut i: usize = 0;
    while i < choices.len()
        invariant
            0 <= i <= choices@.len(),
            forall|j: int| 0 <= j < i ==> (#[trigger] choices@[j]).wf(),
            forall|p: int, q: int|
                0 <= p < q < i ==> (#[trigger] choices@[p]).key_byte() != (
                #[trigger] choices@[q]).key_byte(),
            forall|b: u8| #[trigger]
                seen@.contains(b) <==> exists|j: int|
                    0 <= j < i && (#[trigger] choices@[j]).key_byte() == b,
        decreases choices@.len() - i,
    {
        let c = slice_index_get(choices, i);
        if !c.key.as_str().is_ascii() {
            proof {
                assert(!(#[trigger] choices@[i as int]).wf());
                assert(!crate::counting::wf_choices(choices@));
            }
            return false;
        }
        if c.key.as_str().is_empty() {
            proof {
                assert(c.key@.len() == 0);
                assert(!(#[trigger] choices@[i as int]).wf());
                assert(!crate::counting::wf_choices(choices@));
            }
            return false;
        }
        let b = c.key_u8();
        let newly = seen.insert(b);
        if !newly {
            proof {
                let j = choose|j: int|
                    0 <= j < i && (#[trigger] choices@[j]).key_byte() == b;
                assert(choices@[j].key_byte() == choices@[i as int].key_byte());
                assert(j < (i as int));
                assert((i as int) < choices@.len());
                assert(!crate::counting::wf_choices(choices@));
            }
            return false;
        }
        i = i + 1;
    }
    true
}

} // verus!
