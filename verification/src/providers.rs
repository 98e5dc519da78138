//! Integrity providers and other outside services, behind trusted wrappers.
//!
//! The digest and signature results are named by uninterpreted spec
//! functions: the same bytes always give the same digest and the same
//! signature, which is all the reconciliation logic needs. Everything that
//! depends on chance, the clock, or the machine promises nothing beyond its
//! shape.

use vstd::prelude::*;
use vstd::string::StrSliceExecFns;
use vstd::string::StringExecFns;
use vstd::utf8::{decode_utf8, encode_utf8, valid_utf8};
use base64::Engine;

verus! {

// ---------------------------------------------------------------------------
// Named results of outside computations
// ---------------------------------------------------------------------------

/// The SHA-256 digest of a byte sequence.
pub uninterp spec fn sha256_of(data: Seq<u8>) -> Seq<u8>;

/// The Ed25519 signature of a message under a 32-byte secret key.
pub uninterp spec fn ed25519_sign_of(key: Seq<u8>, msg: Seq<u8>) -> Seq<u8>;

/// The standard base64 text of a byte sequence.
pub uninterp spec fn b64_of(data: Seq<u8>) -> Seq<char>;

// ---------------------------------------------------------------------------
// Trusted wrappers
// ---------------------------------------------------------------------------

/// Relies on crypto::hashes::sha::SHA256: a deterministic 32-byte digest of
/// the input.
#[verifier::external_body]
fn sha256_digest(data: &Vec<u8>) -> (r: Vec<u8>)
    ensures
        r@ == sha256_of(data@),
        r@.len() == 32,
{
    let mut out = [0u8; 32];
    crypto::hashes::sha::SHA256(data.as_slice(), &mut out);
    out.to_vec()
}

/// Relies on crypto::signatures::ed25519::SecretKey::sign: deterministic
/// RFC 8032 signing, producing a 64-byte signature.
#[verifier::external_body]
fn ed25519_sign(key: &Vec<u8>, msg: &Vec<u8>) -> (r: Vec<u8>)
    requires
        key@.len() == 32,
    ensures
        r@ == ed25519_sign_of(key@, msg@),
        r@.len() == 64,
{
    let mut key_bytes = [0u8; 32];
    key_bytes.copy_from_slice(key.as_slice());
    let sk = crypto::signatures::ed25519::SecretKey::from_bytes(&key_bytes);
    sk.sign(msg.as_slice()).to_bytes().to_vec()
}

/// Relies on gethostname::gethostname; the result depends on the machine, so
/// nothing is promised about it.
#[verifier::external_body]
pub(crate) fn hostname() -> (r: Option<String>)
{
    gethostname::gethostname().into_string().ok()
}

/// Relies on chrono::Utc::now; the result depends on the clock, so nothing
/// is promised about it.
#[verifier::external_body]
pub(crate) fn now_millis() -> (r: i64)
{
    chrono::Utc::now().timestamp_millis()
}

/// Relies on rand::random_range over `0..n`, which panics only on an empty
/// range and otherwise stays inside it.
#[verifier::external_body]
pub(crate) fn rand_below(n: u32) -> (r: u32)
    requires
        n > 0,
    ensures
        r < n,
{
    rand::random_range(0..n)
}

/// Relies on base64's STANDARD engine encode: deterministic base64 text of
/// the input bytes.
#[verifier::external_body]
fn b64_encode(data: &Vec<u8>) -> (r: String)
    ensures
        r@ == b64_of(data@),
{
    base64::engine::general_purpose::STANDARD.encode(data.as_slice())
}

/// Relies on base64's STANDARD engine decode: it inverts encode, so a text
/// that is the encoding of some bytes decodes to exactly those bytes.
#[verifier::external_body]
pub(crate) fn b64_decode(s: &str) -> (r: Option<Vec<u8>>)
    ensures
        forall|x: Seq<u8>| s@ == b64_of(x) ==> r is Some && r->0@ == x,
{
    base64::engine::general_purpose::STANDARD.decode(s).ok()
}

/// Relies on String::from_utf8: it succeeds exactly on valid UTF-8 and
/// returns its decoding.
#[verifier::external_body]
pub(crate) fn bytes_to_string(data: Vec<u8>) -> (r: Option<String>)
    ensures
        match r {
            Some(s) => valid_utf8(data@) && s@ == decode_utf8(data@),
            None => !valid_utf8(data@),
        },
{
    String::from_utf8(data).ok()
}

// ---------------------------------------------------------------------------
// Hex encoding (verified)
// ---------------------------------------------------------------------------

pub open spec fn hex_char(n: nat) -> char {
    if n == 0 {
        '0'
    } else if n == 1 {
        '1'
    } else if n == 2 {
        '2'
    } else if n == 3 {
        '3'
    } else if n == 4 {
        '4'
    } else if n == 5 {
        '5'
    } else if n == 6 {
        '6'
    } else if n == 7 {
        '7'
    } else if n == 8 {
        '8'
    } else if n == 9 {
        '9'
    } else if n == 10 {
        'a'
    } else if n == 11 {
        'b'
    } else if n == 12 {
        'c'
    } else if n == 13 {
        'd'
    } else if n == 14 {
        'e'
    } else {
        'f'
    }
}

pub open spec fn hex_of_byte(b: u8) -> Seq<char> {
    seq![hex_char(b as nat / 16), hex_char(b as nat % 16)]
}

/// Lowercase hex text of a byte sequence, two digits per byte.
pub open spec fn hex_of(data: Seq<u8>) -> Seq<char>
    decreases data.len(),
{
    if data.len() == 0 {
        Seq::empty()
    } else {
        hex_of_byte(data[0]) + hex_of(data.drop_first())
    }
}

pub proof fn lemma_hex_push(data: Seq<u8>, b: u8)
    ensures
        hex_of(data.push(b)) == hex_of(data) + hex_of_byte(b),
    decreases data.len(),
{
    if data.len() == 0 {
        assert(data.push(b)[0] == b);
        assert(data.push(b).drop_first() =~= data);
        assert(hex_of(data) =~= Seq::<char>::empty());
        assert(hex_of(data.push(b)) =~= hex_of(data) + hex_of_byte(b));
    } else {
        assert(data.push(b)[0] == data[0]);
        assert(data.push(b).drop_first() =~= data.drop_first().push(b));
        lemma_hex_push(data.drop_first(), b);
        assert(hex_of(data.push(b)) == hex_of_byte(data[0]) + hex_of(data.drop_first().push(b)));
        assert(hex_of(data.push(b)) =~= hex_of(data) + hex_of_byte(b));
    }
}

fn hex_digit_str(d: u8) -> (r: &'static str)
    requires
        d < 16,
    ensures
        r@ == seq![hex_char(d as nat)],
{
    let r = if d == 0 {
        "0"
    } else if d == 1 {
        "1"
    } else if d == 2 {
        "2"
    } else if d == 3 {
        "3"
    } else if d == 4 {
        "4"
    } else if d == 5 {
        "5"
    } else if d == 6 {
        "6"
    } else if d == 7 {
        "7"
    } else if d == 8 {
        "8"
    } else if d == 9 {
        "9"
    } else if d == 10 {
        "a"
    } else if d == 11 {
        "b"
    } else if d == 12 {
        "c"
    } else if d == 13 {
        "d"
    } else if d == 14 {
        "e"
    } else {
        "f"
    };
    proof {
        reveal_strlit("0");
        reveal_strlit("1");
        reveal_strlit("2");
        reveal_strlit("3");
        reveal_strlit("4");
        reveal_strlit("5");
        reveal_strlit("6");
        reveal_strlit("7");
        reveal_strlit("8");
        reveal_strlit("9");
        reveal_strlit("a");
        reveal_strlit("b");
        reveal_strlit("c");
        reveal_strlit("d");
        reveal_strlit("e");
        reveal_strlit("f");
        assert(r@ =~= seq![hex_char(d as nat)]);
    }
    r
}

pub fn hex_encode(data: &Vec<u8>) -> (r: String)
    ensures
        r@ == hex_of(data@),
{
    let mut out = String::new();
    let n = data.len();
    let mut k: usize = 0;
    proof {
        assert(hex_of(data@.subrange(0, 0)) =~= Seq::<char>::empty());
    }
    while k < n
        invariant
            k <= n,
            n == data@.len(),
            out@ == hex_of(data@.subrange(0, k as int)),
        decreases n - k,
    {
        let b = data[k];
        out.append(hex_digit_str(b / 16));
        out.append(hex_digit_str(b % 16));
        proof {
            assert(data@.subrange(0, k + 1) =~= data@.subrange(0, k as int).push(data@[k as int]));
            lemma_hex_push(data@.subrange(0, k as int), data@[k as int]);
            assert(out@ =~= hex_of(data@.subrange(0, k + 1)));
        }
        k += 1;
    }
    proof {
        assert(data@.subrange(0, n as int) =~= data@);
    }
    out
}

// ---------------------------------------------------------------------------
// Derived operations the components build on
// ---------------------------------------------------------------------------

/// The content key of a canonical text: lowercase hex of its SHA-256 digest,
/// taken over the UTF-8 bytes.
pub open spec fn key_of(s: Seq<char>) -> Seq<char> {
    hex_of(sha256_of(encode_utf8(s)))
}

/// Derive the content key of a text.
pub fn derive_key(data: &str) -> (r: String)
    ensures
        r@ == key_of(data@),
{
    let bytes = data.as_bytes_vec();
    let digest = sha256_digest(&bytes);
    hex_encode(&digest)
}

/// The hex signature text over a canonical message under a key.
pub open spec fn signature_hex_of(key: Seq<u8>, msg: Seq<char>) -> Seq<char> {
    hex_of(ed25519_sign_of(key, encode_utf8(msg)))
}

/// Sign a canonical text and return the signature as hex.
pub fn sign_hex(key: &Vec<u8>, msg: &str) -> (r: String)
    requires
        key@.len() == 32,
    ensures
        r@ == signature_hex_of(key@, msg@),
{
    let bytes = msg.as_bytes_vec();
    let sig = ed25519_sign(key, &bytes);
    hex_encode(&sig)
}

/// The base64 text of a canonical text's UTF-8 bytes.
pub open spec fn b64_of_chars(s: Seq<char>) -> Seq<char> {
    b64_of(encode_utf8(s))
}

/// Encode a text's UTF-8 bytes as base64.
pub fn b64_encode_str(s: &str) -> (r: String)
    ensures
        r@ == b64_of_chars(s@),
{
    let bytes = s.as_bytes_vec();
    b64_encode(&bytes)
}

/// Decode base64 text and read the bytes back as UTF-8 text. Inverts
/// `b64_encode_str`; on text that is no base64 encoding of valid UTF-8 the
/// result is unspecified beyond being `None` or some decoded text.
pub fn b64_decode_str(s: &str) -> (r: Option<String>)
    ensures
        forall|t: Seq<char>| s@ == b64_of_chars(t) ==> r is Some && r->0@ == t,
{
    match b64_decode(s) {
        Some(bytes) => {
            let ghost bv = bytes@;
            let text = bytes_to_string(bytes);
            proof {
                assert forall|t: Seq<char>| s@ == b64_of_chars(t) implies text is Some
                    && text->0@ == t by {
                    assert(s@ == b64_of(encode_utf8(t)));
                    assert(bv == encode_utf8(t));
                    vstd::utf8::encode_utf8_valid_utf8(t);
                    vstd::utf8::encode_utf8_decode_utf8(t);
                }
            }
            text
        },
        None => {
            proof {
                assert forall|t: Seq<char>| !(s@ == b64_of_chars(t)) by {
                    assert(s@ != b64_of(encode_utf8(t)));
                }
            }
            None
        },
    }
}

} // verus!
