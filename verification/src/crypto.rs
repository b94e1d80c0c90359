//! Trusted boundary to the cryptographic crates.
//!
//! Each function here wraps exactly one outside call. Digest and cipher
//! outputs are functions of their inputs alone and are therefore given
//! uninterpreted names; random values get no name, only a length.

use vstd::prelude::*;
use base64::Engine;
use aes_gcm::KeyInit;
use aes_gcm::aead::{Aead, Payload};

verus! {

/// The 32-byte BLAKE3 digest of a byte sequence.
pub uninterp spec fn b3(data: Seq<u8>) -> Seq<u8>;

/// The 32-byte keyed BLAKE3 digest of a byte sequence under a 32-byte key.
pub uninterp spec fn b3k(key: Seq<u8>, data: Seq<u8>) -> Seq<u8>;

/// Relies on `blake3::hash`: a 32-byte digest that depends on the input
/// bytes alone.
#[verifier::external_body]
pub fn blake3_hash(data: &Vec<u8>) -> (r: Vec<u8>)
    ensures
        r@ == b3(data@),
        r@.len() == 32,
{
    blake3::hash(data.as_slice()).as_bytes().to_vec()
}

/// Relies on `blake3::Hasher::new_keyed` + `update` + `finalize`: a 32-byte
/// keyed digest that depends on the key and input bytes alone.
#[verifier::external_body]
pub fn blake3_keyed(key: &Vec<u8>, data: &Vec<u8>) -> (r: Vec<u8>)
    requires
        key@.len() == 32,
    ensures
        r@ == b3k(key@, data@),
        r@.len() == 32,
{
    let mut key_arr = [0u8; 32];
    key_arr.copy_from_slice(key.as_slice());
    let mut hasher = blake3::Hasher::new_keyed(&key_arr);
    hasher.update(data.as_slice());
    hasher.finalize().as_bytes().to_vec()
}

/// Character of one six-bit group in the URL-safe base64 alphabet.
pub open spec fn b64_char(v: int) -> char {
    if v < 26 {
        ((65 + v) as u8) as char
    } else if v < 52 {
        ((97 + (v - 26)) as u8) as char
    } else if v < 62 {
        ((48 + (v - 52)) as u8) as char
    } else if v == 62 {
        '-'
    } else {
        '_'
    }
}

/// URL-safe unpadded base64 text of a byte sequence.
pub open spec fn b64url(bytes: Seq<u8>) -> Seq<char>
    decreases bytes.len(),
{
    if bytes.len() == 0 {
        Seq::<char>::empty()
    } else if bytes.len() == 1 {
        let b0 = bytes[0] as int;
        seq![b64_char(b0 / 4), b64_char((b0 % 4) * 16)]
    } else if bytes.len() == 2 {
        let b0 = bytes[0] as int;
        let b1 = bytes[1] as int;
        seq![b64_char(b0 / 4), b64_char((b0 % 4) * 16 + b1 / 16), b64_char((b1 % 16) * 4)]
    } else {
        let b0 = bytes[0] as int;
        let b1 = bytes[1] as int;
        let b2 = bytes[2] as int;
        seq![
            b64_char(b0 / 4),
            b64_char((b0 % 4) * 16 + b1 / 16),
            b64_char((b1 % 16) * 4 + b2 / 64),
            b64_char(b2 % 64),
        ] + b64url(bytes.skip(3))
    }
}

/// Relies on `base64::engine::general_purpose::URL_SAFE_NO_PAD` and
/// `Engine::encode`: the RFC 4648 URL-safe unpadded encoding of the input.
#[verifier::external_body]
pub fn b64url_encode(bytes: &Vec<u8>) -> (r: String)
    ensures
        r@ == b64url(bytes@),
{
    base64::engine::general_purpose::URL_SAFE_NO_PAD.encode(bytes.as_slice())
}

/// Relies on `Engine::decode` with the same engine: with no padding allowed
/// and trailing bits rejected, it accepts exactly the canonical encodings
/// and inverts `encode`.
#[verifier::external_body]
pub fn b64url_decode(text: &str) -> (r: Option<Vec<u8>>)
    ensures
        r matches Some(v) ==> text@ == b64url(v@),
        r is None ==> forall|d: Seq<u8>| text@ != b64url(d),
{
    match base64::engine::general_purpose::URL_SAFE_NO_PAD.decode(text.as_bytes()) {
        Ok(v) => Some(v),
        Err(_) => None,
    }
}

pub open spec fn is_uuid_char(c: char) -> bool {
    c == '-' || ('0' <= c && c <= '9') || ('a' <= c && c <= 'f')
}

/// Relies on `uuid::Uuid::new_v4` and its hyphenated `Display` form: 36
/// characters of lower-case hex digits and hyphens. The value is random, so
/// nothing more is assumed of it.
#[verifier::external_body]
pub fn fresh_uuid() -> (r: String)
    ensures
        r@.len() == 36,
        forall|i: int| 0 <= i < r@.len() ==> is_uuid_char(#[trigger] r@[i]),
{
    uuid::Uuid::new_v4().to_string()
}

/// Relies on `rand::fill`: twelve bytes from the thread's generator. The
/// values are random, so only the length is assumed.
#[verifier::external_body]
pub fn random_nonce12() -> (r: Vec<u8>)
    ensures
        r@.len() == 12,
{
    let mut buf = [0u8; 12];
    rand::fill(&mut buf);
    buf.to_vec()
}

/// Relies on `rand::fill`: thirty-two bytes from the thread's generator.
/// The values are random, so only the length is assumed.
#[verifier::external_body]
pub fn random_key32() -> (r: Vec<u8>)
    ensures
        r@.len() == 32,
{
    let mut buf = [0u8; 32];
    rand::fill(&mut buf);
    buf.to_vec()
}

/// AES-256-GCM ciphertext: a function of key, nonce, associated data and
/// plaintext, with the plaintext's length.
pub uninterp spec fn aes_ct(key: Seq<u8>, nonce: Seq<u8>, aad: Seq<u8>, pt: Seq<u8>) -> Seq<u8>;

/// AES-256-GCM authentication tag for the same inputs.
pub uninterp spec fn aes_tag(key: Seq<u8>, nonce: Seq<u8>, aad: Seq<u8>, pt: Seq<u8>) -> Seq<u8>;

/// Relies on `aes_gcm::Aes256Gcm` via `aead::Aead::encrypt`: deterministic
/// in its inputs, the result is the ciphertext (same length as the
/// plaintext) followed by the 16-byte tag, and encryption succeeds within
/// the GCM length limits.
#[verifier::external_body]
pub fn aes256_seal(key: &Vec<u8>, nonce: &Vec<u8>, aad: &Vec<u8>, pt: &Vec<u8>) -> (r: Vec<u8>)
    requires
        key@.len() == 32,
        nonce@.len() == 12,
        aad@.len() < 0x100000000,
        pt@.len() < 0x100000000,
    ensures
        r@.len() == pt@.len() + 16,
        r@.take(pt@.len() as int) == aes_ct(key@, nonce@, aad@, pt@),
        r@.skip(pt@.len() as int) == aes_tag(key@, nonce@, aad@, pt@),
{
    let cipher = aes_gcm::Aes256Gcm::new_from_slice(key.as_slice()).expect("32-byte key");
    let nonce_arr: &aes_gcm::Nonce<aes_gcm::aead::consts::U12> =
        nonce.as_slice().try_into().expect("12-byte nonce");
    cipher
        .encrypt(nonce_arr, Payload { msg: pt.as_slice(), aad: aad.as_slice() })
        .expect("within GCM length limits")
}

/// Relies on the same cipher via `aead::Aead::decrypt`: opening a sealed
/// ciphertext-plus-tag under the sealing key, nonce and associated data
/// returns the sealed plaintext, and a successful open means the input is
/// the seal of what came back (decryption recomputes and checks the tag,
/// and the counter-mode keystream makes sealing that plaintext reproduce
/// the ciphertext).
#[verifier::external_body]
pub fn aes256_open(key: &Vec<u8>, nonce: &Vec<u8>, aad: &Vec<u8>, ct_and_tag: &Vec<u8>) -> (r:
    Option<Vec<u8>>)
    requires
        key@.len() == 32,
        nonce@.len() == 12,
    ensures
        r is None ==> forall|pt: Seq<u8>|
            ct_and_tag@ != aes_ct(key@, nonce@, aad@, pt) + aes_tag(key@, nonce@, aad@, pt),
        r matches Some(v) ==> forall|pt: Seq<u8>|
            ct_and_tag@ == aes_ct(key@, nonce@, aad@, pt) + aes_tag(key@, nonce@, aad@, pt)
                ==> v@ == pt,
        r matches Some(v) ==> ct_and_tag@ == aes_ct(key@, nonce@, aad@, v@) + aes_tag(
            key@,
            nonce@,
            aad@,
            v@,
        ),
{
    let cipher = match aes_gcm::Aes256Gcm::new_from_slice(key.as_slice()) {
        Ok(c) => c,
        Err(_) => return None,
    };
    let nonce_arr: &aes_gcm::Nonce<aes_gcm::aead::consts::U12> = match nonce.as_slice().try_into()
    {
        Ok(n) => n,
        Err(_) => return None,
    };
    match cipher.decrypt(nonce_arr, Payload { msg: ct_and_tag.as_slice(), aad: aad.as_slice() }) {
        Ok(v) => Some(v),
        Err(_) => None,
    }
}


proof fn lemma_b64_char_inj(x: int, y: int)
    requires
        0 <= x < 64,
        0 <= y < 64,
        b64_char(x) == b64_char(y),
    ensures
        x == y,
{
    assert('-' as u32 == 45 && '_' as u32 == 95);
    assert forall|v: int| 0 <= v < 64 implies (b64_char(v) as u32) == (if v < 26 {
        65 + v
    } else if v < 52 {
        97 + (v - 26)
    } else if v < 62 {
        48 + (v - 52)
    } else if v == 62 {
        45int
    } else {
        95int
    }) by {}
}

/// The length of the encoding determines the length of the bytes.
proof fn lemma_b64url_len(bytes: Seq<u8>)
    ensures
        b64url(bytes).len() == (bytes.len() / 3) * 4 + (if bytes.len() % 3 == 0 {
            0int
        } else if bytes.len() % 3 == 1 {
            2int
        } else {
            3int
        }),
    decreases bytes.len(),
{
    if bytes.len() >= 3 {
        lemma_b64url_len(bytes.skip(3));
        assert(bytes.skip(3).len() == bytes.len() - 3);
    }
}

/// The URL-safe base64 text determines the bytes: the encoding is injective.
pub proof fn lemma_b64url_injective(a: Seq<u8>, b: Seq<u8>)
    requires
        b64url(a) == b64url(b),
    ensures
        a == b,
    decreases a.len(),
{
    lemma_b64url_len(a);
    lemma_b64url_len(b);
    let ea = b64url(a);
    let eb = b64url(b);
    if a.len() == 0 {
        assert(b.len() == 0) by {
            if b.len() > 0 {
                assert(eb.len() >= 2);
            }
        }
        assert(a =~= b);
    } else if a.len() == 1 {
        assert(b.len() == 1);
        let a0 = a[0] as int;
        let b0 = b[0] as int;
        assert(ea[0] == eb[0] && ea[1] == eb[1]);
        lemma_b64_char_inj(a0 / 4, b0 / 4);
        lemma_b64_char_inj((a0 % 4) * 16, (b0 % 4) * 16);
        assert(a0 == b0);
        assert(a =~= b);
    } else if a.len() == 2 {
        assert(b.len() == 2);
        let a0 = a[0] as int;
        let a1 = a[1] as int;
        let b0 = b[0] as int;
        let b1 = b[1] as int;
        assert(ea[0] == eb[0] && ea[1] == eb[1] && ea[2] == eb[2]);
        lemma_b64_char_inj(a0 / 4, b0 / 4);
        lemma_b64_char_inj((a0 % 4) * 16 + a1 / 16, (b0 % 4) * 16 + b1 / 16);
        lemma_b64_char_inj((a1 % 16) * 4, (b1 % 16) * 4);
        assert(a0 % 4 == b0 % 4 && a1 / 16 == b1 / 16) by {
            assert((a0 % 4) * 16 + a1 / 16 == (b0 % 4) * 16 + b1 / 16);
            assert(a1 / 16 < 16 && b1 / 16 < 16);
        }
        assert(a0 == b0 && a1 == b1);
        assert(a =~= b);
    } else {
        assert(b.len() >= 3) by {
            if b.len() < 3 {
                assert(eb.len() <= 3);
                assert(ea.len() >= 4);
            }
        }
        let a0 = a[0] as int;
        let a1 = a[1] as int;
        let a2 = a[2] as int;
        let b0 = b[0] as int;
        let b1 = b[1] as int;
        let b2 = b[2] as int;
        assert(ea[0] == eb[0] && ea[1] == eb[1] && ea[2] == eb[2] && ea[3] == eb[3]);
        lemma_b64_char_inj(a0 / 4, b0 / 4);
        lemma_b64_char_inj((a0 % 4) * 16 + a1 / 16, (b0 % 4) * 16 + b1 / 16);
        lemma_b64_char_inj((a1 % 16) * 4 + a2 / 64, (b1 % 16) * 4 + b2 / 64);
        lemma_b64_char_inj(a2 % 64, b2 % 64);
        assert(a0 % 4 == b0 % 4 && a1 / 16 == b1 / 16) by {
            assert(a1 / 16 < 16 && b1 / 16 < 16);
        }
        assert(a1 % 16 == b1 % 16 && a2 / 64 == b2 / 64) by {
            assert(a2 / 64 < 4 && b2 / 64 < 4);
        }
        assert(a0 == b0 && a1 == b1 && a2 == b2);
        assert(b64url(a.skip(3)) =~= b64url(b.skip(3))) by {
            assert forall|k: int| 0 <= k < b64url(a.skip(3)).len() implies b64url(a.skip(3))[k]
                == b64url(b.skip(3))[k] by {
                assert(ea[4 + k] == b64url(a.skip(3))[k]);
                assert(eb[4 + k] == b64url(b.skip(3))[k]);
            }
            lemma_b64url_len(a.skip(3));
            lemma_b64url_len(b.skip(3));
        }
        lemma_b64url_injective(a.skip(3), b.skip(3));
        assert(a =~= b) by {
            assert forall|k: int| 0 <= k < a.len() implies a[k] == b[k] by {
                if k >= 3 {
                    assert(a.skip(3)[k - 3] == b.skip(3)[k - 3]);
                }
            }
        }
    }
}

} // verus!
