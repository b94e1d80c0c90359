//! The encrypted vector store: AEAD-sealed records with key-id-tagged
//! envelopes, AAD binding, rotation-tolerant reads and a replay sequence
//! floor. The in-memory backend lives here; a filesystem backend can wrap
//! the same seal and open paths. The cipher is fixed to AES-256-GCM: the
//! [`AesGcmEncrypter`] marker stands where a pluggable encrypter trait
//! would, and alternative storage backends speak through the public
//! byte-level interface rather than a store trait.

use vstd::prelude::*;
use crate::crypto::{aes_ct, aes_tag, aes256_open, aes256_seal, random_nonce12};
use crate::kms::{InMemoryKeyManager, KeyHandle, KeyManager, KeyScope, lookup_key};
use crate::ledger::{EntryModel, ReplayEntry};
use crate::numfmt::{dec_of, push_dec};
use crate::strutil::{
    bytes_eq, bytes_subrange, bytes_to_string, chars_to_string, push_str_chars, str_eq,
    string_to_bytes,
};
use crate::wire::{be16, push_be16, read_be16};
use vstd::utf8::encode_utf8;
use vstd::string::StringExecFns;

verus! {

/// Errors surfaced by store operations.
#[derive(Debug)]
pub enum StoreError {
    Io { detail: String },
    Integrity { detail: String },
    Encryption { detail: String },
    Key { detail: String },
}

/// Counters reported by a replay pass.
#[derive(Debug)]
pub struct ReplayStats {
    pub applied: usize,
    pub skipped: usize,
    pub max_sequence: Option<u64>,
}

/// The sealed envelope layout: magic, key id length and bytes, nonce, tag,
/// ciphertext.
pub open spec fn envelope_bytes(kid: Seq<u8>, nonce: Seq<u8>, tag: Seq<u8>, ct: Seq<u8>) -> Seq<
    u8,
> {
    seq![69u8, 86u8, 71u8, 49u8] + be16(kid.len() as int) + kid + nonce + tag + ct
}

/// The additional authenticated data binding repo, key id and record key.
pub open spec fn aad_bytes(repo: Seq<char>, kid: Seq<char>, rec: Seq<char>) -> Seq<u8> {
    be16(encode_utf8(repo).len() as int) + encode_utf8(repo) + be16(encode_utf8(kid).len() as int)
        + encode_utf8(kid) + be16(encode_utf8(rec).len() as int) + encode_utf8(rec)
}

/// Build the AAD for one record.
pub fn build_aad(repo_id: &String, key_id: &String, record_key: &String) -> (r: Vec<u8>)
    requires
        encode_utf8(repo_id@).len() < 0x10000,
        encode_utf8(key_id@).len() < 0x10000,
        encode_utf8(record_key@).len() < 0x10000,
    ensures
        r@ == aad_bytes(repo_id@, key_id@, record_key@),
{
    let mut out: Vec<u8> = Vec::new();
    let mut repo = string_to_bytes(repo_id);
    push_be16(repo.len() as u16, &mut out);
    out.append(&mut repo);
    let mut kid = string_to_bytes(key_id);
    push_be16(kid.len() as u16, &mut out);
    out.append(&mut kid);
    let mut rec = string_to_bytes(record_key);
    push_be16(rec.len() as u16, &mut out);
    out.append(&mut rec);
    proof {
        assert(out@ =~= aad_bytes(repo_id@, key_id@, record_key@));
    }
    out
}

/// Encode a sealed record into its envelope.
pub fn encode_envelope(key_id: &String, nonce: &Vec<u8>, tag: &Vec<u8>, ct: &Vec<u8>) -> (r: Vec<
    u8,
>)
    requires
        encode_utf8(key_id@).len() < 0x10000,
    ensures
        r@ == envelope_bytes(encode_utf8(key_id@), nonce@, tag@, ct@),
{
    let mut out: Vec<u8> = Vec::new();
    out.push(69);
    out.push(86);
    out.push(71);
    out.push(49);
    let mut kid = string_to_bytes(key_id);
    push_be16(kid.len() as u16, &mut out);
    out.append(&mut kid);
    let mut nonce2 = bytes_subrange(nonce, 0, nonce.len());
    out.append(&mut nonce2);
    let mut tag2 = bytes_subrange(tag, 0, tag.len());
    out.append(&mut tag2);
    let mut ct2 = bytes_subrange(ct, 0, ct.len());
    out.append(&mut ct2);
    proof {
        assert(nonce@.subrange(0, nonce@.len() as int) =~= nonce@);
        assert(tag@.subrange(0, tag@.len() as int) =~= tag@);
        assert(ct@.subrange(0, ct@.len() as int) =~= ct@);
        assert(out@ =~= envelope_bytes(encode_utf8(key_id@), nonce@, tag@, ct@));
    }
    out
}

/// Whether bytes begin with the envelope magic and a readable key id.
pub open spec fn has_envelope_header(b: Seq<u8>) -> bool {
    &&& b.len() >= 6
    &&& b.subrange(0, 4) == seq![69u8, 86u8, 71u8, 49u8]
    &&& 6 + (b[4] as int * 256 + b[5] as int) <= b.len()
    &&& vstd::utf8::valid_utf8(b.subrange(6, 6 + (b[4] as int * 256 + b[5] as int)))
}

/// Read the key id out of an envelope without opening it.
#[verifier::rlimit(60)]
pub fn peek_key_id(b: &Vec<u8>) -> (r: Option<String>)
    ensures
        match r {
            Some(kid) => has_envelope_header(b@) && encode_utf8(kid@) == b@.subrange(
                6,
                6 + (b@[4] as int * 256 + b@[5] as int),
            ),
            None => !has_envelope_header(b@),
        },
{
    let n = b.len();
    if n < 6 {
        return None;
    }
    if !(b[0] == 69 && b[1] == 86 && b[2] == 71 && b[3] == 49) {
        proof {
            if b@.subrange(0, 4) == seq![69u8, 86u8, 71u8, 49u8] {
                assert(b@.subrange(0, 4)[0] == b@[0]);
                assert(b@.subrange(0, 4)[1] == b@[1]);
                assert(b@.subrange(0, 4)[2] == b@[2]);
                assert(b@.subrange(0, 4)[3] == b@[3]);
            }
        }
        return None;
    }
    proof {
        assert(b@.subrange(0, 4) =~= seq![69u8, 86u8, 71u8, 49u8]);
    }
    let kid_len = read_be16(b, 4) as usize;
    proof {
        assert(be16(b@[4] as int * 256 + b@[5] as int) == b@.subrange(4, 6)) by {
            assert(be16(b@[4] as int * 256 + b@[5] as int) =~= b@.subrange(4, 6));
        }
    }
    if n - 6 < kid_len {
        return None;
    }
    let kid_bytes = bytes_subrange(b, 6, 6 + kid_len);
    match bytes_to_string(&kid_bytes) {
        Some(kid) => {
            proof {
                vstd::utf8::encode_utf8_valid_utf8(kid@);
                assert(kid_len as int == b@[4] as int * 256 + b@[5] as int);
            }
            Some(kid)
        },
        None => None,
    }
}

/// Store scoping configuration.
#[derive(Debug)]
pub struct StoreConfig {
    pub repo_scope: Option<String>,
}

/// The cipher suites a store can be built with.
#[derive(Debug)]
pub enum CipherSuite {
    AesGcm256,
    ChaCha20Poly1305,
}

/// Marker for the one supported cipher.
pub struct AesGcmEncrypter {}

impl AesGcmEncrypter {
    pub fn new() -> (r: AesGcmEncrypter) {
        AesGcmEncrypter {  }
    }

    /// The suite this encrypter seals with.
    pub fn algorithm(&self) -> (r: CipherSuite)
        ensures
            r is AesGcm256,
    {
        CipherSuite::AesGcm256
    }
}

/// Split an envelope into key id, nonce, tag and ciphertext. Whatever is
/// returned reassembles to the input, and every well-formed envelope is
/// split into exactly its parts, so decoding inverts `encode_envelope`.
#[verifier::rlimit(100)]
pub fn decode_envelope(b: &Vec<u8>) -> (r: Option<(String, Vec<u8>, Vec<u8>, Vec<u8>)>)
    ensures
        r matches Some(parts) ==> b@ == envelope_bytes(
            encode_utf8(parts.0@),
            parts.1@,
            parts.2@,
            parts.3@,
        ) && parts.1@.len() == 12 && parts.2@.len() == 16,
        forall|kid: Seq<char>, nonce: Seq<u8>, tag: Seq<u8>, ct: Seq<u8>|
            {
                &&& b@ == #[trigger] envelope_bytes(encode_utf8(kid), nonce, tag, ct)
                &&& encode_utf8(kid).len() < 0x10000
                &&& nonce.len() == 12
                &&& tag.len() == 16
            } ==> (r matches Some(parts) && parts.0@ == kid && parts.1@ == nonce && parts.2@
                == tag && parts.3@ == ct),
{
    let kid = match peek_key_id(b) {
        Some(kid) => kid,
        None => {
            proof {
                assert forall|kid0: Seq<char>, nonce0: Seq<u8>, tag0: Seq<u8>, ct0: Seq<u8>|
                    !(b@ == #[trigger] envelope_bytes(encode_utf8(kid0), nonce0, tag0, ct0)
                        && encode_utf8(kid0).len() < 0x10000 && nonce0.len() == 12 && tag0.len()
                        == 16) by {
                    if b@ == envelope_bytes(encode_utf8(kid0), nonce0, tag0, ct0) && encode_utf8(
                        kid0,
                    ).len() < 0x10000 && nonce0.len() == 12 && tag0.len() == 16 {
                        vstd::utf8::encode_utf8_valid_utf8(kid0);
                        lemma_envelope_parts(encode_utf8(kid0), nonce0, tag0, ct0);
                    }
                }
            }
            return None;
        },
    };
    let kid_len = read_be16(b, 4) as usize;
    let header_end = 6 + kid_len;
    if b.len() < header_end + 28 {
        proof {
            assert forall|kid0: Seq<char>, nonce0: Seq<u8>, tag0: Seq<u8>, ct0: Seq<u8>|
                !(b@ == #[trigger] envelope_bytes(encode_utf8(kid0), nonce0, tag0, ct0)
                    && encode_utf8(kid0).len() < 0x10000 && nonce0.len() == 12 && tag0.len()
                    == 16) by {
                if b@ == envelope_bytes(encode_utf8(kid0), nonce0, tag0, ct0) && encode_utf8(
                    kid0,
                ).len() < 0x10000 && nonce0.len() == 12 && tag0.len() == 16 {
                    vstd::utf8::encode_utf8_valid_utf8(kid0);
                    lemma_envelope_parts(encode_utf8(kid0), nonce0, tag0, ct0);
                }
            }
        }
        return None;
    }
    let nonce = bytes_subrange(b, header_end, header_end + 12);
    let tag = bytes_subrange(b, header_end + 12, header_end + 28);
    let ct = bytes_subrange(b, header_end + 28, b.len());
    proof {
        let kb = encode_utf8(kid@);
        assert(kb.len() == kid_len as int);
        assert forall|k: int| 0 <= k < b@.len() implies b@[k] == envelope_bytes(
            kb,
            nonce@,
            tag@,
            ct@,
        )[k] by {
            let env = envelope_bytes(kb, nonce@, tag@, ct@);
            if k < 4 {
                assert(b@.subrange(0, 4)[k] == b@[k]);
            } else if k < 6 {
                assert(be16(kb.len() as int)[k - 4] == b@[k]) by {
                    assert(be16(b@[4] as int * 256 + b@[5] as int) =~= b@.subrange(4, 6));
                }
            } else if k < 6 + kid_len {
                assert(b@.subrange(6, 6 + kid_len as int)[k - 6] == b@[k]);
            } else if k < 6 + kid_len + 12 {
                assert(nonce@[k - 6 - kid_len] == b@[k]);
            } else if k < 6 + kid_len + 28 {
                assert(tag@[k - 6 - kid_len - 12] == b@[k]);
            } else {
                assert(ct@[k - 6 - kid_len - 28] == b@[k]);
            }
        }
        assert(b@ =~= envelope_bytes(encode_utf8(kid@), nonce@, tag@, ct@));
        assert forall|kid0: Seq<char>, nonce0: Seq<u8>, tag0: Seq<u8>, ct0: Seq<u8>|
            {
                &&& b@ == #[trigger] envelope_bytes(encode_utf8(kid0), nonce0, tag0, ct0)
                &&& encode_utf8(kid0).len() < 0x10000
                &&& nonce0.len() == 12
                &&& tag0.len() == 16
            } implies (kid@ == kid0 && nonce@ == nonce0 && tag@ == tag0 && ct@ == ct0) by {
            vstd::utf8::encode_utf8_valid_utf8(kid0);
            lemma_envelope_parts(encode_utf8(kid0), nonce0, tag0, ct0);
            assert(encode_utf8(kid@) == encode_utf8(kid0)) by {
                assert(b@[4] as int * 256 + b@[5] as int == encode_utf8(kid0).len());
            }
            assert(kid@ == kid0) by {
                vstd::utf8::encode_utf8_decode_utf8(kid@);
                vstd::utf8::encode_utf8_decode_utf8(kid0);
            }
            assert(nonce@ == b@.subrange(6 + kid_len as int, 6 + kid_len as int + 12));
            assert(tag@ == b@.subrange(6 + kid_len as int + 12, 6 + kid_len as int + 28));
            assert(ct@ =~= b@.subrange(6 + kid_len as int + 28, b@.len() as int));
        }
    }
    Some((kid, nonce, tag, ct))
}

/// The checksum column recorded for a write.
pub open spec fn len_checksum(n: int) -> Seq<char> {
    "len:"@ + dec_of(n as nat)
}

/// A record lookup in the in-memory map, last write winning by uniqueness.
pub open spec fn lookup_rec(
    records: Seq<((Seq<char>, Seq<char>), Seq<u8>)>,
    key: (Seq<char>, Seq<char>),
) -> Option<Seq<u8>>
    decreases records.len(),
{
    if records.len() == 0 {
        None
    } else if records[0].0 == key {
        Some(records[0].1)
    } else {
        lookup_rec(records.drop_first(), key)
    }
}

/// In-memory vector store, optionally sealing records with AES-256-GCM
/// under keys from a key manager.
pub struct VectorStore<M: KeyManager> {
    pub records: Vec<((String, String), Vec<u8>)>,
    pub next_sequence: u64,
    pub kms: Option<M>,
    pub encrypter: Option<AesGcmEncrypter>,
}

impl VectorStore<InMemoryKeyManager> {
    /// A plaintext in-memory store.
    pub fn new() -> (r: VectorStore<InMemoryKeyManager>)
        ensures
            r.rec_model() == Seq::<((Seq<char>, Seq<char>), Seq<u8>)>::empty(),
            r.next_sequence == 1,
            !r.encrypted(),
            r.kms is None,
            r.wf(),
    {
        let r = VectorStore {
            records: Vec::new(),
            next_sequence: 1,
            kms: None,
            encrypter: None,
        };
        proof {
            assert(r.rec_model() =~= Seq::<((Seq<char>, Seq<char>), Seq<u8>)>::empty());
        }
        r
    }

    /// Start building a store with encryption pieces.
    pub fn builder() -> (r: VectorStoreBuilder<InMemoryKeyManager>)
        ensures
            r.kms is None,
            r.encrypter is None,
    {
        VectorStoreBuilder { kms: None, encrypter: None }
    }
}

/// Assembles a store from its encryption pieces.
pub struct VectorStoreBuilder<M: KeyManager> {
    pub kms: Option<M>,
    pub encrypter: Option<AesGcmEncrypter>,
}

impl<M: KeyManager> VectorStoreBuilder<M> {
    pub fn with_encrypter(self, encrypter: AesGcmEncrypter) -> (r: VectorStoreBuilder<M>)
        ensures
            r.kms == self.kms,
            r.encrypter is Some,
    {
        VectorStoreBuilder { encrypter: Some(encrypter), ..self }
    }

    pub fn with_key_manager(self, kms: M) -> (r: VectorStoreBuilder<M>)
        ensures
            r.encrypter == self.encrypter,
            r.kms == Some(kms),
    {
        VectorStoreBuilder { kms: Some(kms), ..self }
    }

    pub fn build(self) -> (r: VectorStore<M>)
        ensures
            r.rec_model() == Seq::<((Seq<char>, Seq<char>), Seq<u8>)>::empty(),
            r.next_sequence == 1,
            r.kms == self.kms,
            r.encrypted() == (self.kms is Some && self.encrypter is Some),
            (self.kms matches Some(m) ==> m.km_wf()) ==> r.wf(),
    {
        let r = VectorStore {
            records: Vec::new(),
            next_sequence: 1,
            kms: self.kms,
            encrypter: self.encrypter,
        };
        proof {
            assert(r.rec_model() =~= Seq::<((Seq<char>, Seq<char>), Seq<u8>)>::empty());
        }
        r
    }
}

impl<M: KeyManager> VectorStore<M> {
    /// Stored raw records, in insertion order.
    pub open spec fn rec_model(&self) -> Seq<((Seq<char>, Seq<char>), Seq<u8>)> {
        self.records@.map_values(
            |p: ((String, String), Vec<u8>)| ((p.0.0@, p.0.1@), p.1@),
        )
    }

    /// Whether reads and writes go through the cipher.
    pub open spec fn encrypted(&self) -> bool {
        self.kms is Some && self.encrypter is Some
    }

    /// Record keys are unique and the key manager is sound.
    pub open spec fn wf(&self) -> bool {
        &&& forall|a: int, b: int|
            0 <= a < b < self.rec_model().len() ==> (#[trigger] self.rec_model()[a]).0 != (
            #[trigger] self.rec_model()[b]).0
        &&& (self.kms matches Some(m) ==> m.km_wf())
    }

    /// Find the index of a record key.
    fn find_index(&self, repo_id: &String, record_key: &String) -> (r: Option<usize>)
        ensures
            match r {
                Some(i) => i < self.records@.len() && self.rec_model()[i as int].0 == (
                    repo_id@,
                    record_key@,
                ) && lookup_rec(self.rec_model(), (repo_id@, record_key@)) == Some(
                    self.rec_model()[i as int].1,
                ),
                None => lookup_rec(self.rec_model(), (repo_id@, record_key@)) is None,
            },
    {
        let ghost rm = self.rec_model();
        proof {
            assert(rm.skip(0) =~= rm);
        }
        let mut i: usize = 0;
        while i < self.records.len()
            invariant
                0 <= i <= self.records@.len(),
                rm == self.rec_model(),
                rm.len() == self.records@.len(),
                lookup_rec(rm, (repo_id@, record_key@)) == lookup_rec(
                    rm.skip(i as int),
                    (repo_id@, record_key@),
                ),
                forall|k: int| 0 <= k < i ==> (#[trigger] rm[k]).0 != (repo_id@, record_key@),
            decreases self.records@.len() - i,
        {
            proof {
                assert(rm.skip(i as int)[0] == rm[i as int]);
                assert(rm.skip(i as int).drop_first() =~= rm.skip(i + 1));
                assert(rm[i as int] == (
                    (self.records@[i as int].0.0@, self.records@[i as int].0.1@),
                    self.records@[i as int].1@,
                ));
            }
            if str_eq(self.records[i].0.0.as_str(), repo_id.as_str()) && str_eq(
                self.records[i].0.1.as_str(),
                record_key.as_str(),
            ) {
                return Some(i);
            }
            i = i + 1;
        }
        proof {
            assert(rm.skip(rm.len() as int) =~= Seq::<((Seq<char>, Seq<char>), Seq<u8>)>::empty());
        }
        None
    }

    /// Store raw bytes under a key, replacing any prior value.
    fn put_raw(&mut self, repo_id: &String, record_key: &String, bytes: Vec<u8>)
        requires
            old(self).wf(),
        ensures
            final(self).wf(),
            lookup_rec(final(self).rec_model(), (repo_id@, record_key@)) == Some(bytes@),
            forall|other: (Seq<char>, Seq<char>)|
                other != (repo_id@, record_key@) ==> #[trigger] lookup_rec(
                    final(self).rec_model(),
                    other,
                ) == lookup_rec(old(self).rec_model(), other),
            final(self).next_sequence == old(self).next_sequence,
            final(self).kms == old(self).kms,
            final(self).encrypted() == old(self).encrypted(),
    {
        let ghost key = (repo_id@, record_key@);
        match self.find_index(repo_id, record_key) {
            Some(i) => {
                let ghost pre = self.rec_model();
                let pair = (repo_id.clone(), record_key.clone());
                self.records.set(i, (pair, bytes));
                proof {
                    let post = self.rec_model();
                    assert(post =~= pre.update(i as int, (key, bytes@)));
                    lemma_lookup_rec_update(pre, i as int, key, bytes@);
                }
            },
            None => {
                let ghost pre = self.rec_model();
                let pair = (repo_id.clone(), record_key.clone());
                self.records.push((pair, bytes));
                proof {
                    let post = self.rec_model();
                    assert(post =~= pre.push((key, bytes@)));
                    lemma_lookup_rec_push(pre, key, bytes@);
                }
            },
        }
    }

    /// Raw stored bytes of a record.
    pub fn test_dump_raw(&self, repo_id: &String, record_key: &String) -> (r: Option<Vec<u8>>)
        ensures
            match r {
                Some(v) => lookup_rec(self.rec_model(), (repo_id@, record_key@)) == Some(v@),
                None => lookup_rec(self.rec_model(), (repo_id@, record_key@)) is None,
            },
    {
        match self.find_index(repo_id, record_key) {
            Some(i) => {
                let v = bytes_subrange(&self.records[i].1, 0, self.records[i].1.len());
                proof {
                    assert(v@ =~= self.rec_model()[i as int].1);
                }
                Some(v)
            },
            None => None,
        }
    }

    /// Flip the last byte of a stored record, simulating direct tampering
    /// with the persisted envelope: the stored bytes become the old ones
    /// with the final byte inverted, and nothing else moves.
    pub fn tamper_flip_last_byte(&mut self, repo_id: &String, record_key: &String) -> (r: bool)
        requires
            old(self).wf(),
        ensures
            final(self).wf(),
            final(self).next_sequence == old(self).next_sequence,
            final(self).kms == old(self).kms,
            final(self).encrypted() == old(self).encrypted(),
            lookup_rec(old(self).rec_model(), (repo_id@, record_key@)) matches Some(b) ==> (
            b.len() > 0 ==> (r && lookup_rec(final(self).rec_model(), (repo_id@, record_key@))
                == Some(b.take(b.len() - 1).push(b[b.len() - 1] ^ 0xFF)))),
            lookup_rec(old(self).rec_model(), (repo_id@, record_key@)) matches Some(b) ==> (
            b.len() == 0 ==> (!r && final(self).rec_model() == old(self).rec_model())),
            lookup_rec(old(self).rec_model(), (repo_id@, record_key@)) is None ==> (!r
                && final(self).rec_model() == old(self).rec_model()),
            forall|other: (Seq<char>, Seq<char>)|
                other != (repo_id@, record_key@) ==> #[trigger] lookup_rec(
                    final(self).rec_model(),
                    other,
                ) == lookup_rec(old(self).rec_model(), other),
    {
        let found = self.find_index(repo_id, record_key);
        match found {
            Some(i) => {
                let len = self.records[i].1.len();
                if len == 0 {
                    return false;
                }
                let ghost stored = self.rec_model()[i as int].1;
                let old_bytes = bytes_subrange(&self.records[i].1, 0, len);
                let mut new_bytes = bytes_subrange(&self.records[i].1, 0, len - 1);
                let last = old_bytes[len - 1];
                new_bytes.push(last ^ 0xFF);
                proof {
                    assert(new_bytes@ =~= stored.take(stored.len() - 1).push(
                        stored[stored.len() - 1] ^ 0xFF,
                    ));
                }
                self.put_raw(repo_id, record_key, new_bytes);
                true
            },
            None => false,
        }
    }

    /// Overwrite a record's raw bytes, bypassing sealing, to model direct
    /// corruption of the persisted value.
    pub fn test_overwrite_raw(&mut self, repo_id: &String, record_key: &String, bytes: Vec<u8>)
        requires
            old(self).wf(),
        ensures
            final(self).wf(),
            lookup_rec(final(self).rec_model(), (repo_id@, record_key@)) == Some(bytes@),
            final(self).next_sequence == old(self).next_sequence,
            final(self).kms == old(self).kms,
            final(self).encrypted() == old(self).encrypted(),
    {
        self.put_raw(repo_id, record_key, bytes)
    }

    /// Insert or update a record. Under encryption the payload is sealed
    /// with the current key and a fresh nonce into a tagged envelope; the
    /// returned entry carries the assigned sequence and the length
    /// checksums.
    #[verifier::rlimit(100)]
    pub fn upsert(&mut self, repo_id: &String, record_key: &String, payload: &Vec<u8>) -> (r:
        Result<ReplayEntry, StoreError>)
        requires
            old(self).wf(),
            old(self).next_sequence < u64::MAX,
            payload@.len() < 0x100000000,
            encode_utf8(repo_id@).len() < 0x10000,
            encode_utf8(record_key@).len() < 0x10000,
        ensures
            final(self).wf(),
            final(self).kms == old(self).kms,
            final(self).encrypted() == old(self).encrypted(),
            r matches Ok(entry) ==> {
                &&& entry.deep_view() == (EntryModel {
                    sequence: old(self).next_sequence as int,
                    repo_id: repo_id@,
                    delayed_ms: 0,
                    before: len_checksum(payload@.len() as int),
                    after: len_checksum(payload@.len() as int),
                    status: "emitted"@,
                })
                &&& final(self).next_sequence == old(self).next_sequence + 1
                &&& (!old(self).encrypted() ==> lookup_rec(
                    final(self).rec_model(),
                    (repo_id@, record_key@),
                ) == Some(payload@))
                &&& (old(self).encrypted() ==> (exists|nonce: Seq<u8>, kid: Seq<char>, kb: Seq<u8>|
                    nonce.len() == 12 && kb.len() == 32 && encode_utf8(kid).len() < 0x10000
                        && aes_tag(
                        kb,
                        nonce,
                        aad_bytes(repo_id@, kid, record_key@),
                        payload@,
                    ).len() == 16 && aes_ct(
                        kb,
                        nonce,
                        aad_bytes(repo_id@, kid, record_key@),
                        payload@,
                    ).len() == payload@.len() && (old(self).kms matches Some(m) && kid
                        == m.current_id() && lookup_key(m.keys_model(), kid) == Some(kb))
                        && #[trigger] lookup_rec(
                        final(self).rec_model(),
                        (repo_id@, record_key@),
                    ) == Some(
                        envelope_bytes(
                            encode_utf8(kid),
                            nonce,
                            aes_tag(kb, nonce, aad_bytes(repo_id@, kid, record_key@), payload@),
                            aes_ct(kb, nonce, aad_bytes(repo_id@, kid, record_key@), payload@),
                        ),
                    )))
                &&& (forall|other: (Seq<char>, Seq<char>)|
                    other != (repo_id@, record_key@) ==> #[trigger] lookup_rec(
                        final(self).rec_model(),
                        other,
                    ) == lookup_rec(old(self).rec_model(), other))
            },
            !old(self).encrypted() ==> r is Ok,
            old(self).encrypted() ==> r is Ok,
    {
        let seq_no = self.next_sequence;
        let is_enc = match (&self.encrypter, &self.kms) {
            (Some(_), Some(_)) => true,
            _ => false,
        };
        if is_enc {
            let handle = match &self.kms {
                Some(m) => match m.current(&KeyScope { repo_id: repo_id.clone() }) {
                    Ok(h) => h,
                    Err(detail) => {
                        return Err(StoreError::Key { detail });
                    },
                },
                None => {
                    return Err(StoreError::Key {
                        detail: String::from_str("key manager not configured"),
                    });
                },
            };
            let aad = build_aad(repo_id, &handle.key_id, record_key);
            let nonce = random_nonce12();
            let sealed = aes256_seal(&handle.key_bytes, &nonce, &aad, payload);
            let ct = bytes_subrange(&sealed, 0, payload.len());
            let tag = bytes_subrange(&sealed, payload.len(), sealed.len());
            proof {
                assert(ct@ == aes_ct(
                    handle.key_bytes@,
                    nonce@,
                    aad@,
                    payload@,
                ));
                assert(tag@ == aes_tag(handle.key_bytes@, nonce@, aad@, payload@));
            }
            let envelope = encode_envelope(&handle.key_id, &nonce, &tag, &ct);
            let ghost nonce_view = nonce@;
            let ghost kid_view = handle.key_id@;
            let ghost kb_view = handle.key_bytes@;
            self.put_raw(repo_id, record_key, envelope);
            proof {
                assert(lookup_rec(self.rec_model(), (repo_id@, record_key@)) == Some(
                    envelope_bytes(
                        encode_utf8(kid_view),
                        nonce_view,
                        aes_tag(
                            kb_view,
                            nonce_view,
                            aad_bytes(repo_id@, kid_view, record_key@),
                            payload@,
                        ),
                        aes_ct(
                            kb_view,
                            nonce_view,
                            aad_bytes(repo_id@, kid_view, record_key@),
                            payload@,
                        ),
                    ),
                ));
            }
        } else {
            let copy = bytes_subrange(payload, 0, payload.len());
            proof {
                assert(copy@ =~= payload@);
            }
            self.put_raw(repo_id, record_key, copy);
        }
        self.next_sequence = seq_no + 1;
        let entry = self.build_entry(seq_no, repo_id, payload.len());
        Ok(entry)
    }

    /// The replay entry recorded for a write.
    fn build_entry(&self, sequence: u64, repo_id: &String, payload_len: usize) -> (r: ReplayEntry)
        ensures
            r.deep_view() == (EntryModel {
                sequence: sequence as int,
                repo_id: repo_id@,
                delayed_ms: 0,
                before: len_checksum(payload_len as int),
                after: len_checksum(payload_len as int),
                status: "emitted"@,
            }),
    {
        let mut checksum: Vec<char> = Vec::new();
        push_str_chars(&mut checksum, "len:");
        push_dec(payload_len as u64, &mut checksum);
        proof {
            assert(checksum@ =~= len_checksum(payload_len as int));
        }
        let before = chars_to_string(&checksum);
        let after = before.clone();
        ReplayEntry {
            sequence,
            repo_id: repo_id.clone(),
            delayed_ms: 0,
            payload_checksum_before: before,
            payload_checksum_after: after,
            status: String::from_str("emitted"),
        }
    }


    /// From the good-case hypothesis, the stored bytes decompose as an
    /// envelope of the witnesses.
    proof fn lemma_good_parts(
        stored: Seq<u8>,
        repo: Seq<char>,
        rec: Seq<char>,
        nonce0: Seq<u8>,
        kid0: Seq<char>,
        kb0: Seq<u8>,
        pt0: Seq<u8>,
    )
        requires
            stored == envelope_bytes(
                encode_utf8(kid0),
                nonce0,
                aes_tag(kb0, nonce0, aad_bytes(repo, kid0, rec), pt0),
                aes_ct(kb0, nonce0, aad_bytes(repo, kid0, rec), pt0),
            ),
            nonce0.len() == 12,
            encode_utf8(kid0).len() < 0x10000,
            aes_tag(kb0, nonce0, aad_bytes(repo, kid0, rec), pt0).len() == 16,
        ensures
            has_envelope_header(stored),
            stored[4] as int * 256 + stored[5] as int == encode_utf8(kid0).len(),
            stored.subrange(6, 6 + encode_utf8(kid0).len() as int) == encode_utf8(kid0),
            stored.len() == 34 + encode_utf8(kid0).len() + aes_ct(
                kb0,
                nonce0,
                aad_bytes(repo, kid0, rec),
                pt0,
            ).len(),
            stored.subrange(
                6 + encode_utf8(kid0).len() as int,
                6 + encode_utf8(kid0).len() as int + 12,
            ) == nonce0,
            stored.subrange(
                6 + encode_utf8(kid0).len() as int + 12,
                6 + encode_utf8(kid0).len() as int + 28,
            ) == aes_tag(kb0, nonce0, aad_bytes(repo, kid0, rec), pt0),
            stored.subrange(6 + encode_utf8(kid0).len() as int + 28, stored.len() as int)
                == aes_ct(kb0, nonce0, aad_bytes(repo, kid0, rec), pt0),
    {
        vstd::utf8::encode_utf8_valid_utf8(kid0);
        lemma_envelope_parts(
            encode_utf8(kid0),
            nonce0,
            aes_tag(kb0, nonce0, aad_bytes(repo, kid0, rec), pt0),
            aes_ct(kb0, nonce0, aad_bytes(repo, kid0, rec), pt0),
        );
    }

    /// Fetch a record. Under encryption the stored envelope's key id picks
    /// the key (rotation tolerance), the AAD is rebuilt with that id and the
    /// ciphertext is opened; anything that is not a well-formed sealed
    /// envelope fails closed.
    #[verifier::rlimit(100)]
    pub fn get(&self, repo_id: &String, record_key: &String) -> (r: Result<
        Option<Vec<u8>>,
        StoreError,
    >)
        requires
            self.wf(),
            encode_utf8(repo_id@).len() < 0x10000,
            encode_utf8(record_key@).len() < 0x10000,
        ensures
            lookup_rec(self.rec_model(), (repo_id@, record_key@)) is None ==> r == Ok::<
                Option<Vec<u8>>,
                StoreError,
            >(None),
            !self.encrypted() ==> (r matches Ok(v) && (match v {
                Some(b) => lookup_rec(self.rec_model(), (repo_id@, record_key@)) == Some(b@),
                None => lookup_rec(self.rec_model(), (repo_id@, record_key@)) is None,
            })),
            self.encrypted() ==> (forall|stored: Seq<u8>|
                (#[trigger] lookup_rec(self.rec_model(), (repo_id@, record_key@)) == Some(stored)
                    && !has_envelope_header(stored)) ==> (r matches Err(e) && e is Encryption)),
            self.encrypted() ==> (forall|nonce: Seq<u8>, kid: Seq<char>, kb: Seq<u8>, pt: Seq<u8>|
                {
                    &&& #[trigger] lookup_rec(self.rec_model(), (repo_id@, record_key@)) == Some(
                        envelope_bytes(
                            encode_utf8(kid),
                            nonce,
                            #[trigger] aes_tag(kb, nonce, aad_bytes(repo_id@, kid, record_key@), pt),
                            aes_ct(kb, nonce, aad_bytes(repo_id@, kid, record_key@), pt),
                        ),
                    )
                    &&& nonce.len() == 12
                    &&& kb.len() == 32
                    &&& encode_utf8(kid).len() < 0x10000
                    &&& aes_tag(kb, nonce, aad_bytes(repo_id@, kid, record_key@), pt).len() == 16
                    &&& (self.kms matches Some(m) && lookup_key(m.keys_model(), kid) == Some(kb))
                } ==> (r matches Ok(v) && v matches Some(b) && b@ == pt)),
            self.encrypted() ==> (forall|kid: Seq<char>, nonce: Seq<u8>, tag: Seq<u8>, ct: Seq<u8>|
                {
                    &&& lookup_rec(self.rec_model(), (repo_id@, record_key@)) == Some(
                        #[trigger] envelope_bytes(encode_utf8(kid), nonce, tag, ct),
                    )
                    &&& nonce.len() == 12
                    &&& tag.len() == 16
                    &&& encode_utf8(kid).len() < 0x10000
                    &&& (self.kms matches Some(m) && lookup_key(m.keys_model(), kid) matches Some(
                        kb,
                    ) && kb.len() == 32 && (forall|pt: Seq<u8>|
                        ct + tag != aes_ct(kb, nonce, aad_bytes(repo_id@, kid, record_key@), pt)
                            + aes_tag(kb, nonce, aad_bytes(repo_id@, kid, record_key@), pt)))
                } ==> (r matches Err(e) && e is Encryption)),
            self.encrypted() ==> (r matches Ok(v) ==> (v matches Some(b) ==> (exists|
                kid: Seq<char>,
                nonce: Seq<u8>,
                tag: Seq<u8>,
                ct: Seq<u8>,
                kb: Seq<u8>,
            |
                lookup_rec(self.rec_model(), (repo_id@, record_key@)) == Some(
                    #[trigger] envelope_bytes(encode_utf8(kid), nonce, tag, ct),
                ) && nonce.len() == 12 && tag.len() == 16 && ct + tag == #[trigger] aes_ct(
                    kb,
                    nonce,
                    aad_bytes(repo_id@, kid, record_key@),
                    b@,
                ) + aes_tag(kb, nonce, aad_bytes(repo_id@, kid, record_key@), b@) && (self.kms
                    matches Some(m) && lookup_key(m.keys_model(), kid) == Some(kb))))),
    {
        let stored = match self.find_index(repo_id, record_key) {
            Some(i) => bytes_subrange(&self.records[i].1, 0, self.records[i].1.len()),
            None => {
                return Ok(None);
            },
        };
        proof {
            assert(lookup_rec(self.rec_model(), (repo_id@, record_key@)) == Some(stored@));
        }
        let is_enc = match (&self.encrypter, &self.kms) {
            (Some(_), Some(_)) => true,
            _ => false,
        };
        if !is_enc {
            return Ok(Some(stored));
        }
        let kid = match peek_key_id(&stored) {
            Some(kid) => kid,
            None => {
                proof {
                    assert forall|kid0: Seq<char>, nonce0: Seq<u8>, tag0: Seq<u8>, ct0: Seq<u8>|
                        {
                            &&& lookup_rec(self.rec_model(), (repo_id@, record_key@)) == Some(
                                #[trigger] envelope_bytes(encode_utf8(kid0), nonce0, tag0, ct0),
                            )
                            &&& nonce0.len() == 12
                            &&& tag0.len() == 16
                            &&& encode_utf8(kid0).len() < 0x10000
                            &&& (self.kms matches Some(m) && lookup_key(
                                m.keys_model(),
                                kid0,
                            ) matches Some(kb0) && kb0.len() == 32 && (forall|pt: Seq<u8>|
                                ct0 + tag0 != aes_ct(
                                    kb0,
                                    nonce0,
                                    aad_bytes(repo_id@, kid0, record_key@),
                                    pt,
                                ) + aes_tag(
                                    kb0,
                                    nonce0,
                                    aad_bytes(repo_id@, kid0, record_key@),
                                    pt,
                                )))
                        } implies false by {
                        vstd::utf8::encode_utf8_valid_utf8(kid0);
                        lemma_envelope_parts(encode_utf8(kid0), nonce0, tag0, ct0);
                    }
                    assert forall|nonce0: Seq<u8>, kid0: Seq<char>, kb0: Seq<u8>, pt0: Seq<u8>|
                    {
                        &&& lookup_rec(self.rec_model(), (repo_id@, record_key@)) == Some(
                            envelope_bytes(
                                encode_utf8(kid0),
                                nonce0,
                                #[trigger] aes_tag(
                                    kb0,
                                    nonce0,
                                    aad_bytes(repo_id@, kid0, record_key@),
                                    pt0,
                                ),
                                aes_ct(kb0, nonce0, aad_bytes(repo_id@, kid0, record_key@), pt0),
                            ),
                        )
                        &&& nonce0.len() == 12
                        &&& kb0.len() == 32
                        &&& encode_utf8(kid0).len() < 0x10000
                        &&& aes_tag(kb0, nonce0, aad_bytes(repo_id@, kid0, record_key@), pt0).len()
                            == 16
                        &&& (self.kms matches Some(m) && lookup_key(m.keys_model(), kid0) == Some(
                            kb0,
                        ))
                    } implies false by {
                        Self::lemma_good_parts(
                            stored@,
                            repo_id@,
                            record_key@,
                            nonce0,
                            kid0,
                            kb0,
                            pt0,
                        );
                    }
                }
                return Err(StoreError::Encryption {
                    detail: String::from_str("missing or invalid envelope"),
                });
            },
        };
        proof {
            assert forall|kid0: Seq<char>, nonce0: Seq<u8>, tag0: Seq<u8>, ct0: Seq<u8>|
                        {
                            &&& lookup_rec(self.rec_model(), (repo_id@, record_key@)) == Some(
                                #[trigger] envelope_bytes(encode_utf8(kid0), nonce0, tag0, ct0),
                            )
                            &&& nonce0.len() == 12
                            &&& tag0.len() == 16
                            &&& encode_utf8(kid0).len() < 0x10000
                            &&& (self.kms matches Some(m) && lookup_key(
                                m.keys_model(),
                                kid0,
                            ) matches Some(kb0) && kb0.len() == 32 && (forall|pt: Seq<u8>|
                                ct0 + tag0 != aes_ct(
                                    kb0,
                                    nonce0,
                                    aad_bytes(repo_id@, kid0, record_key@),
                                    pt,
                                ) + aes_tag(
                                    kb0,
                                    nonce0,
                                    aad_bytes(repo_id@, kid0, record_key@),
                                    pt,
                                )))
                        } implies kid@ == kid0 by {
                vstd::utf8::encode_utf8_valid_utf8(kid0);
                        lemma_envelope_parts(encode_utf8(kid0), nonce0, tag0, ct0);
                assert(encode_utf8(kid@) == encode_utf8(kid0));
                vstd::utf8::encode_utf8_decode_utf8(kid@);
                vstd::utf8::encode_utf8_decode_utf8(kid0);
            }
            assert forall|nonce0: Seq<u8>, kid0: Seq<char>, kb0: Seq<u8>, pt0: Seq<u8>|
                    {
                        &&& lookup_rec(self.rec_model(), (repo_id@, record_key@)) == Some(
                            envelope_bytes(
                                encode_utf8(kid0),
                                nonce0,
                                #[trigger] aes_tag(
                                    kb0,
                                    nonce0,
                                    aad_bytes(repo_id@, kid0, record_key@),
                                    pt0,
                                ),
                                aes_ct(kb0, nonce0, aad_bytes(repo_id@, kid0, record_key@), pt0),
                            ),
                        )
                        &&& nonce0.len() == 12
                        &&& kb0.len() == 32
                        &&& encode_utf8(kid0).len() < 0x10000
                        &&& aes_tag(kb0, nonce0, aad_bytes(repo_id@, kid0, record_key@), pt0).len()
                            == 16
                        &&& (self.kms matches Some(m) && lookup_key(m.keys_model(), kid0) == Some(
                            kb0,
                        ))
                    } implies kid@ == kid0 by {
                Self::lemma_good_parts(stored@, repo_id@, record_key@, nonce0, kid0, kb0, pt0);
                assert(encode_utf8(kid@) == encode_utf8(kid0));
                vstd::utf8::encode_utf8_decode_utf8(kid@);
                vstd::utf8::encode_utf8_decode_utf8(kid0);
            }
        }
        let handle = match &self.kms {
            Some(m) => match m.get(kid.as_str()) {
                Ok(h) => h,
                Err(detail) => {
                    proof {
                        assert forall|kid0: Seq<char>, nonce0: Seq<u8>, tag0: Seq<u8>, ct0: Seq<u8>|
                        {
                            &&& lookup_rec(self.rec_model(), (repo_id@, record_key@)) == Some(
                                #[trigger] envelope_bytes(encode_utf8(kid0), nonce0, tag0, ct0),
                            )
                            &&& nonce0.len() == 12
                            &&& tag0.len() == 16
                            &&& encode_utf8(kid0).len() < 0x10000
                            &&& (self.kms matches Some(m) && lookup_key(
                                m.keys_model(),
                                kid0,
                            ) matches Some(kb0) && kb0.len() == 32 && (forall|pt: Seq<u8>|
                                ct0 + tag0 != aes_ct(
                                    kb0,
                                    nonce0,
                                    aad_bytes(repo_id@, kid0, record_key@),
                                    pt,
                                ) + aes_tag(
                                    kb0,
                                    nonce0,
                                    aad_bytes(repo_id@, kid0, record_key@),
                                    pt,
                                )))
                        } implies false by {
                            vstd::utf8::encode_utf8_valid_utf8(kid0);
                        lemma_envelope_parts(encode_utf8(kid0), nonce0, tag0, ct0);
                            assert(encode_utf8(kid@) == encode_utf8(kid0));
                            vstd::utf8::encode_utf8_decode_utf8(kid@);
                            vstd::utf8::encode_utf8_decode_utf8(kid0);
                        }
                        assert forall|nonce0: Seq<u8>, kid0: Seq<char>, kb0: Seq<u8>, pt0: Seq<u8>|
                    {
                        &&& lookup_rec(self.rec_model(), (repo_id@, record_key@)) == Some(
                            envelope_bytes(
                                encode_utf8(kid0),
                                nonce0,
                                #[trigger] aes_tag(
                                    kb0,
                                    nonce0,
                                    aad_bytes(repo_id@, kid0, record_key@),
                                    pt0,
                                ),
                                aes_ct(kb0, nonce0, aad_bytes(repo_id@, kid0, record_key@), pt0),
                            ),
                        )
                        &&& nonce0.len() == 12
                        &&& kb0.len() == 32
                        &&& encode_utf8(kid0).len() < 0x10000
                        &&& aes_tag(kb0, nonce0, aad_bytes(repo_id@, kid0, record_key@), pt0).len()
                            == 16
                        &&& (self.kms matches Some(m) && lookup_key(m.keys_model(), kid0) == Some(
                            kb0,
                        ))
                    } implies false by {
                            Self::lemma_good_parts(
                                stored@,
                                repo_id@,
                                record_key@,
                                nonce0,
                                kid0,
                                kb0,
                                pt0,
                            );
                            assert(encode_utf8(kid@) == encode_utf8(kid0));
                            vstd::utf8::encode_utf8_decode_utf8(kid@);
                            vstd::utf8::encode_utf8_decode_utf8(kid0);
                        }
                    }
                    return Err(StoreError::Key { detail });
                },
            },
            None => {
                return Err(StoreError::Key {
                    detail: String::from_str("key manager not configured"),
                });
            },
        };
        // split the envelope into nonce, tag and ciphertext
        let kid_len = read_be16(&stored, 4) as usize;
        let header_end = 6 + kid_len;
        if stored.len() < header_end + 28 {
            proof {
                assert forall|kid0: Seq<char>, nonce0: Seq<u8>, tag0: Seq<u8>, ct0: Seq<u8>|
                        {
                            &&& lookup_rec(self.rec_model(), (repo_id@, record_key@)) == Some(
                                #[trigger] envelope_bytes(encode_utf8(kid0), nonce0, tag0, ct0),
                            )
                            &&& nonce0.len() == 12
                            &&& tag0.len() == 16
                            &&& encode_utf8(kid0).len() < 0x10000
                            &&& (self.kms matches Some(m) && lookup_key(
                                m.keys_model(),
                                kid0,
                            ) matches Some(kb0) && kb0.len() == 32 && (forall|pt: Seq<u8>|
                                ct0 + tag0 != aes_ct(
                                    kb0,
                                    nonce0,
                                    aad_bytes(repo_id@, kid0, record_key@),
                                    pt,
                                ) + aes_tag(
                                    kb0,
                                    nonce0,
                                    aad_bytes(repo_id@, kid0, record_key@),
                                    pt,
                                )))
                        } implies false by {
                    vstd::utf8::encode_utf8_valid_utf8(kid0);
                        lemma_envelope_parts(encode_utf8(kid0), nonce0, tag0, ct0);
                }
                assert forall|nonce0: Seq<u8>, kid0: Seq<char>, kb0: Seq<u8>, pt0: Seq<u8>|
                    {
                        &&& lookup_rec(self.rec_model(), (repo_id@, record_key@)) == Some(
                            envelope_bytes(
                                encode_utf8(kid0),
                                nonce0,
                                #[trigger] aes_tag(
                                    kb0,
                                    nonce0,
                                    aad_bytes(repo_id@, kid0, record_key@),
                                    pt0,
                                ),
                                aes_ct(kb0, nonce0, aad_bytes(repo_id@, kid0, record_key@), pt0),
                            ),
                        )
                        &&& nonce0.len() == 12
                        &&& kb0.len() == 32
                        &&& encode_utf8(kid0).len() < 0x10000
                        &&& aes_tag(kb0, nonce0, aad_bytes(repo_id@, kid0, record_key@), pt0).len()
                            == 16
                        &&& (self.kms matches Some(m) && lookup_key(m.keys_model(), kid0) == Some(
                            kb0,
                        ))
                    } implies false by {
                    Self::lemma_good_parts(stored@, repo_id@, record_key@, nonce0, kid0, kb0, pt0);
                }
            }
            return Err(StoreError::Encryption {
                detail: String::from_str("missing or invalid envelope"),
            });
        }
        let nonce = bytes_subrange(&stored, header_end, header_end + 12);
        let tag = bytes_subrange(&stored, header_end + 12, header_end + 28);
        let ct = bytes_subrange(&stored, header_end + 28, stored.len());
        proof {
            assert(encode_utf8(kid@).len() < 0x10000) by {
                assert(encode_utf8(kid@) == stored@.subrange(
                    6,
                    6 + (stored@[4] as int * 256 + stored@[5] as int),
                ));
            }
        }
        let aad = build_aad(repo_id, &kid, record_key);
        if handle.key_bytes.len() != 32 {
            proof {
                assert forall|kid0: Seq<char>, nonce0: Seq<u8>, tag0: Seq<u8>, ct0: Seq<u8>|
                        {
                            &&& lookup_rec(self.rec_model(), (repo_id@, record_key@)) == Some(
                                #[trigger] envelope_bytes(encode_utf8(kid0), nonce0, tag0, ct0),
                            )
                            &&& nonce0.len() == 12
                            &&& tag0.len() == 16
                            &&& encode_utf8(kid0).len() < 0x10000
                            &&& (self.kms matches Some(m) && lookup_key(
                                m.keys_model(),
                                kid0,
                            ) matches Some(kb0) && kb0.len() == 32 && (forall|pt: Seq<u8>|
                                ct0 + tag0 != aes_ct(
                                    kb0,
                                    nonce0,
                                    aad_bytes(repo_id@, kid0, record_key@),
                                    pt,
                                ) + aes_tag(
                                    kb0,
                                    nonce0,
                                    aad_bytes(repo_id@, kid0, record_key@),
                                    pt,
                                )))
                        } implies false by {
                    vstd::utf8::encode_utf8_valid_utf8(kid0);
                        lemma_envelope_parts(encode_utf8(kid0), nonce0, tag0, ct0);
                    assert(encode_utf8(kid@) == encode_utf8(kid0));
                    vstd::utf8::encode_utf8_decode_utf8(kid@);
                    vstd::utf8::encode_utf8_decode_utf8(kid0);
                }
                assert forall|nonce0: Seq<u8>, kid0: Seq<char>, kb0: Seq<u8>, pt0: Seq<u8>|
                    {
                        &&& lookup_rec(self.rec_model(), (repo_id@, record_key@)) == Some(
                            envelope_bytes(
                                encode_utf8(kid0),
                                nonce0,
                                #[trigger] aes_tag(
                                    kb0,
                                    nonce0,
                                    aad_bytes(repo_id@, kid0, record_key@),
                                    pt0,
                                ),
                                aes_ct(kb0, nonce0, aad_bytes(repo_id@, kid0, record_key@), pt0),
                            ),
                        )
                        &&& nonce0.len() == 12
                        &&& kb0.len() == 32
                        &&& encode_utf8(kid0).len() < 0x10000
                        &&& aes_tag(kb0, nonce0, aad_bytes(repo_id@, kid0, record_key@), pt0).len()
                            == 16
                        &&& (self.kms matches Some(m) && lookup_key(m.keys_model(), kid0) == Some(
                            kb0,
                        ))
                    } implies false by {
                    Self::lemma_good_parts(stored@, repo_id@, record_key@, nonce0, kid0, kb0, pt0);
                }
            }
            return Err(StoreError::Key { detail: String::from_str("malformed key") });
        }
        let mut ct_and_tag = ct;
        let mut tag2 = tag;
        ct_and_tag.append(&mut tag2);
        let opened = aes256_open(&handle.key_bytes, &nonce, &aad, &ct_and_tag);
        proof {
            assert forall|nonce0: Seq<u8>, kid0: Seq<char>, kb0: Seq<u8>, pt0: Seq<u8>|
                {
                    &&& lookup_rec(self.rec_model(), (repo_id@, record_key@)) == Some(
                        envelope_bytes(
                            encode_utf8(kid0),
                            nonce0,
                            #[trigger] aes_tag(
                                kb0,
                                nonce0,
                                aad_bytes(repo_id@, kid0, record_key@),
                                pt0,
                            ),
                            aes_ct(kb0, nonce0, aad_bytes(repo_id@, kid0, record_key@), pt0),
                        ),
                    )
                    &&& nonce0.len() == 12
                    &&& kb0.len() == 32
                    &&& encode_utf8(kid0).len() < 0x10000
                    &&& aes_tag(kb0, nonce0, aad_bytes(repo_id@, kid0, record_key@), pt0).len()
                        == 16
                    &&& (self.kms matches Some(m) && lookup_key(m.keys_model(), kid0) == Some(
                        kb0,
                    ))
                } implies (ct_and_tag@ == aes_ct(
                handle.key_bytes@,
                nonce@,
                aad@,
                pt0,
            ) + aes_tag(handle.key_bytes@, nonce@, aad@, pt0) && aad@ == aad_bytes(
                repo_id@,
                kid0,
                record_key@,
            )) by {
                let tag0 = aes_tag(kb0, nonce0, aad_bytes(repo_id@, kid0, record_key@), pt0);
                let ct0 = aes_ct(kb0, nonce0, aad_bytes(repo_id@, kid0, record_key@), pt0);
                Self::lemma_good_parts(stored@, repo_id@, record_key@, nonce0, kid0, kb0, pt0);
                let env = envelope_bytes(encode_utf8(kid0), nonce0, tag0, ct0);
                assert(stored@ == env);
                assert(encode_utf8(kid@) == encode_utf8(kid0)) by {
                    assert(env[4] as int * 256 + env[5] as int == encode_utf8(kid0).len());
                }
                assert(kid@ == kid0) by {
                    vstd::utf8::encode_utf8_decode_utf8(kid@);
                    vstd::utf8::encode_utf8_decode_utf8(kid0);
                }
                assert(kid_len as int == encode_utf8(kid0).len());
                assert(nonce@ == nonce0);
                assert(tag@ == tag0) by {
                    assert(env.subrange(6 + kid_len as int + 12, 6 + kid_len as int + 28) == tag0);
                }
                assert(ct@ == ct0) by {
                    assert(env.subrange(6 + kid_len as int + 28, env.len() as int) == ct0);
                }
                assert(handle.key_bytes@ == kb0);
                assert(ct_and_tag@ =~= ct0 + tag0);
            }
            assert forall|kid0: Seq<char>, nonce0: Seq<u8>, tag0: Seq<u8>, ct0: Seq<u8>|
                        {
                            &&& lookup_rec(self.rec_model(), (repo_id@, record_key@)) == Some(
                                #[trigger] envelope_bytes(encode_utf8(kid0), nonce0, tag0, ct0),
                            )
                            &&& nonce0.len() == 12
                            &&& tag0.len() == 16
                            &&& encode_utf8(kid0).len() < 0x10000
                            &&& (self.kms matches Some(m) && lookup_key(
                                m.keys_model(),
                                kid0,
                            ) matches Some(kb0) && kb0.len() == 32 && (forall|pt: Seq<u8>|
                                ct0 + tag0 != aes_ct(
                                    kb0,
                                    nonce0,
                                    aad_bytes(repo_id@, kid0, record_key@),
                                    pt,
                                ) + aes_tag(
                                    kb0,
                                    nonce0,
                                    aad_bytes(repo_id@, kid0, record_key@),
                                    pt,
                                )))
                        } implies (ct_and_tag@ == ct0 + tag0 && nonce@ == nonce0 && aad@ == aad_bytes(
                repo_id@,
                kid0,
                record_key@,
            ) && (self.kms matches Some(m2) && lookup_key(m2.keys_model(), kid0) == Some(
                handle.key_bytes@,
            ))) by {
                vstd::utf8::encode_utf8_valid_utf8(kid0);
                        lemma_envelope_parts(encode_utf8(kid0), nonce0, tag0, ct0);
                assert(stored@ == envelope_bytes(encode_utf8(kid0), nonce0, tag0, ct0));
                assert(encode_utf8(kid@) == encode_utf8(kid0));
                assert(kid@ == kid0) by {
                    vstd::utf8::encode_utf8_decode_utf8(kid@);
                    vstd::utf8::encode_utf8_decode_utf8(kid0);
                }
                assert(kid_len as int == encode_utf8(kid0).len());
                assert(nonce@ == nonce0);
                assert(tag@ == tag0) by {
                    assert(stored@.subrange(6 + kid_len as int + 12, 6 + kid_len as int + 28)
                        == tag0);
                }
                assert(ct@ == ct0) by {
                    assert(stored@.subrange(
                        6 + kid_len as int + 28,
                        stored@.len() as int,
                    ) == ct0);
                }
                assert(ct_and_tag@ =~= ct0 + tag0);
            }
        }
        match opened {
            Some(pt) => {
                proof {
                    assert(ct_and_tag@ == ct@ + tag@);
                    assert(stored@ =~= envelope_bytes(encode_utf8(kid@), nonce@, tag@, ct@)) by {
                        assert(encode_utf8(kid@) == stored@.subrange(6, 6 + kid_len as int));
                        assert(stored@.subrange(0, 4) == seq![69u8, 86u8, 71u8, 49u8]);
                        assert(be16(kid_len as int) =~= stored@.subrange(4, 6)) by {
                            assert(stored@[4] as int * 256 + stored@[5] as int == kid_len as int);
                            assert(be16(kid_len as int)[0] == stored@[4]) by (nonlinear_arith)
                                requires
                                    stored@[4] as int * 256 + stored@[5] as int == kid_len as int,
                                    0 <= stored@[5] as int,
                                    (stored@[5] as int) < 256,
                                    0 <= stored@[4] as int,
                                    (stored@[4] as int) < 256,
                                    be16(kid_len as int)[0] as int == kid_len as int / 256,
                            ;
                            assert(be16(kid_len as int)[1] == stored@[5]) by (nonlinear_arith)
                                requires
                                    stored@[4] as int * 256 + stored@[5] as int == kid_len as int,
                                    0 <= stored@[5] as int,
                                    (stored@[5] as int) < 256,
                                    0 <= stored@[4] as int,
                                    (stored@[4] as int) < 256,
                                    be16(kid_len as int)[1] as int == kid_len as int % 256,
                            ;
                        }
                    }
                    assert(lookup_rec(self.rec_model(), (repo_id@, record_key@)) == Some(
                        envelope_bytes(encode_utf8(kid@), nonce@, tag@, ct@),
                    ));
                    assert(ct@ + tag@ == aes_ct(
                        handle.key_bytes@,
                        nonce@,
                        aad_bytes(repo_id@, kid@, record_key@),
                        pt@,
                    ) + aes_tag(
                        handle.key_bytes@,
                        nonce@,
                        aad_bytes(repo_id@, kid@, record_key@),
                        pt@,
                    ));
                }
                Ok(Some(pt))
            },
            None => {
                Err(StoreError::Encryption { detail: String::from_str("tamper detected") })
            },
        }
    }

    /// Count the entries, track the highest sequence, and advance the
    /// internal counter past it.
    pub fn replay(&mut self, entries: Vec<ReplayEntry>) -> (r: Result<ReplayStats, StoreError>)
        ensures
            old(self).wf() ==> final(self).wf(),
            final(self).rec_model() == old(self).rec_model(),
            final(self).kms == old(self).kms,
            final(self).encrypted() == old(self).encrypted(),
            r matches Ok(stats) ==> {
                &&& stats.applied == entries@.len()
                &&& stats.skipped == 0
                &&& stats.max_sequence == max_seq_of(entries.deep_view())
                &&& final(self).next_sequence as int >= old(self).next_sequence as int
                &&& (match max_seq_of(entries.deep_view()) {
                    Some(m) => final(self).next_sequence as int >= (if m as int + 1 <= u64::MAX {
                        m as int + 1
                    } else {
                        u64::MAX as int
                    }),
                    None => final(self).next_sequence == old(self).next_sequence,
                })
            },
            r is Ok,
    {
        let mut max_seq: Option<u64> = None;
        let mut applied: usize = 0;
        let mut i: usize = 0;
        let ghost models = entries.deep_view();
        while i < entries.len()
            invariant
                0 <= i <= entries@.len(),
                models == entries.deep_view(),
                models.len() == entries@.len(),
                applied == i,
                max_seq == max_seq_of(models.take(i as int)),
            decreases entries@.len() - i,
        {
            proof {
                lemma_max_seq_snoc(models, i as int);
                assert(models[i as int] == entries@[i as int].deep_view());
            }
            let sequence = entries[i].sequence;
            max_seq = match max_seq {
                None => Some(sequence),
                Some(m) => if m >= sequence {
                    Some(m)
                } else {
                    Some(sequence)
                },
            };
            applied = applied + 1;
            i = i + 1;
        }
        proof {
            assert(models.take(models.len() as int) =~= models);
        }
        match max_seq {
            Some(m) => {
                let floor = m.saturating_add(1);
                if floor > self.next_sequence {
                    self.next_sequence = floor;
                }
            },
            None => {},
        }
        proof {
            assert(self.records == old(self).records);
            assert(self.kms == old(self).kms);
            assert(self.rec_model() =~= old(self).rec_model());
            if old(self).wf() {
                assert forall|a: int, b: int|
                    0 <= a < b < self.rec_model().len() implies (
                #[trigger] self.rec_model()[a]).0 != (#[trigger] self.rec_model()[b]).0 by {
                    assert(old(self).rec_model()[a].0 != old(self).rec_model()[b].0);
                }
            }
        }
        Ok(ReplayStats { applied, skipped: 0, max_sequence: max_seq })
    }
}

/// The highest sequence among entry models.
pub open spec fn max_seq_of(entries: Seq<EntryModel>) -> Option<u64>
    decreases entries.len(),
{
    if entries.len() == 0 {
        None
    } else {
        let prev = max_seq_of(entries.drop_last());
        let s = entries.last().sequence;
        match prev {
            None => Some(s as u64),
            Some(m) => if m as int >= s {
                Some(m)
            } else {
                Some(s as u64)
            },
        }
    }
}

proof fn lemma_max_seq_snoc(entries: Seq<EntryModel>, i: int)
    requires
        0 <= i < entries.len(),
    ensures
        max_seq_of(entries.take(i + 1)) == (match max_seq_of(entries.take(i)) {
            None => Some(entries[i].sequence as u64),
            Some(m) => if m as int >= entries[i].sequence {
                Some(m)
            } else {
                Some(entries[i].sequence as u64)
            },
        }),
{
    assert(entries.take(i + 1).drop_last() =~= entries.take(i));
    assert(entries.take(i + 1).last() == entries[i]);
}

/// An update keeps all other lookups.
proof fn lemma_lookup_rec_update(
    records: Seq<((Seq<char>, Seq<char>), Seq<u8>)>,
    i: int,
    key: (Seq<char>, Seq<char>),
    bytes: Seq<u8>,
)
    requires
        0 <= i < records.len(),
        records[i].0 == key,
        forall|a: int, b: int|
            0 <= a < b < records.len() ==> (#[trigger] records[a]).0 != (#[trigger] records[b]).0,
    ensures
        lookup_rec(records.update(i, (key, bytes)), key) == Some(bytes),
        forall|other: (Seq<char>, Seq<char>)|
            other != key ==> #[trigger] lookup_rec(records.update(i, (key, bytes)), other)
                == lookup_rec(records, other),
        forall|a: int, b: int|
            0 <= a < b < records.update(i, (key, bytes)).len() ==> (#[trigger] records.update(
                i,
                (key, bytes),
            )[a]).0 != (#[trigger] records.update(i, (key, bytes))[b]).0,
    decreases records.len(),
{
    let updated = records.update(i, (key, bytes));
    if i == 0 {
        assert(updated[0] == (key, bytes));
        assert(updated.drop_first() =~= records.drop_first());
        assert(lookup_rec(updated, key) == Some(bytes));
        assert forall|other: (Seq<char>, Seq<char>)| other != key implies #[trigger] lookup_rec(
            updated,
            other,
        ) == lookup_rec(records, other) by {
            assert(lookup_rec(updated, other) == lookup_rec(updated.drop_first(), other));
            assert(lookup_rec(records, other) == lookup_rec(records.drop_first(), other));
        }
    } else {
        assert(updated[0] == records[0]);
        assert(updated.drop_first() =~= records.drop_first().update(i - 1, (key, bytes)));
        assert forall|a: int, b: int|
            0 <= a < b < records.drop_first().len() implies (
        #[trigger] records.drop_first()[a]).0 != (#[trigger] records.drop_first()[b]).0 by {
            assert(records.drop_first()[a] == records[a + 1]);
            assert(records.drop_first()[b] == records[b + 1]);
        }
        assert(records.drop_first()[i - 1].0 == key);
        lemma_lookup_rec_update(records.drop_first(), i - 1, key, bytes);
        assert(records[0].0 != key) by {
            assert(records[0].0 != records[i].0);
        }
        assert(lookup_rec(updated, key) == lookup_rec(updated.drop_first(), key));
        assert(lookup_rec(updated, key) == Some(bytes));
        assert forall|other: (Seq<char>, Seq<char>)| other != key implies #[trigger] lookup_rec(
            updated,
            other,
        ) == lookup_rec(records, other) by {
            if records[0].0 == other {
                assert(lookup_rec(updated, other) == Some(updated[0].1));
                assert(lookup_rec(records, other) == Some(records[0].1));
            } else {
                assert(lookup_rec(updated, other) == lookup_rec(updated.drop_first(), other));
                assert(lookup_rec(records, other) == lookup_rec(records.drop_first(), other));
            }
        }
    }
    assert forall|a: int, b: int|
        0 <= a < b < updated.len() implies (#[trigger] updated[a]).0 != (
    #[trigger] updated[b]).0 by {
        assert(updated[a].0 == records[a].0);
        assert(updated[b].0 == records[b].0);
    }
}

/// A push of a fresh key keeps all other lookups and uniqueness.
proof fn lemma_lookup_rec_push(
    records: Seq<((Seq<char>, Seq<char>), Seq<u8>)>,
    key: (Seq<char>, Seq<char>),
    bytes: Seq<u8>,
)
    requires
        lookup_rec(records, key) is None,
        forall|a: int, b: int|
            0 <= a < b < records.len() ==> (#[trigger] records[a]).0 != (#[trigger] records[b]).0,
    ensures
        lookup_rec(records.push((key, bytes)), key) == Some(bytes),
        forall|other: (Seq<char>, Seq<char>)|
            other != key ==> #[trigger] lookup_rec(records.push((key, bytes)), other)
                == lookup_rec(records, other),
        forall|a: int, b: int|
            0 <= a < b < records.push((key, bytes)).len() ==> (#[trigger] records.push(
                (key, bytes),
            )[a]).0 != (#[trigger] records.push((key, bytes))[b]).0,
    decreases records.len(),
{
    let pushed = records.push((key, bytes));
    lemma_lookup_none_no_key(records, key);
    if records.len() == 0 {
        assert(pushed[0] == (key, bytes));
        assert(pushed.drop_first() =~= Seq::<((Seq<char>, Seq<char>), Seq<u8>)>::empty());
        assert(lookup_rec(pushed, key) == Some(bytes));
        assert forall|other: (Seq<char>, Seq<char>)| other != key implies #[trigger] lookup_rec(
            pushed,
            other,
        ) == lookup_rec(records, other) by {
            assert(lookup_rec(pushed, other) == lookup_rec(pushed.drop_first(), other));
        }
    } else {
        assert(pushed[0] == records[0]);
        assert(pushed.drop_first() =~= records.drop_first().push((key, bytes)));
        assert forall|a: int, b: int|
            0 <= a < b < records.drop_first().len() implies (
        #[trigger] records.drop_first()[a]).0 != (#[trigger] records.drop_first()[b]).0 by {
            assert(records.drop_first()[a] == records[a + 1]);
            assert(records.drop_first()[b] == records[b + 1]);
        }
        assert(lookup_rec(records.drop_first(), key) is None) by {
            assert(lookup_rec(records, key) == lookup_rec(records.drop_first(), key));
        }
        lemma_lookup_rec_push(records.drop_first(), key, bytes);
        assert(records[0].0 != key);
        assert(lookup_rec(pushed, key) == lookup_rec(pushed.drop_first(), key));
        assert forall|other: (Seq<char>, Seq<char>)| other != key implies #[trigger] lookup_rec(
            pushed,
            other,
        ) == lookup_rec(records, other) by {
            if records[0].0 == other {
                assert(lookup_rec(pushed, other) == Some(pushed[0].1));
            } else {
                assert(lookup_rec(pushed, other) == lookup_rec(pushed.drop_first(), other));
                assert(lookup_rec(records, other) == lookup_rec(records.drop_first(), other));
            }
        }
    }
    assert forall|a: int, b: int|
        0 <= a < b < pushed.len() implies (#[trigger] pushed[a]).0 != (#[trigger] pushed[b]).0 by {
        if b < records.len() {
            assert(pushed[a].0 == records[a].0);
            assert(pushed[b].0 == records[b].0);
        } else {
            assert(pushed[b] == (key, bytes));
            assert(pushed[a].0 == records[a].0);
            assert(records[a].0 != key);
        }
    }
}

/// When a lookup fails, no entry holds the key.
proof fn lemma_lookup_none_no_key(
    records: Seq<((Seq<char>, Seq<char>), Seq<u8>)>,
    key: (Seq<char>, Seq<char>),
)
    requires
        lookup_rec(records, key) is None,
    ensures
        forall|k: int| 0 <= k < records.len() ==> (#[trigger] records[k]).0 != key,
    decreases records.len(),
{
    if records.len() > 0 {
        lemma_lookup_none_no_key(records.drop_first(), key);
        assert forall|k: int| 0 <= k < records.len() implies (#[trigger] records[k]).0 != key by {
            if k > 0 {
                assert(records.drop_first()[k - 1] == records[k]);
            }
        }
    }
}

/// Split a known two-part byte subrange into its parts.
proof fn lemma_bytes_split2(s: Seq<u8>, i: int, a: Seq<u8>, b: Seq<u8>)
    requires
        0 <= i,
        i + a.len() + b.len() <= s.len(),
        s.subrange(i, i + a.len() + b.len()) == a + b,
    ensures
        s.subrange(i, i + a.len()) == a,
        s.subrange(i + a.len(), i + a.len() + b.len()) == b,
{
    let whole = s.subrange(i, i + a.len() + b.len());
    assert forall|k: int| 0 <= k < a.len() implies s.subrange(i, i + a.len())[k] == a[k] by {
        assert(whole[k] == (a + b)[k]);
    }
    assert(s.subrange(i, i + a.len()) =~= a);
    assert forall|k: int| 0 <= k < b.len() implies s.subrange(
        i + a.len(),
        i + a.len() + b.len(),
    )[k] == b[k] by {
        assert(whole[a.len() + k] == (a + b)[a.len() + k]);
    }
    assert(s.subrange(i + a.len(), i + a.len() + b.len()) =~= b);
}

/// How a well-formed envelope decomposes at its offsets.
proof fn lemma_envelope_parts(kid: Seq<u8>, nonce: Seq<u8>, tag: Seq<u8>, ct: Seq<u8>)
    requires
        kid.len() < 0x10000,
        nonce.len() == 12,
        tag.len() == 16,
        vstd::utf8::valid_utf8(kid),
    ensures
        ({
            let b = envelope_bytes(kid, nonce, tag, ct);
            &&& b.len() == 34 + kid.len() + ct.len()
            &&& has_envelope_header(b)
            &&& b[4] as int * 256 + b[5] as int == kid.len()
            &&& b.subrange(6, 6 + kid.len() as int) == kid
            &&& b.subrange(6 + kid.len() as int, 6 + kid.len() as int + 12) == nonce
            &&& b.subrange(6 + kid.len() as int + 12, 6 + kid.len() as int + 28) == tag
            &&& b.subrange(6 + kid.len() as int + 28, b.len() as int) == ct
        }),
{
    let b = envelope_bytes(kid, nonce, tag, ct);
    let magic = seq![69u8, 86u8, 71u8, 49u8];
    let klen = kid.len() as int;
    assert(b =~= magic + (be16(klen) + (kid + (nonce + (tag + ct)))));
    assert(b.subrange(0, b.len() as int) =~= b);
    lemma_bytes_split2(b, 0, magic, be16(klen) + (kid + (nonce + (tag + ct))));
    lemma_bytes_split2(b, 4, be16(klen), kid + (nonce + (tag + ct)));
    lemma_bytes_split2(b, 6, kid, nonce + (tag + ct));
    lemma_bytes_split2(b, 6 + klen, nonce, tag + ct);
    lemma_bytes_split2(b, 6 + klen + 12, tag, ct);
    assert(b.subrange(4, 6)[0] == b[4]);
    assert(b.subrange(4, 6)[1] == b[5]);
    assert(b[4] as int == klen / 256 && b[5] as int == klen % 256);
    assert(b.subrange(0, 4) == magic);
    assert(b.subrange(6 + klen + 28, b.len() as int) =~= ct) by {
        assert(b.subrange(6 + klen + 12 + 16, 6 + klen + 12 + 16 + ct.len()) == ct);
    }
}


/// Bytes that pass through the path encoding unescaped.
pub open spec fn path_safe_byte(b: u8) -> bool {
    ||| (48 <= b && b <= 57)
    ||| (97 <= b && b <= 122)
    ||| (65 <= b && b <= 90)
    ||| b == 45
    ||| b == 95
    ||| b == 46
}

/// Percent-encoding of a byte sequence for path safety: alphanumerics,
/// dash, underscore and dot pass through; everything else becomes a
/// percent escape with upper-case hex.
pub open spec fn pct_of(bytes: Seq<u8>) -> Seq<char>
    decreases bytes.len(),
{
    if bytes.len() == 0 {
        Seq::<char>::empty()
    } else {
        let head = if path_safe_byte(bytes[0]) {
            seq![bytes[0] as char]
        } else {
            seq![
                '%',
                crate::numfmt::hex_digit_upper(bytes[0] as int / 16),
                crate::numfmt::hex_digit_upper(bytes[0] as int % 16),
            ]
        };
        head + pct_of(bytes.drop_first())
    }
}

/// Percent-encode one path component.
pub fn encode_component(s: &String) -> (r: String)
    ensures
        r@ == pct_of(encode_utf8(s@)),
{
    let bytes = string_to_bytes(s);
    let mut out: Vec<char> = Vec::new();
    let mut i: usize = 0;
    while i < bytes.len()
        invariant
            0 <= i <= bytes@.len(),
            bytes@ == encode_utf8(s@),
            out@ == pct_of(bytes@.take(i as int)),
        decreases bytes@.len() - i,
    {
        let b = bytes[i];
        let safe = (48 <= b && b <= 57) || (97 <= b && b <= 122) || (65 <= b && b <= 90) || b == 45
            || b == 95 || b == 46;
        if safe {
            let c = b as char;
            out.push(c);
        } else {
            out.push('%');
            out.push(crate::numfmt::hex_char_upper(b / 16));
            out.push(crate::numfmt::hex_char_upper(b % 16));
        }
        proof {
            lemma_pct_snoc(bytes@, i as int);
            assert(out@ =~= pct_of(bytes@.take(i + 1)));
        }
        i = i + 1;
    }
    proof {
        assert(bytes@.take(bytes@.len() as int) =~= bytes@);
    }
    chars_to_string(&out)
}

/// The relative storage path of a record: encoded repo, then encoded key.
pub fn make_path(repo_id: &String, record_key: &String) -> (r: (String, String))
    ensures
        r.0@ == pct_of(encode_utf8(repo_id@)),
        r.1@ == pct_of(encode_utf8(record_key@)),
{
    (encode_component(repo_id), encode_component(record_key))
}

proof fn lemma_pct_snoc(bytes: Seq<u8>, i: int)
    requires
        0 <= i < bytes.len(),
    ensures
        pct_of(bytes.take(i + 1)) == pct_of(bytes.take(i)) + (if path_safe_byte(bytes[i]) {
            seq![bytes[i] as char]
        } else {
            seq![
                '%',
                crate::numfmt::hex_digit_upper(bytes[i] as int / 16),
                crate::numfmt::hex_digit_upper(bytes[i] as int % 16),
            ]
        }),
    decreases i,
{
    if i == 0 {
        assert(bytes.take(1).drop_first() =~= Seq::<u8>::empty());
        assert(bytes.take(0) =~= Seq::<u8>::empty());
        assert(bytes.take(1)[0] == bytes[0]);
        assert(pct_of(bytes.take(i + 1)) =~= pct_of(bytes.take(i)) + (if path_safe_byte(
            bytes[i],
        ) {
            seq![bytes[i] as char]
        } else {
            seq![
                '%',
                crate::numfmt::hex_digit_upper(bytes[i] as int / 16),
                crate::numfmt::hex_digit_upper(bytes[i] as int % 16),
            ]
        }));
    } else {
        lemma_pct_snoc(bytes.drop_first(), i - 1);
        assert(bytes.take(i + 1).drop_first() =~= bytes.drop_first().take(i));
        assert(bytes.take(i).drop_first() =~= bytes.drop_first().take(i - 1));
        assert(bytes.take(i + 1)[0] == bytes[0]);
        assert(bytes.take(i)[0] == bytes[0]);
        assert(bytes.drop_first()[i - 1] == bytes[i]);
        assert(pct_of(bytes.take(i + 1)) =~= pct_of(bytes.take(i)) + (if path_safe_byte(
            bytes[i],
        ) {
            seq![bytes[i] as char]
        } else {
            seq![
                '%',
                crate::numfmt::hex_digit_upper(bytes[i] as int / 16),
                crate::numfmt::hex_digit_upper(bytes[i] as int % 16),
            ]
        }));
    }
}

} // verus!
