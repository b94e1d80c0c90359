//! Deterministic hash-derived embedding vectors and the batch fingerprint.
//!
//! Each chunk's digest is packed into big-endian sixteen-bit words with
//! wrap-around indexing; consumers normalize the words into unit-interval
//! floats, which stay outside the verified core.

use vstd::prelude::*;
use crate::crypto::{b3, blake3_hash};
use crate::numfmt::{hex_of, push_hex};
use crate::sanitize::SanitizedChunk;
use crate::strutil::{chars_to_string, push_str_chars, string_to_bytes};
use vstd::utf8::encode_utf8;

verus! {

/// Encoder identity and vector dimensionality.
pub struct EmbeddingConfig {
    pub encoder_id: String,
    pub dimensions: usize,
}

impl EmbeddingConfig {
    pub fn new(encoder_id: String, dimensions: usize) -> (r: EmbeddingConfig)
        ensures
            r.encoder_id == encoder_id,
            r.dimensions == dimensions,
    {
        EmbeddingConfig { encoder_id, dimensions }
    }

    pub fn duplicate(&self) -> (r: EmbeddingConfig)
        ensures
            r.encoder_id@ == self.encoder_id@,
            r.dimensions == self.dimensions,
    {
        EmbeddingConfig { encoder_id: self.encoder_id.clone(), dimensions: self.dimensions }
    }
}

/// A batch of derived vectors with its compression fingerprint.
pub struct EmbeddingBatch {
    pub encoder_id: String,
    pub vectors: Vec<Vec<u16>>,
    pub compression_fingerprint: String,
}

#[derive(Debug)]
pub enum EmbeddingError {
    InvalidDimensions,
}

/// The bytes a chunk contributes to digests: its plan id then its scrubbed
/// payload.
pub open spec fn chunk_bytes(plan_id: Seq<char>, scrubbed: Seq<char>) -> Seq<u8> {
    encode_utf8(plan_id) + encode_utf8(scrubbed)
}

/// The digest words of one chunk: consecutive digest byte pairs, big-endian,
/// indices wrapping around the 32-byte digest.
pub open spec fn vector_words(digest: Seq<u8>, dims: int) -> Seq<u16> {
    Seq::new(
        dims as nat,
        |k: int|
            (digest[(2 * k) % 32] as int * 256 + digest[(2 * k + 1) % 32] as int) as u16,
    )
}

/// The concatenated contribution of all chunks, in order.
pub open spec fn batch_bytes(chunks: Seq<(Seq<char>, Seq<char>)>) -> Seq<u8>
    decreases chunks.len(),
{
    if chunks.len() == 0 {
        Seq::<u8>::empty()
    } else {
        chunk_bytes(chunks[0].0, chunks[0].1) + batch_bytes(chunks.drop_first())
    }
}

/// The chunk inputs of a batch: plan id and scrubbed payload of each chunk.
pub open spec fn chunk_inputs(chunks: Seq<SanitizedChunk>) -> Seq<(Seq<char>, Seq<char>)> {
    chunks.map_values(|c: SanitizedChunk| (c.plan_id@, c.scrubbed_payload@))
}

/// Derives vectors from chunk digests and the batch fingerprint.
pub struct EmbeddingGenerator {
    pub config: EmbeddingConfig,
}

impl EmbeddingGenerator {
    pub fn new(config: EmbeddingConfig) -> (r: EmbeddingGenerator)
        ensures
            r.config == config,
    {
        EmbeddingGenerator { config }
    }

    /// Encode a batch: rejects a zero dimensionality; otherwise each chunk
    /// yields the words of its digest and the fingerprint hashes every
    /// chunk's contribution in order.
    #[verifier::loop_isolation(false)]
    pub fn encode(&self, chunks: &Vec<SanitizedChunk>) -> (r: Result<
        EmbeddingBatch,
        EmbeddingError,
    >)
        ensures
            r is Err <==> self.config.dimensions == 0,
            r matches Ok(batch) ==> {
                let inputs = chunk_inputs(chunks@);
                &&& batch.encoder_id@ == self.config.encoder_id@
                &&& batch.vectors@.len() == chunks@.len()
                &&& forall|k: int|
                    0 <= k < chunks@.len() ==> (#[trigger] batch.vectors@[k])@ == vector_words(
                        b3(chunk_bytes(inputs[k].0, inputs[k].1)),
                        self.config.dimensions as int,
                    )
                &&& batch.compression_fingerprint@ == "comp:"@ + hex_of(b3(batch_bytes(inputs)))
            },
    {
        if self.config.dimensions == 0 {
            return Err(EmbeddingError::InvalidDimensions);
        }
        let ghost inputs = chunk_inputs(chunks@);
        let mut vectors: Vec<Vec<u16>> = Vec::new();
        let mut fingerprint_input: Vec<u8> = Vec::new();
        let mut i: usize = 0;
        while i < chunks.len()
            invariant
                0 <= i <= chunks@.len(),
                self.config.dimensions > 0,
                vectors@.len() == i,
                forall|k: int|
                    0 <= k < i ==> (#[trigger] vectors@[k])@ == vector_words(
                        b3(chunk_bytes(inputs[k].0, inputs[k].1)),
                        self.config.dimensions as int,
                    ),
                fingerprint_input@ == batch_bytes(inputs.take(i as int)),
            decreases chunks@.len() - i,
        {
            let chunk = &chunks[i];
            let mut piece = string_to_bytes(&chunk.plan_id);
            let mut payload_piece = string_to_bytes(&chunk.scrubbed_payload);
            let mut contribution = piece;
            contribution.append(&mut payload_piece);
            proof {
                assert(contribution@ =~= chunk_bytes(inputs[i as int].0, inputs[i as int].1));
            }
            let digest = blake3_hash(&contribution);
            let vector = self.vector_for_digest(&digest);
            vectors.push(vector);
            let ghost fp_pre = fingerprint_input@;
            let mut contribution2 = contribution;
            fingerprint_input.append(&mut contribution2);
            proof {
                lemma_batch_bytes_snoc(inputs, i as int);
                assert(fingerprint_input@ =~= batch_bytes(inputs.take(i + 1)));
            }
            i = i + 1;
        }
        proof {
            assert(inputs.take(inputs.len() as int) =~= inputs);
        }
        let fingerprint_digest = blake3_hash(&fingerprint_input);
        let mut fp: Vec<char> = Vec::new();
        push_str_chars(&mut fp, "comp:");
        push_hex(&fingerprint_digest, &mut fp);
        Ok(
            EmbeddingBatch {
                encoder_id: self.config.encoder_id.clone(),
                vectors,
                compression_fingerprint: chars_to_string(&fp),
            },
        )
    }

    /// Pack a 32-byte digest into the configured number of words.
    fn vector_for_digest(&self, digest: &Vec<u8>) -> (r: Vec<u16>)
        requires
            digest@.len() == 32,
        ensures
            r@ == vector_words(digest@, self.config.dimensions as int),
    {
        let mut out: Vec<u16> = Vec::new();
        let mut k: usize = 0;
        while k < self.config.dimensions
            invariant
                0 <= k <= self.config.dimensions,
                digest@.len() == 32,
                out@.len() == k,
                forall|t: int|
                    0 <= t < k ==> out@[t] == (digest@[(2 * t) % 32] as int * 256 + digest@[(2 * t
                        + 1) % 32] as int) as u16,
            decreases self.config.dimensions - k,
        {
            let idx = (2 * (k % 32)) % 32;
            let idx2 = (2 * (k % 32) + 1) % 32;
            proof {
                assert((2 * (k % 32)) % 32 == (2 * (k as int)) % 32) by (nonlinear_arith);
                assert((2 * (k % 32) + 1) % 32 == (2 * (k as int) + 1) % 32) by (nonlinear_arith);
            }
            let b1 = digest[idx];
            let b2 = digest[idx2];
            let word: u16 = (b1 as u16) * 256 + (b2 as u16);
            out.push(word);
            k = k + 1;
        }
        proof {
            assert(out@ =~= vector_words(digest@, self.config.dimensions as int));
        }
        out
    }
}

/// Splitting the fingerprint input after one more chunk.
proof fn lemma_batch_bytes_snoc(chunks: Seq<(Seq<char>, Seq<char>)>, i: int)
    requires
        0 <= i < chunks.len(),
    ensures
        batch_bytes(chunks.take(i + 1)) == batch_bytes(chunks.take(i)) + chunk_bytes(
            chunks[i].0,
            chunks[i].1,
        ),
    decreases i,
{
    if i == 0 {
        assert(chunks.take(1).drop_first() =~= Seq::<(Seq<char>, Seq<char>)>::empty());
        assert(chunks.take(0) =~= Seq::<(Seq<char>, Seq<char>)>::empty());
        assert(chunks.take(1)[0] == chunks[0]);
        assert(batch_bytes(chunks.take(1)) =~= batch_bytes(chunks.take(0)) + chunk_bytes(
            chunks[0].0,
            chunks[0].1,
        ));
    } else {
        lemma_batch_bytes_snoc(chunks.drop_first(), i - 1);
        assert(chunks.take(i + 1).drop_first() =~= chunks.drop_first().take(i));
        assert(chunks.take(i).drop_first() =~= chunks.drop_first().take(i - 1));
        assert(chunks.take(i + 1)[0] == chunks[0]);
        assert(chunks.take(i)[0] == chunks[0]);
        assert(chunks.drop_first()[i - 1] == chunks[i]);
        assert(batch_bytes(chunks.take(i + 1)) =~= batch_bytes(chunks.take(i)) + chunk_bytes(
            chunks[i].0,
            chunks[i].1,
        ));
    }
}

} // verus!
