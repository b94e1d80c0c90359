//! STDIO transport: length-prefixed checksum-authenticated frames with an
//! embedded session token, frame dispatch into the router, and the retry
//! buffer for recoverable units.

use vstd::prelude::*;
use crate::buffer::{AgedFifo, keep_fresh, clamp_front, bump_seq};
use crate::crypto::{b3, blake3_hash};
use crate::json::{JsonValue, JsonVal, jview, jview_fields, lemma_jview_fields_index, lemma_jview_is_str, obj_lookup, ser_val, representable, to_json_string};
use crate::jsonparse::parse_json_bytes;
use crate::router::{
    CommandRouter, CtxModel, CmdModel, RespModel, RErrModel, RouterCommand, RouterError,
    RouterResponse, SessionContext, result_model,
};
use crate::token::{EnvModel, IssuedToken, TokenEnvelope, TokenError, TokenSigner, token_chars, wf_model};
use crate::strutil::{
    bytes_eq, bytes_subrange, bytes_to_string, chars_to_string, now_millis, principal_allowed,
    push_str_chars, str_eq, string_to_bytes,
};
use crate::wire::{be16, be32, push_be16, push_be32, read_be16, read_be32};
use vstd::utf8::encode_utf8;
use vstd::string::StringExecFns;

verus! {

/// STDIO adapter configuration.
pub struct StdioConfig {
    pub max_frame_length: usize,
    pub allowed_principals: Vec<String>,
    pub token_secret: String,
}

impl StdioConfig {
    /// Frames must leave room for the header and checksum, and someone must
    /// be allowed in.
    pub fn validate(&self) -> (r: Result<(), TransportError>)
        ensures
            r is Ok <==> self.max_frame_length >= 64 && self.allowed_principals@.len() > 0,
    {
        if self.max_frame_length < 64 {
            return Err(TransportError::Configuration(
                String::from_str("max frame length must be >= 64 bytes"),
            ));
        }
        if self.allowed_principals.len() == 0 {
            return Err(TransportError::Configuration(
                String::from_str("at least one principal must be allowed"),
            ));
        }
        Ok(())
    }
}

/// STDIO session token.
#[derive(Debug)]
pub struct SessionToken {
    pub token: String,
}

/// Serialized STDIO frame.
#[derive(Debug)]
pub struct StdioFrame {
    pub payload: Vec<u8>,
}

/// Errors exposed by the STDIO adapter.
#[derive(Debug)]
pub enum TransportError {
    Configuration(String),
    Unauthorized(String),
    Framing(String),
    Router(RouterError),
}

impl TransportError {
    /// The status code of a wrapped router error.
    pub fn router_status_code(&self) -> (r: Option<u16>)
        ensures
            match self {
                TransportError::Router(e) => r matches Some(c) && c as int
                    == RouterError::model_status(e.view_model()),
                _ => r is None,
            },
    {
        match self {
            TransportError::Router(err) => Some(err.status_code()),
            _ => None,
        }
    }
}

/// The sixteen-byte keyed checksum of a frame head: the first sixteen
/// bytes of its hash.
pub open spec fn mac16(data: Seq<u8>) -> Seq<u8> {
    Seq::new(16, |i: int| b3(data)[i])
}

/// The byte layout of a frame: payload length, token length, payload,
/// token, then the first sixteen bytes of the hash of everything before.
pub open spec fn frame_bytes(payload: Seq<u8>, token: Seq<u8>) -> Seq<u8> {
    let head = be32(payload.len() as int) + be16(token.len() as int) + payload + token;
    head + mac16(head)
}

/// Framing codec binding a signer and a maximum frame length.
pub struct FramingCodec {
    pub max_frame_length: usize,
    pub signer: TokenSigner,
}

impl FramingCodec {
    pub fn new(max_frame_length: usize, signer: TokenSigner) -> (r: FramingCodec)
        ensures
            r.max_frame_length == max_frame_length,
            r.signer == signer,
    {
        FramingCodec { max_frame_length, signer }
    }

    /// The completeness half of framing, read at one clock reading: a
    /// canonical unexpired token is never refused as unauthorized, and a
    /// frame that also fits the length bounds is produced.
    pub open spec fn encode_complete(
        &self,
        json: JsonVal,
        token: Seq<char>,
        now_secs: u64,
        r: Result<StdioFrame, TransportError>,
    ) -> bool {
        &&& forall|m: EnvModel|
            wf_model(m) && token == #[trigger] token_chars(
                self.signer.secret@,
                self.signer.with_csrf,
                m,
            ) && m.expires > now_secs && 22 + encode_utf8(ser_val(json)).len() + encode_utf8(
                token,
            ).len() <= self.max_frame_length && encode_utf8(ser_val(json)).len() < 0x100000000
                && encode_utf8(token).len() < 0x10000 ==> r is Ok
        &&& forall|m: EnvModel|
            wf_model(m) && token == #[trigger] token_chars(
                self.signer.secret@,
                self.signer.with_csrf,
                m,
            ) && m.expires > now_secs ==> !(r matches Err(e) && e is Unauthorized)
    }

    /// The completeness half of unframing, read at one clock reading: a
    /// canonical frame carrying an unexpired token decodes to its payload
    /// and token.
    pub open spec fn decode_complete(
        &self,
        fp: Seq<u8>,
        now_secs: u64,
        r: Result<(JsonValue, String), TransportError>,
    ) -> bool {
        forall|w: JsonVal, m: EnvModel|
            representable(w) && wf_model(m) && m.expires > now_secs && fp
                == #[trigger] frame_bytes(
                encode_utf8(ser_val(w)),
                encode_utf8(token_chars(self.signer.secret@, self.signer.with_csrf, m)),
            ) && fp.len() <= self.max_frame_length && encode_utf8(ser_val(w)).len() < 0x100000000
                && encode_utf8(
                token_chars(self.signer.secret@, self.signer.with_csrf, m),
            ).len() < 0x10000 ==> (r matches Ok(p) && jview(p.0) == w && p.1@ == token_chars(
                self.signer.secret@,
                self.signer.with_csrf,
                m,
            ))
    }

    /// Frame a payload under a token that must itself verify at `now_secs`.
    pub fn encode_at(&self, json: &JsonValue, token: &SessionToken, now_secs: u64) -> (r: Result<
        StdioFrame,
        TransportError,
    >)
        ensures
            r matches Ok(f) ==> f.payload@ == frame_bytes(
                encode_utf8(ser_val(jview(*json))),
                encode_utf8(token.token@),
            ) && f.payload@.len() <= self.max_frame_length,
            forall|m: EnvModel|
                wf_model(m) && token.token@ == #[trigger] token_chars(
                    self.signer.secret@,
                    self.signer.with_csrf,
                    m,
                ) && m.expires > now_secs && 22 + encode_utf8(ser_val(jview(*json))).len()
                    + encode_utf8(token.token@).len() <= self.max_frame_length && encode_utf8(
                    ser_val(jview(*json)),
                ).len() < 0x100000000 && encode_utf8(token.token@).len() < 0x10000 ==> r is Ok,
            r matches Err(e) ==> (e is Framing || e is Unauthorized),
            forall|m: EnvModel|
                wf_model(m) && token.token@ == #[trigger] token_chars(
                    self.signer.secret@,
                    self.signer.with_csrf,
                    m,
                ) && m.expires > now_secs ==> !(r matches Err(e) && e is Unauthorized),
    {
        match self.signer.verify_at(token.token.as_str(), now_secs) {
            Ok(_) => {},
            Err(_) => {
                return Err(TransportError::Unauthorized(
                    String::from_str("token failed verification"),
                ));
            },
        }
        self.encode_frame(json, token)
    }

    /// Frame a payload under an already-verified token: the framing half of
    /// `encode_at`, which callers use after checking the token themselves.
    pub fn encode_frame(&self, json: &JsonValue, token: &SessionToken) -> (r: Result<
        StdioFrame,
        TransportError,
    >)
        ensures
            r matches Ok(f) ==> f.payload@ == frame_bytes(
                encode_utf8(ser_val(jview(*json))),
                encode_utf8(token.token@),
            ) && f.payload@.len() <= self.max_frame_length,
            22 + encode_utf8(ser_val(jview(*json))).len() + encode_utf8(token.token@).len()
                <= self.max_frame_length && encode_utf8(ser_val(jview(*json))).len() < 0x100000000
                && encode_utf8(token.token@).len() < 0x10000 ==> r is Ok,
            r matches Err(e) ==> e is Framing,
    {
        let text = to_json_string(json);
        let payload_bytes = string_to_bytes(&text);
        let token_bytes = string_to_bytes(&token.token);
        if payload_bytes.len() as u64 >= 0x100000000u64 {
            return Err(TransportError::Framing(String::from_str("payload too large")));
        }
        if token_bytes.len() >= 0x10000 {
            return Err(TransportError::Framing(String::from_str("token too large")));
        }
        if self.max_frame_length < 22 || payload_bytes.len() > self.max_frame_length - 22
            || token_bytes.len() > self.max_frame_length - 22 - payload_bytes.len() {
            return Err(TransportError::Framing(
                String::from_str("frame exceeds maximum length"),
            ));
        }
        let mut head: Vec<u8> = Vec::new();
        push_be32(payload_bytes.len() as u32, &mut head);
        push_be16(token_bytes.len() as u16, &mut head);
        let mut payload2 = payload_bytes;
        head.append(&mut payload2);
        let mut token2 = token_bytes;
        head.append(&mut token2);
        let digest = blake3_hash(&head);
        let checksum = bytes_subrange(&digest, 0, 16);
        let mut out = head;
        let mut checksum2 = checksum;
        out.append(&mut checksum2);
        proof {
            assert(out@ =~= frame_bytes(
                encode_utf8(ser_val(jview(*json))),
                encode_utf8(token.token@),
            ));
        }
        Ok(StdioFrame { payload: out })
    }

    /// Frame a payload against the wall clock.
    pub fn encode(&self, json: &JsonValue, token: &SessionToken) -> (r: Result<
        StdioFrame,
        TransportError,
    >)
        ensures
            r matches Ok(f) ==> f.payload@ == frame_bytes(
                encode_utf8(ser_val(jview(*json))),
                encode_utf8(token.token@),
            ) && f.payload@.len() <= self.max_frame_length,
            r matches Err(e) ==> (e is Framing || e is Unauthorized),
            exists|now_secs: u64| #[trigger] self.encode_complete(
                jview(*json),
                token.token@,
                now_secs,
                r,
            ),
    {
        let now = now_millis() / 1000;
        let r = self.encode_at(json, token, now);
        proof {
            assert(self.encode_complete(jview(*json), token.token@, now, r));
        }
        r
    }

    /// Unframe: check sizes, lengths and the checksum, parse the payload
    /// and verify the embedded token. Every frame produced by `encode_at`
    /// under an unexpired token decodes back to its payload and token.
    #[verifier::rlimit(100)]
    pub fn decode_at(&self, frame: &StdioFrame, now_secs: u64) -> (r: Result<
        (JsonValue, String),
        TransportError,
    >)
        ensures
            forall|w: JsonVal, m: EnvModel|
                representable(w) && wf_model(m) && m.expires > now_secs && frame.payload@
                    == #[trigger] frame_bytes(
                    encode_utf8(ser_val(w)),
                    encode_utf8(
                        token_chars(self.signer.secret@, self.signer.with_csrf, m),
                    ),
                ) && frame.payload@.len() <= self.max_frame_length && encode_utf8(
                    ser_val(w),
                ).len() < 0x100000000 && encode_utf8(
                    token_chars(self.signer.secret@, self.signer.with_csrf, m),
                ).len() < 0x10000 ==> (r matches Ok(p) && jview(p.0) == w && p.1@ == token_chars(
                    self.signer.secret@,
                    self.signer.with_csrf,
                    m,
                )),
            r matches Err(e) ==> (e is Framing || e is Unauthorized),
    {
        let n = frame.payload.len();
        if n < 22 {
            proof {
                self.lemma_decode_good(frame.payload@, now_secs);
            }
            return Err(TransportError::Framing(String::from_str("frame too short")));
        }
        if n > self.max_frame_length {
            return Err(TransportError::Framing(
                String::from_str("frame exceeds maximum length"),
            ));
        }
        let payload_len = read_be32(&frame.payload, 0) as usize;
        let token_len = read_be16(&frame.payload, 4) as usize;
        proof {
            self.lemma_decode_good(frame.payload@, now_secs);
        }
        if payload_len > n - 22 || token_len > n - 22 - payload_len || 22 + payload_len + token_len
            != n {
            return Err(TransportError::Framing(String::from_str("frame length mismatch")));
        }
        let head = bytes_subrange(&frame.payload, 0, n - 16);
        let trailer = bytes_subrange(&frame.payload, n - 16, n);
        let digest = blake3_hash(&head);
        let expected = bytes_subrange(&digest, 0, 16);
        if !bytes_eq(&trailer, &expected) {
            proof {
                assert forall|w: JsonVal, m: EnvModel| representable(w) && wf_model(m) && m.expires > now_secs && frame.payload@
                    == #[trigger] frame_bytes(
                    encode_utf8(ser_val(w)),
                    encode_utf8(token_chars(self.signer.secret@, self.signer.with_csrf, m)),
                ) && frame.payload@.len() <= self.max_frame_length && encode_utf8(
                    ser_val(w),
                ).len() < 0x100000000 && encode_utf8(
                    token_chars(self.signer.secret@, self.signer.with_csrf, m),
                ).len() < 0x10000 implies false by {
                    let p = encode_utf8(ser_val(w));
                    let t = encode_utf8(
                        token_chars(self.signer.secret@, self.signer.with_csrf, m),
                    );
                    let head0 = be32(p.len() as int) + be16(t.len() as int) + p + t;
                    assert(head@ == head0);
                    assert(trailer@ == mac16(head0));
                    assert(expected@ =~= mac16(head0));
                }
            }
            return Err(TransportError::Framing(String::from_str("checksum mismatch")));
        }
        let payload_bytes = bytes_subrange(&frame.payload, 6, 6 + payload_len);
        let token_bytes = bytes_subrange(
            &frame.payload,
            6 + payload_len,
            6 + payload_len + token_len,
        );
        let value = match parse_json_bytes(&payload_bytes) {
            Some(v) => v,
            None => {
                proof {
                    assert forall|w: JsonVal, m: EnvModel| representable(w) && wf_model(m) && m.expires > now_secs && frame.payload@
                    == #[trigger] frame_bytes(
                    encode_utf8(ser_val(w)),
                    encode_utf8(token_chars(self.signer.secret@, self.signer.with_csrf, m)),
                ) && frame.payload@.len() <= self.max_frame_length && encode_utf8(
                    ser_val(w),
                ).len() < 0x100000000 && encode_utf8(
                    token_chars(self.signer.secret@, self.signer.with_csrf, m),
                ).len() < 0x10000 implies false by {
                    let p = encode_utf8(ser_val(w));
                    let t = encode_utf8(
                        token_chars(self.signer.secret@, self.signer.with_csrf, m),
                    );
                    let head0 = be32(p.len() as int) + be16(t.len() as int) + p + t;
                        assert(payload_bytes@ == p);
                    }
                }
                return Err(TransportError::Framing(String::from_str("invalid json")));
            },
        };
        let token_text = match bytes_to_string(&token_bytes) {
            Some(t) => t,
            None => {
                proof {
                    assert forall|w: JsonVal, m: EnvModel| representable(w) && wf_model(m) && m.expires > now_secs && frame.payload@
                    == #[trigger] frame_bytes(
                    encode_utf8(ser_val(w)),
                    encode_utf8(token_chars(self.signer.secret@, self.signer.with_csrf, m)),
                ) && frame.payload@.len() <= self.max_frame_length && encode_utf8(
                    ser_val(w),
                ).len() < 0x100000000 && encode_utf8(
                    token_chars(self.signer.secret@, self.signer.with_csrf, m),
                ).len() < 0x10000 implies false by {
                    let p = encode_utf8(ser_val(w));
                    let t = encode_utf8(
                        token_chars(self.signer.secret@, self.signer.with_csrf, m),
                    );
                    let head0 = be32(p.len() as int) + be16(t.len() as int) + p + t;
                        assert(token_bytes@ == t);
                        vstd::utf8::encode_utf8_valid_utf8(
                            token_chars(self.signer.secret@, self.signer.with_csrf, m),
                        );
                    }
                }
                return Err(TransportError::Framing(String::from_str("token not utf8")));
            },
        };
        proof {
            assert forall|w: JsonVal, m: EnvModel| representable(w) && wf_model(m) && m.expires > now_secs && frame.payload@
                    == #[trigger] frame_bytes(
                    encode_utf8(ser_val(w)),
                    encode_utf8(token_chars(self.signer.secret@, self.signer.with_csrf, m)),
                ) && frame.payload@.len() <= self.max_frame_length && encode_utf8(
                    ser_val(w),
                ).len() < 0x100000000 && encode_utf8(
                    token_chars(self.signer.secret@, self.signer.with_csrf, m),
                ).len() < 0x10000 implies (jview(value) == w
                && token_text@ == token_chars(
                self.signer.secret@,
                self.signer.with_csrf,
                m,
            )) by {
                    let p = encode_utf8(ser_val(w));
                    let t = encode_utf8(
                        token_chars(self.signer.secret@, self.signer.with_csrf, m),
                    );
                    let head0 = be32(p.len() as int) + be16(t.len() as int) + p + t;
                assert(payload_bytes@ == p);
                assert(token_bytes@ == t);
                assert(encode_utf8(token_text@) == encode_utf8(
                    token_chars(self.signer.secret@, self.signer.with_csrf, m),
                ));
                vstd::utf8::encode_utf8_decode_utf8(token_text@);
                vstd::utf8::encode_utf8_decode_utf8(
                    token_chars(self.signer.secret@, self.signer.with_csrf, m),
                );
            }
        }
        match self.signer.verify_at(token_text.as_str(), now_secs) {
            Ok(_) => {},
            Err(_) => {
                return Err(TransportError::Unauthorized(
                    String::from_str("token failed verification"),
                ));
            },
        }
        Ok((value, token_text))
    }

    /// Unframe against the wall clock.
    pub fn decode(&self, frame: &StdioFrame) -> (r: Result<(JsonValue, String), TransportError>)
        ensures
            r matches Err(e) ==> (e is Framing || e is Unauthorized),
            exists|now_secs: u64| #[trigger] self.decode_complete(frame.payload@, now_secs, r),
    {
        let now = now_millis() / 1000;
        let r = self.decode_at(frame, now);
        proof {
            assert(self.decode_complete(frame.payload@, now, r));
        }
        r
    }

    /// For frames of the canonical layout, the length fields, sections and
    /// checksum all line up.
    #[verifier::rlimit(100)]
    proof fn lemma_decode_good(&self, fp: Seq<u8>, now_secs: u64)
        ensures
            forall|w: JsonVal, m: EnvModel|
                representable(w) && wf_model(m) && m.expires > now_secs && fp == #[trigger] frame_bytes(
                    encode_utf8(ser_val(w)),
                    encode_utf8(
                        token_chars(self.signer.secret@, self.signer.with_csrf, m),
                    ),
                ) && encode_utf8(ser_val(w)).len() < 0x100000000 && encode_utf8(
                    token_chars(self.signer.secret@, self.signer.with_csrf, m),
                ).len() < 0x10000 ==> {
                    let p = encode_utf8(ser_val(w));
                    let t = encode_utf8(token_chars(self.signer.secret@, self.signer.with_csrf, m));
                    &&& fp.len() == 22 + p.len() + t.len()
                    &&& fp[0] as int * 0x1000000 + fp[1] as int * 0x10000 + fp[2] as int * 256
                        + fp[3] as int == p.len()
                    &&& fp[4] as int * 256 + fp[5] as int == t.len()
                    &&& fp.subrange(6, 6 + p.len() as int) == p
                    &&& fp.subrange(6 + p.len() as int, 6 + p.len() as int + t.len() as int) == t
                    &&& fp.subrange(0, fp.len() - 16) == be32(p.len() as int) + be16(
                        t.len() as int,
                    ) + p + t
                    &&& fp.subrange(fp.len() - 16, fp.len() as int) == mac16(
                        be32(p.len() as int) + be16(t.len() as int) + p + t,
                    )
                },
    {
        assert forall|w: JsonVal, m: EnvModel|
            representable(w) && wf_model(m) && m.expires > now_secs && fp == #[trigger] frame_bytes(
                encode_utf8(ser_val(w)),
                encode_utf8(
                    token_chars(self.signer.secret@, self.signer.with_csrf, m),
                ),
            ) && encode_utf8(ser_val(w)).len() < 0x100000000 && encode_utf8(
                token_chars(self.signer.secret@, self.signer.with_csrf, m),
            ).len() < 0x10000 implies {
            let p = encode_utf8(ser_val(w));
            let t = encode_utf8(token_chars(self.signer.secret@, self.signer.with_csrf, m));
            &&& fp.len() == 22 + p.len() + t.len()
            &&& fp[0] as int * 0x1000000 + fp[1] as int * 0x10000 + fp[2] as int * 256 + fp[3] as int
                == p.len()
            &&& fp[4] as int * 256 + fp[5] as int == t.len()
            &&& fp.subrange(6, 6 + p.len() as int) == p
            &&& fp.subrange(6 + p.len() as int, 6 + p.len() as int + t.len() as int) == t
            &&& fp.subrange(0, fp.len() - 16) == be32(p.len() as int) + be16(t.len() as int) + p
                + t
            &&& fp.subrange(fp.len() - 16, fp.len() as int) == mac16(
                be32(p.len() as int) + be16(t.len() as int) + p + t,
            )
        } by {
            let p = encode_utf8(ser_val(w));
            let t = encode_utf8(token_chars(self.signer.secret@, self.signer.with_csrf, m));
            let head = be32(p.len() as int) + be16(t.len() as int) + p + t;
            let mac = mac16(head);
            assert(fp =~= be32(p.len() as int) + (be16(t.len() as int) + (p + (t + mac))));
            assert(fp.subrange(0, fp.len() as int) =~= fp);
            lemma_frame_split(fp, 0, be32(p.len() as int), be16(t.len() as int) + (p + (t + mac)));
            lemma_frame_split(fp, 4, be16(t.len() as int), p + (t + mac));
            lemma_frame_split(fp, 6, p, t + mac);
            lemma_frame_split(fp, 6 + p.len() as int, t, mac);
            assert(fp[0] == be32(p.len() as int)[0] && fp[1] == be32(p.len() as int)[1] && fp[2]
                == be32(p.len() as int)[2] && fp[3] == be32(p.len() as int)[3]) by {
                assert(fp.subrange(0, 4)[0] == fp[0]);
                assert(fp.subrange(0, 4)[1] == fp[1]);
                assert(fp.subrange(0, 4)[2] == fp[2]);
                assert(fp.subrange(0, 4)[3] == fp[3]);
            }
            assert(fp[4] == be16(t.len() as int)[0] && fp[5] == be16(t.len() as int)[1]) by {
                assert(fp.subrange(4, 6)[0] == fp[4]);
                assert(fp.subrange(4, 6)[1] == fp[5]);
            }
            assert forall|k: int| 0 <= k < head.len() implies fp[k] == head[k] by {
                if k < 4 {
                    assert(fp.subrange(0, 4)[k] == fp[k]);
                    assert(head[k] == be32(p.len() as int)[k]);
                } else if k < 6 {
                    assert(fp.subrange(4, 6)[k - 4] == fp[k]);
                    assert(head[k] == be16(t.len() as int)[k - 4]);
                } else if k < 6 + p.len() {
                    assert(fp.subrange(6, 6 + p.len() as int)[k - 6] == fp[k]);
                    assert(head[k] == p[k - 6]);
                } else {
                    assert(fp.subrange(
                        6 + p.len() as int,
                        6 + p.len() as int + t.len() as int,
                    )[k - 6 - p.len()] == fp[k]);
                    assert(head[k] == t[k - 6 - p.len()]);
                }
            }
            assert(fp.subrange(0, fp.len() - 16) =~= head);
            assert(fp.subrange(fp.len() - 16, fp.len() as int) =~= mac);
        }
    }
}

/// Split a known two-part byte subrange into its parts.
proof fn lemma_frame_split(s: Seq<u8>, i: int, a: Seq<u8>, b: Seq<u8>)
    requires
        0 <= i,
        i + a.len() + b.len() <= s.len(),
        s.subrange(i, i + a.len() + b.len()) == a + b,
    ensures
        s.subrange(i, i + a.len()) == a,
        s.subrange(i + a.len(), i + a.len() + b.len()) == b,
{
    let whole = s.subrange(i, i + a.len() + b.len());
    assert forall|k: int| 0 <= k < a.len() implies s.subrange(i, i + a.len())[k] == a[k] by {
        assert(whole[k] == (a + b)[k]);
    }
    assert(s.subrange(i, i + a.len()) =~= a);
    assert forall|k: int| 0 <= k < b.len() implies s.subrange(
        i + a.len(),
        i + a.len() + b.len(),
    )[k] == b[k] by {
        assert(whole[a.len() + k] == (a + b)[a.len() + k]);
    }
    assert(s.subrange(i + a.len(), i + a.len() + b.len()) =~= b);
}


/// STDIO telemetry event.
#[derive(Debug)]
pub struct TelemetryEvent {
    pub kind: String,
    pub message: String,
}

/// Ordered ledger of telemetry events.
pub struct TelemetrySink {
    pub events: Vec<TelemetryEvent>,
}

impl TelemetrySink {
    pub open spec fn model(&self) -> Seq<(Seq<char>, Seq<char>)> {
        self.events@.map_values(|e: TelemetryEvent| (e.kind@, e.message@))
    }

    pub fn new() -> (r: TelemetrySink)
        ensures
            r.model() == Seq::<(Seq<char>, Seq<char>)>::empty(),
    {
        let r = TelemetrySink { events: Vec::new() };
        proof {
            assert(r.model() =~= Seq::<(Seq<char>, Seq<char>)>::empty());
        }
        r
    }

    pub fn record(&mut self, event: TelemetryEvent)
        ensures
            final(self).model() == old(self).model().push((event.kind@, event.message@)),
    {
        let ghost pre = self.model();
        self.events.push(event);
        proof {
            assert(self.model() =~= pre.push(
                (self.events@.last().kind@, self.events@.last().message@),
            ));
        }
    }

    pub fn events(&self) -> (r: &Vec<TelemetryEvent>)
        ensures
            r == &self.events,
    {
        &self.events
    }
}

/// A recoverable unit of STDIO work.
#[derive(Debug)]
pub struct RetryPayload {
    pub sequence: u64,
    pub command: String,
    pub payload: JsonValue,
    pub token_id: String,
}

/// Model of a retry payload.
pub struct RetryModel {
    pub sequence: int,
    pub command: Seq<char>,
    pub payload: JsonVal,
    pub token_id: Seq<char>,
    pub attempts: int,
}

/// A payload with its attempt counter, as stored in the buffer.
pub struct RetryStored {
    pub payload: RetryPayload,
    pub attempts: u32,
}

impl DeepView for RetryStored {
    type V = RetryModel;

    open spec fn deep_view(&self) -> RetryModel {
        RetryModel {
            sequence: self.payload.sequence as int,
            command: self.payload.command@,
            payload: jview(self.payload.payload),
            token_id: self.payload.token_id@,
            attempts: self.attempts as int,
        }
    }
}

/// An entry handed back by a drain.
#[derive(Debug)]
pub struct RetryEntry {
    pub payload: RetryPayload,
    pub enqueued_at: u64,
    pub attempts: u32,
}

impl RetryEntry {
    pub fn attempts(&self) -> (r: u32)
        ensures
            r == self.attempts,
    {
        self.attempts
    }

    pub fn enqueued_at(&self) -> (r: u64)
        ensures
            r == self.enqueued_at,
    {
        self.enqueued_at
    }

    pub fn into_payload(self) -> (r: RetryPayload)
        ensures
            r == self.payload,
    {
        self.payload
    }

    pub fn payload(&self) -> (r: &RetryPayload)
        ensures
            r == &self.payload,
    {
        &self.payload
    }
}

/// Buffer configuration errors.
#[derive(Debug)]
pub enum RetryError {
    Misconfigured { detail: String },
}

/// Capacity- and age-bounded FIFO of retry payloads with age-preserving
/// requeue and attempt counting.
pub struct RetryBuffer {
    pub fifo: AgedFifo<RetryStored>,
}

impl RetryBuffer {
    pub open spec fn model(&self) -> Seq<(RetryModel, int)> {
        self.fifo.model()
    }

    pub open spec fn max_entries(&self) -> int {
        self.fifo.max_entries as int
    }

    pub open spec fn max_age_ms(&self) -> int {
        self.fifo.max_age_ms as int
    }

    pub open spec fn max_seq(&self) -> Option<u64> {
        self.fifo.max_seq
    }

    pub fn new(max_entries: usize, max_age_ms: u64) -> (r: RetryBuffer)
        ensures
            r.model() == Seq::<(RetryModel, int)>::empty(),
            r.max_entries() == max_entries as int,
            r.max_age_ms() == max_age_ms as int,
            r.max_seq() is None,
    {
        RetryBuffer { fifo: AgedFifo::new(max_entries, max_age_ms) }
    }

    /// Insert a stored unit with an explicit stamp and attempt count.
    fn push_entry_at(&mut self, stored: RetryStored, enqueued_at: u64, now_ms: u64) -> (r: Result<
        (),
        RetryError,
    >)
        ensures
            old(self).max_entries() == 0 ==> r is Err && *final(self) == *old(self),
            old(self).max_entries() > 0 ==> r is Ok && final(self).model() == clamp_front(
                keep_fresh(
                    old(self).model().push((stored.deep_view(), enqueued_at as int)),
                    now_ms as int,
                    old(self).max_age_ms(),
                ),
                old(self).max_entries(),
            ) && final(self).max_seq() == bump_seq(
                old(self).max_seq(),
                stored.payload.sequence,
            ),
            final(self).max_entries() == old(self).max_entries(),
            final(self).max_age_ms() == old(self).max_age_ms(),
    {
        if self.fifo.max_entries == 0 {
            return Err(RetryError::Misconfigured {
                detail: String::from_str("max_entries cannot be zero"),
            });
        }
        let seq_no = stored.payload.sequence;
        self.fifo.insert_at(stored, seq_no, enqueued_at, now_ms);
        Ok(())
    }

    /// Enqueue a fresh unit stamped `now_ms` with one attempt.
    pub fn enqueue_at(&mut self, payload: RetryPayload, enqueued_at: u64, now_ms: u64) -> (r:
        Result<(), RetryError>)
        ensures
            old(self).max_entries() == 0 ==> r is Err,
            old(self).max_entries() > 0 ==> r is Ok && final(self).model() == clamp_front(
                keep_fresh(
                    old(self).model().push(
                        (
                            RetryModel {
                                sequence: payload.sequence as int,
                                command: payload.command@,
                                payload: jview(payload.payload),
                                token_id: payload.token_id@,
                                attempts: 1,
                            },
                            enqueued_at as int,
                        ),
                    ),
                    now_ms as int,
                    old(self).max_age_ms(),
                ),
                old(self).max_entries(),
            ) && final(self).max_seq() == bump_seq(old(self).max_seq(), payload.sequence),
            final(self).max_entries() == old(self).max_entries(),
            final(self).max_age_ms() == old(self).max_age_ms(),
    {
        self.push_entry_at(RetryStored { payload, attempts: 1 }, enqueued_at, now_ms)
    }

    /// Enqueue against the wall clock.
    pub fn enqueue(&mut self, payload: RetryPayload) -> (r: Result<(), RetryError>)
        ensures
            old(self).max_entries() == 0 ==> r is Err,
            old(self).max_entries() > 0 ==> r is Ok && final(self).max_seq() == bump_seq(
                old(self).max_seq(),
                payload.sequence,
            ),
            final(self).max_entries() == old(self).max_entries(),
            final(self).max_age_ms() == old(self).max_age_ms(),
            old(self).max_entries() > 0 ==> (exists|now_ms: u64|
                final(self).model() == clamp_front(
                    #[trigger] keep_fresh(
                        old(self).model().push(
                            (
                                RetryModel {
                                    sequence: payload.sequence as int,
                                    command: payload.command@,
                                    payload: jview(payload.payload),
                                    token_id: payload.token_id@,
                                    attempts: 1,
                                },
                                now_ms as int,
                            ),
                        ),
                        now_ms as int,
                        old(self).max_age_ms(),
                    ),
                    old(self).max_entries(),
                )),
    {
        let now = now_millis();
        self.enqueue_at(payload, now, now)
    }

    /// Attempt counter after one more try, saturating at the counter's cap.
    pub open spec fn sat_bump(a: int) -> int {
        if a + 1 <= u32::MAX { a + 1 } else { u32::MAX as int }
    }

    /// Requeue a drained entry: the original stamp is preserved and the
    /// attempt counter advances.
    pub fn requeue_at(&mut self, entry: RetryEntry, now_ms: u64) -> (r: Result<(), RetryError>)
        ensures
            old(self).max_entries() == 0 ==> r is Err,
            old(self).max_entries() > 0 ==> r is Ok && final(self).model() == clamp_front(
                keep_fresh(
                    old(self).model().push(
                        (
                            RetryModel {
                                sequence: entry.payload.sequence as int,
                                command: entry.payload.command@,
                                payload: jview(entry.payload.payload),
                                token_id: entry.payload.token_id@,
                                attempts: RetryBuffer::sat_bump(entry.attempts as int),
                            },
                            entry.enqueued_at as int,
                        ),
                    ),
                    now_ms as int,
                    old(self).max_age_ms(),
                ),
                old(self).max_entries(),
            ) && final(self).max_seq() == bump_seq(
                old(self).max_seq(),
                entry.payload.sequence,
            ),
            final(self).max_entries() == old(self).max_entries(),
            final(self).max_age_ms() == old(self).max_age_ms(),
    {
        let attempts = entry.attempts.saturating_add(1);
        let enqueued_at = entry.enqueued_at;
        self.push_entry_at(
            RetryStored { payload: entry.payload, attempts },
            enqueued_at,
            now_ms,
        )
    }

    /// Requeue against the wall clock.
    pub fn requeue(&mut self, entry: RetryEntry) -> (r: Result<(), RetryError>)
        ensures
            old(self).max_entries() == 0 ==> r is Err,
            old(self).max_entries() > 0 ==> r is Ok && final(self).max_seq() == bump_seq(
                old(self).max_seq(),
                entry.payload.sequence,
            ),
            final(self).max_entries() == old(self).max_entries(),
            final(self).max_age_ms() == old(self).max_age_ms(),
            old(self).max_entries() > 0 ==> (exists|now_ms: u64|
                final(self).model() == clamp_front(
                    #[trigger] keep_fresh(
                        old(self).model().push(
                            (
                                RetryModel {
                                    sequence: entry.payload.sequence as int,
                                    command: entry.payload.command@,
                                    payload: jview(entry.payload.payload),
                                    token_id: entry.payload.token_id@,
                                    attempts: RetryBuffer::sat_bump(entry.attempts as int),
                                },
                                entry.enqueued_at as int,
                            ),
                        ),
                        now_ms as int,
                        old(self).max_age_ms(),
                    ),
                    old(self).max_entries(),
                )),
    {
        let now = now_millis();
        self.requeue_at(entry, now)
    }

    /// Purge expired units and return the rest in insertion order.
    pub fn drain_ready_at(&mut self, now_ms: u64) -> (r: Vec<RetryEntry>)
        ensures
            r@.map_values(
                |e: RetryEntry|
                    (
                        RetryModel {
                            sequence: e.payload.sequence as int,
                            command: e.payload.command@,
                            payload: jview(e.payload.payload),
                            token_id: e.payload.token_id@,
                            attempts: e.attempts as int,
                        },
                        e.enqueued_at as int,
                    ),
            ) == keep_fresh(old(self).model(), now_ms as int, old(self).max_age_ms()),
            final(self).model() == Seq::<(RetryModel, int)>::empty(),
            final(self).max_seq() == old(self).max_seq(),
            final(self).max_entries() == old(self).max_entries(),
            final(self).max_age_ms() == old(self).max_age_ms(),
    {
        let drained = self.fifo.drain_at(now_ms);
        let ghost target = keep_fresh(old(self).model(), now_ms as int, old(self).max_age_ms());
        let mut out: Vec<RetryEntry> = Vec::new();
        let mut rest = drained;
        let total = rest.len();
        let ghost all = rest@;
        proof {
            assert(all.len() == total as int);
        }
        let mut i: usize = 0;
        loop
            invariant
                out@.len() == i,
                all.len() <= usize::MAX,
                i + rest@.len() == all.len(),
                all.map_values(|p: (RetryStored, u64)| (p.0.deep_view(), p.1 as int)) == target,
                forall|k: int| 0 <= k < rest@.len() ==> rest@[k] == all[i + k],
                forall|k: int|
                    0 <= k < i ==> (
                    RetryModel {
                        sequence: (#[trigger] out@[k]).payload.sequence as int,
                        command: out@[k].payload.command@,
                        payload: jview(out@[k].payload.payload),
                        token_id: out@[k].payload.token_id@,
                        attempts: out@[k].attempts as int,
                    },
                    out@[k].enqueued_at as int,
                ) == target[k],
            ensures
                out@.len() == target.len(),
                forall|k: int|
                    0 <= k < out@.len() ==> (
                    RetryModel {
                        sequence: (#[trigger] out@[k]).payload.sequence as int,
                        command: out@[k].payload.command@,
                        payload: jview(out@[k].payload.payload),
                        token_id: out@[k].payload.token_id@,
                        attempts: out@[k].attempts as int,
                    },
                    out@[k].enqueued_at as int,
                ) == target[k],
            decreases rest@.len(),
        {
            if rest.len() == 0 {
                break;
            }
            let p = rest.remove(0);
            proof {
                assert(p == all[i as int]);
            }
            out.push(
                RetryEntry { payload: p.0.payload, enqueued_at: p.1, attempts: p.0.attempts },
            );
            i = i + 1;
        }
        proof {
            assert(out@.map_values(
                |e: RetryEntry|
                    (
                        RetryModel {
                            sequence: e.payload.sequence as int,
                            command: e.payload.command@,
                            payload: jview(e.payload.payload),
                            token_id: e.payload.token_id@,
                            attempts: e.attempts as int,
                        },
                        e.enqueued_at as int,
                    ),
            ) =~= target);
        }
        out
    }

    /// Drain against the wall clock.
    pub fn drain_ready(&mut self) -> (r: Vec<RetryEntry>)
        ensures
            final(self).model() == Seq::<(RetryModel, int)>::empty(),
            final(self).max_seq() == old(self).max_seq(),
            final(self).max_entries() == old(self).max_entries(),
            final(self).max_age_ms() == old(self).max_age_ms(),
            exists|now_ms: u64|
                r@.map_values(
                    |e: RetryEntry|
                        (
                            RetryModel {
                                sequence: e.payload.sequence as int,
                                command: e.payload.command@,
                                payload: jview(e.payload.payload),
                                token_id: e.payload.token_id@,
                                attempts: e.attempts as int,
                            },
                            e.enqueued_at as int,
                        ),
                ) == #[trigger] keep_fresh(old(self).model(), now_ms as int, old(self).max_age_ms()),
    {
        let now = now_millis();
        self.drain_ready_at(now)
    }

    /// The highest sequence ever enqueued.
    pub fn max_sequence(&self) -> (r: Option<u64>)
        ensures
            r == self.max_seq(),
    {
        self.fifo.max_seq
    }
}

/// The response wrapper a dispatched frame carries back: an object with a
/// `status` of `ok` for any 2xx code and `error` otherwise, and the
/// router's payload.
pub open spec fn wrap_model(rm: RespModel) -> JsonVal {
    JsonVal::Obj(
        seq![
            (
                "status"@,
                JsonVal::Str(
                    if 200 <= rm.status_code <= 299 {
                        "ok"@
                    } else {
                        "error"@
                    },
                ),
            ),
            ("payload"@, rm.payload),
        ],
    )
}

/// STDIO adapter: frames in, router dispatch, framed response out.
pub struct StdioAdapter<R: CommandRouter> {
    pub config: StdioConfig,
    pub router: R,
    pub telemetry: TelemetrySink,
    pub codec: FramingCodec,
}

impl<R: CommandRouter> StdioAdapter<R> {
    /// The frame is a canonical encoding of payload model `w` under a
    /// canonical token of envelope `m`, unexpired at `now_secs`.
    pub open spec fn good_frame(
        &self,
        frame: &StdioFrame,
        w: JsonVal,
        m: EnvModel,
        now_secs: u64,
    ) -> bool {
        &&& representable(w)
        &&& wf_model(m)
        &&& !self.codec.signer.with_csrf
        &&& m.expires > now_secs
        &&& frame.payload@ == frame_bytes(
            encode_utf8(ser_val(w)),
            encode_utf8(
                token_chars(self.codec.signer.secret@, self.codec.signer.with_csrf, m),
            ),
        )
        &&& frame.payload@.len() <= self.codec.max_frame_length
        &&& encode_utf8(ser_val(w)).len() < 0x100000000
        &&& encode_utf8(token_chars(self.codec.signer.secret@, self.codec.signer.with_csrf, m)).len()
            < 0x10000
    }

    /// The session context a frame dispatches under.
    pub open spec fn request_ctx(&self, m: EnvModel, tid: Seq<char>) -> CtxModel {
        CtxModel {
            principal: m.principal,
            capabilities: m.caps,
            trace_id: tid,
            token_id: Some(m.token_id),
            peer: Some("stdio"@),
        }
    }

    /// Validate the configuration and bind the codec's signer to its secret.
    pub fn bind(config: StdioConfig, router: R) -> (r: Result<StdioAdapter<R>, TransportError>)
        ensures
            r is Ok <==> config.max_frame_length >= 64 && config.allowed_principals@.len() > 0,
            r matches Ok(a) ==> a.config == config && a.router == router
                && a.codec.signer.secret@ == config.token_secret@ && !a.codec.signer.with_csrf
                && a.codec.max_frame_length == config.max_frame_length,
    {
        match config.validate() {
            Ok(()) => {},
            Err(e) => {
                return Err(e);
            },
        }
        let signer = TokenSigner::new(config.token_secret.clone(), false);
        let codec = FramingCodec::new(config.max_frame_length, signer);
        Ok(StdioAdapter { config, router, telemetry: TelemetrySink::new(), codec })
    }

    /// Issue a session token for an allowed principal with the transport
    /// capability; records the issuance.
    pub fn issue_session_token_at(&mut self, principal: &str, now_secs: u64) -> (r: Result<
        SessionToken,
        TransportError,
    >)
        requires
            now_secs + 3600 <= i64::MAX,
        ensures
            !old(self).config.allowed_principals.deep_view().contains(principal@) ==> r is Err,
            old(self).config.allowed_principals.deep_view().contains(principal@) ==> (r matches Ok(
                t,
            ) && exists|m: EnvModel|
                wf_model(m) && t.token@ == #[trigger] token_chars(
                    old(self).codec.signer.secret@,
                    old(self).codec.signer.with_csrf,
                    m,
                ) && m.principal == principal@ && m.caps == seq!["stdio"@] && m.expires == now_secs
                    + 3600),
            final(self).config == old(self).config,
            final(self).router == old(self).router,
            final(self).codec == old(self).codec,
    {
        if !principal_allowed(&self.config.allowed_principals, principal) {
            let mut msg: Vec<char> = Vec::new();
            push_str_chars(&mut msg, "principal ");
            push_str_chars(&mut msg, principal);
            push_str_chars(&mut msg, " is not permitted");
            return Err(TransportError::Unauthorized(chars_to_string(&msg)));
        }
        let principal_string = String::from_str(principal);
        let mut caps: Vec<String> = Vec::new();
        caps.push(String::from_str("stdio"));
        proof {
            assert(caps.deep_view() =~= seq!["stdio"@]);
        }
        let issued = self.codec.signer.issue_at(&principal_string, &caps, now_secs, 3600);
        self.telemetry.record(
            TelemetryEvent {
                kind: String::from_str("stdio.session.issued"),
                message: issued.token_id,
            },
        );
        Ok(SessionToken { token: issued.token })
    }

    /// Issue against the wall clock.
    pub fn issue_session_token(&mut self, principal: &str) -> (r: Result<
        SessionToken,
        TransportError,
    >)
        ensures
            !old(self).config.allowed_principals.deep_view().contains(principal@) ==> r is Err,
            old(self).config.allowed_principals.deep_view().contains(principal@) ==> ((r matches
            Ok(t) && exists|m: EnvModel|
                wf_model(m) && t.token@ == #[trigger] token_chars(
                    old(self).codec.signer.secret@,
                    old(self).codec.signer.with_csrf,
                    m,
                ) && m.principal == principal@ && m.caps == seq!["stdio"@]) || (r matches Err(e)
                && e is Configuration)),
            final(self).config == old(self).config,
            final(self).router == old(self).router,
            final(self).codec == old(self).codec,
    {
        let now = now_millis() / 1000;
        if now > 9223372036854771807u64 {
            return Err(TransportError::Configuration(
                String::from_str("clock out of range"),
            ));
        }
        self.issue_session_token_at(principal, now)
    }

    /// Decode a frame, re-check the principal against the current allow
    /// list, dispatch the command, and frame the wrapped response under the
    /// same session token. A canonical frame from an allowed principal with
    /// a named command reaches the router exactly once, and the response
    /// frame encodes the status wrapper, unless it exceeds the frame bound.
    #[verifier::rlimit(100)]
    pub fn dispatch_frame_at(&mut self, frame: &StdioFrame, now_secs: u64) -> (r: Result<
        StdioFrame,
        TransportError,
    >)
        ensures
            r matches Ok(out) ==> (exists|ctx: CtxModel, cmd: CmdModel, resp: RespModel|
                final(self).router.dispatch_post(
                    old(self).router,
                    ctx,
                    cmd,
                    Ok::<RespModel, RErrModel>(resp),
                ) && ctx.peer == Some("stdio"@) && out.payload@.len()
                    <= old(self).codec.max_frame_length),
            r matches Err(e) ==> (e matches TransportError::Router(re) ==> exists|
                ctx: CtxModel,
                cmd: CmdModel,
            |
                final(self).router.dispatch_post(
                    old(self).router,
                    ctx,
                    cmd,
                    Err::<RespModel, RErrModel>(re.view_model()),
                )),
            r matches Err(e) ==> (e is Unauthorized ==> final(self).router == old(self).router
                && final(self).telemetry == old(self).telemetry),
            r matches Err(e) ==> (e is Framing ==> (final(self).router == old(self).router
                || (exists|ctx: CtxModel, cmd: CmdModel, resp: RespModel|
                final(self).router.dispatch_post(
                    old(self).router,
                    ctx,
                    cmd,
                    Ok::<RespModel, RErrModel>(resp),
                )))),
            forall|w: JsonVal, m: EnvModel|
                #[trigger] old(self).good_frame(frame, w, m, now_secs) ==> (
                crate::http::body_command(w) is None ==> (r matches Err(e) && e is Framing
                    && final(self).router == old(self).router && final(self).telemetry == old(
                    self,
                ).telemetry)),
            forall|w: JsonVal, m: EnvModel|
                #[trigger] old(self).good_frame(frame, w, m, now_secs) ==> (
                crate::http::body_command(w) is Some ==> (!old(
                    self,
                ).config.allowed_principals.deep_view().contains(m.principal) ==> (r matches Err(
                    e,
                ) && e is Unauthorized && final(self).router == old(self).router))),
            forall|w: JsonVal, m: EnvModel|
                #[trigger] old(self).good_frame(frame, w, m, now_secs) ==> (old(
                    self,
                ).config.allowed_principals.deep_view().contains(m.principal) ==> (
                crate::http::body_command(w) matches Some(name) ==> (exists|
                    tid: Seq<char>,
                    rr: Result<RespModel, RErrModel>,
                |
                    final(self).router.dispatch_post(
                        old(self).router,
                        old(self).request_ctx(m, tid),
                        CmdModel { name: name, payload: crate::http::body_payload(w) },
                        rr,
                    ) && (match rr {
                        Ok(rm) => (r matches Ok(out) ==> out.payload@ == frame_bytes(
                            encode_utf8(ser_val(wrap_model(rm))),
                            encode_utf8(
                                token_chars(
                                    old(self).codec.signer.secret@,
                                    old(self).codec.signer.with_csrf,
                                    m,
                                ),
                            ),
                        )) && (r matches Err(e2) ==> e2 is Framing),
                        Err(em) => r matches Err(e2) && (e2 matches TransportError::Router(re)
                            && re.view_model() == em),
                    })))),
            final(self).config == old(self).config,
            final(self).codec == old(self).codec,
    {
        let (payload, raw_token) = match self.codec.decode_at(frame, now_secs) {
            Ok(p) => p,
            Err(e) => {
                return Err(e);
            },
        };
        let envelope = match self.codec.signer.verify_at(raw_token.as_str(), now_secs) {
            Ok(env) => env,
            Err(_) => {
                return Err(TransportError::Unauthorized(
                    String::from_str("token failed verification"),
                ));
            },
        };
        proof {
            assert forall|w: JsonVal, m: EnvModel|
                old(self).good_frame(frame, w, m, now_secs) implies (jview(payload) == w
                && raw_token@ == token_chars(
                old(self).codec.signer.secret@,
                old(self).codec.signer.with_csrf,
                m,
            ) && envelope.principal@ == m.principal) by {}
        }
        let command = match payload.get_field("command") {
            Some(v) => match v {
                JsonValue::Str(name) => name.clone(),
                _ => {
                    proof {
                        lemma_jview_is_str(*v);
                    }
                    return Err(TransportError::Framing(String::from_str("command missing")));
                },
            },
            None => {
                return Err(TransportError::Framing(String::from_str("command missing")));
            },
        };
        let body = match payload.get_field("payload") {
            Some(v) => v.duplicate(),
            None => JsonValue::Null,
        };
        if !principal_allowed(&self.config.allowed_principals, envelope.principal.as_str()) {
            let mut msg: Vec<char> = Vec::new();
            push_str_chars(&mut msg, "principal ");
            push_str_chars(&mut msg, envelope.principal.as_str());
            push_str_chars(&mut msg, " is not permitted");
            return Err(TransportError::Unauthorized(chars_to_string(&msg)));
        }
        let trace_id = crate::crypto::fresh_uuid();
        let context = SessionContext {
            principal: envelope.principal,
            capabilities: envelope.capabilities,
            trace_id,
            token_id: Some(envelope.token_id),
            peer: Some(String::from_str("stdio")),
        };
        let ghost ctx_m = context.view_model();
        proof {
            assert forall|w: JsonVal, m: EnvModel|
                old(self).good_frame(frame, w, m, now_secs) implies ctx_m == old(
                self,
            ).request_ctx(m, ctx_m.trace_id) && jview(payload) == w && raw_token@ == token_chars(
                old(self).codec.signer.secret@,
                old(self).codec.signer.with_csrf,
                m,
            ) && command@ == match crate::http::body_command(w) {
                Some(n) => n,
                None => command@,
            } && jview(body) == crate::http::body_payload(w) by {}
        }
        self.telemetry.record(
            TelemetryEvent { kind: String::from_str("stdio.request"), message: command.clone() },
        );
        let cmd = RouterCommand { name: command, payload: body };
        let ghost cmd_m = cmd.view_model();
        let response = match self.router.dispatch(context, cmd) {
            Ok(resp) => resp,
            Err(err) => {
                let ghost err_m = err.view_model();
                self.telemetry.record(
                    TelemetryEvent {
                        kind: String::from_str("stdio.router.error"),
                        message: err.text(),
                    },
                );
                proof {
                    assert(self.router.dispatch_post(
                        old(self).router,
                        ctx_m,
                        cmd_m,
                        Err::<RespModel, RErrModel>(err_m),
                    ));
                    assert forall|w: JsonVal, m: EnvModel|
                        old(self).good_frame(frame, w, m, now_secs) implies ({
                        match crate::http::body_command(w) {
                            Some(n) => self.router.dispatch_post(
                                old(self).router,
                                old(self).request_ctx(m, ctx_m.trace_id),
                                CmdModel { name: n, payload: crate::http::body_payload(w) },
                                Err::<RespModel, RErrModel>(err_m),
                            ),
                            None => true,
                        }
                    }) by {
                        match crate::http::body_command(w) {
                            Some(n) => {
                                assert(ctx_m == old(self).request_ctx(m, ctx_m.trace_id));
                                assert(cmd_m == CmdModel {
                                    name: n,
                                    payload: crate::http::body_payload(w),
                                });
                            },
                            None => {},
                        }
                    }
                }
                return Err(TransportError::Router(err));
            },
        };
        let ghost resp_m = response.view_model();
        proof {
            assert(self.router.dispatch_post(
                old(self).router,
                ctx_m,
                cmd_m,
                Ok::<RespModel, RErrModel>(resp_m),
            ));
        }
        let status = if 200 <= response.status_code && response.status_code <= 299 {
            String::from_str("ok")
        } else {
            String::from_str("error")
        };
        let mut status_chars: Vec<char> = Vec::new();
        crate::numfmt::push_dec(response.status_code as u64, &mut status_chars);
        self.telemetry.record(
            TelemetryEvent {
                kind: String::from_str("stdio.response"),
                message: chars_to_string(&status_chars),
            },
        );
        let mut fields: Vec<(String, JsonValue)> = Vec::new();
        fields.push((String::from_str("status"), JsonValue::Str(status)));
        fields.push((String::from_str("payload"), response.payload));
        let ghost fseq = fields@;
        let response_body = JsonValue::Obj(fields);
        proof {
            lemma_jview_fields_index(fseq);
            assert(jview_fields(fseq).len() == 2);
            assert(jview_fields(fseq)[0] == (fseq[0].0@, jview(fseq[0].1)));
            assert(jview_fields(fseq)[1] == (fseq[1].0@, jview(fseq[1].1)));
            assert(jview(response_body) == wrap_model(resp_m)) by {
                assert(response_body->Obj_0@ == fseq);
                assert(jview_fields(fseq) =~= wrap_model(resp_m)->Obj_0);
            }
        }
        let result = self.codec.encode_frame(&response_body, &SessionToken { token: raw_token });
        match result {
            Ok(out) => {
                proof {
                    assert(self.router.dispatch_post(
                        old(self).router,
                        ctx_m,
                        cmd_m,
                        Ok::<RespModel, RErrModel>(resp_m),
                    ) && ctx_m.peer == Some("stdio"@) && out.payload@.len() <= old(
                        self,
                    ).codec.max_frame_length);
                    assert forall|w: JsonVal, m: EnvModel|
                        old(self).good_frame(frame, w, m, now_secs) implies ({
                        match crate::http::body_command(w) {
                            Some(n) => self.router.dispatch_post(
                                old(self).router,
                                old(self).request_ctx(m, ctx_m.trace_id),
                                CmdModel { name: n, payload: crate::http::body_payload(w) },
                                Ok::<RespModel, RErrModel>(resp_m),
                            ),
                            None => true,
                        }
                    }) by {
                        match crate::http::body_command(w) {
                            Some(n) => {
                                assert(ctx_m == old(self).request_ctx(m, ctx_m.trace_id));
                                assert(cmd_m == CmdModel {
                                    name: n,
                                    payload: crate::http::body_payload(w),
                                });
                            },
                            None => {},
                        }
                    }
                    assert forall|w: JsonVal, m: EnvModel|
                        old(self).good_frame(frame, w, m, now_secs) implies out.payload@
                        == frame_bytes(
                        encode_utf8(ser_val(wrap_model(resp_m))),
                        encode_utf8(
                            token_chars(
                                old(self).codec.signer.secret@,
                                old(self).codec.signer.with_csrf,
                                m,
                            ),
                        ),
                    ) by {
                        assert(raw_token@ == token_chars(
                            old(self).codec.signer.secret@,
                            old(self).codec.signer.with_csrf,
                            m,
                        ));
                        assert(jview(response_body) == wrap_model(resp_m));
                    }
                }
                Ok(out)
            },
            Err(e) => {
                proof {
                    assert forall|w: JsonVal, m: EnvModel|
                        old(self).good_frame(frame, w, m, now_secs) implies ({
                        match crate::http::body_command(w) {
                            Some(n) => self.router.dispatch_post(
                                old(self).router,
                                old(self).request_ctx(m, ctx_m.trace_id),
                                CmdModel { name: n, payload: crate::http::body_payload(w) },
                                Ok::<RespModel, RErrModel>(resp_m),
                            ),
                            None => true,
                        }
                    }) by {
                        match crate::http::body_command(w) {
                            Some(n) => {
                                assert(ctx_m == old(self).request_ctx(m, ctx_m.trace_id));
                                assert(cmd_m == CmdModel {
                                    name: n,
                                    payload: crate::http::body_payload(w),
                                });
                            },
                            None => {},
                        }
                    }
                    assert forall|w: JsonVal, m: EnvModel|
                        old(self).good_frame(frame, w, m, now_secs) implies e is Framing by {
                        assert(raw_token@ == token_chars(
                            old(self).codec.signer.secret@,
                            old(self).codec.signer.with_csrf,
                            m,
                        ));
                    }
                }
                Err(e)
            },
        }
    }

    /// Dispatch a frame against the wall clock.
    pub fn dispatch_frame(&mut self, frame: &StdioFrame) -> (r: Result<StdioFrame, TransportError>)
        ensures
            r matches Ok(out) ==> (exists|ctx: CtxModel, cmd: CmdModel, resp: RespModel|
                final(self).router.dispatch_post(
                    old(self).router,
                    ctx,
                    cmd,
                    Ok::<RespModel, RErrModel>(resp),
                ) && ctx.peer == Some("stdio"@) && out.payload@.len()
                    <= old(self).codec.max_frame_length),
            r matches Err(e) ==> (e matches TransportError::Router(re) ==> exists|
                ctx: CtxModel,
                cmd: CmdModel,
            |
                final(self).router.dispatch_post(
                    old(self).router,
                    ctx,
                    cmd,
                    Err::<RespModel, RErrModel>(re.view_model()),
                )),
            r matches Err(e) ==> (e is Unauthorized ==> final(self).router == old(self).router
                && final(self).telemetry == old(self).telemetry),
            r matches Err(e) ==> (e is Framing ==> (final(self).router == old(self).router
                || (exists|ctx: CtxModel, cmd: CmdModel, resp: RespModel|
                final(self).router.dispatch_post(
                    old(self).router,
                    ctx,
                    cmd,
                    Ok::<RespModel, RErrModel>(resp),
                )))),
            final(self).config == old(self).config,
            final(self).codec == old(self).codec,
    {
        let now = now_millis() / 1000;
        self.dispatch_frame_at(frame, now)
    }

    /// The framing codec in use.
    pub fn codec(&self) -> (r: &FramingCodec)
        ensures
            r == &self.codec,
    {
        &self.codec
    }

    /// The telemetry ledger.
    pub fn telemetry(&self) -> (r: &TelemetrySink)
        ensures
            r == &self.telemetry,
    {
        &self.telemetry
    }
}

} // verus!
