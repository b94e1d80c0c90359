//! Session tokens: MAC-authenticated, TTL-bounded credentials.
//!
//! A token is the URL-safe base64 of a JSON envelope holding the token id,
//! principal, capabilities, expiry and a keyed-hash signature over the
//! canonical string `id|principal|caps,by,commas|expires[|csrf_nonce]`.
//! The signing key is the hash of the configured secret.

use vstd::prelude::*;
use crate::crypto::{
    b3, b3k, b64url, blake3_hash, blake3_keyed, b64url_encode, b64url_decode, fresh_uuid,
    lemma_b64url_injective,
};
use crate::json::{
    JsonValue, JsonVal, jview, jview_items, jview_fields, lemma_jview_items_index,
    lemma_jview_fields_index, representable, ser_val, obj_lookup, lookup_fields,
};
use crate::jsonparse::parse_json_bytes;
use crate::numfmt::dec_of;
use crate::strutil::{chars_to_string, string_to_bytes, push_str_chars};
use vstd::utf8::encode_utf8;
use vstd::string::StringExecFns;

verus! {

/// Mathematical content of a session token envelope.
pub struct EnvModel {
    pub token_id: Seq<char>,
    pub principal: Seq<char>,
    pub caps: Seq<Seq<char>>,
    pub expires: int,
    pub nonce: Seq<char>,
}

/// Envelopes whose expiry fits the signed JSON integer.
pub open spec fn wf_model(m: EnvModel) -> bool {
    0 <= m.expires <= i64::MAX
}

/// A validated token envelope.
#[derive(Debug)]
pub struct TokenEnvelope {
    pub token_id: String,
    pub principal: String,
    pub capabilities: Vec<String>,
    pub expires_at: u64,
    pub csrf_nonce: String,
}

impl TokenEnvelope {
    pub open spec fn view_model(&self) -> EnvModel {
        EnvModel {
            token_id: self.token_id@,
            principal: self.principal@,
            caps: self.capabilities.deep_view(),
            expires: self.expires_at as int,
            nonce: self.csrf_nonce@,
        }
    }
}

/// Why a token was rejected.
#[derive(Clone, Copy, PartialEq, Eq, Debug)]
pub enum TokenError {
    /// Not valid URL-safe base64.
    Encoding,
    /// The decoded bytes are not a well-formed envelope.
    Payload,
    /// The signature does not match the canonical string.
    Signature,
    /// The token is past its expiry.
    Expired,
}

/// Capability list joined by commas.
pub open spec fn join_commas(xs: Seq<Seq<char>>) -> Seq<char>
    decreases xs.len(),
{
    if xs.len() == 0 {
        Seq::<char>::empty()
    } else if xs.len() == 1 {
        xs[0]
    } else {
        xs[0] + seq![','] + join_commas(xs.drop_first())
    }
}

/// The canonical string that is signed.
pub open spec fn canon_of(m: EnvModel, with_csrf: bool) -> Seq<char> {
    let base = m.token_id + seq!['|'] + m.principal + seq!['|'] + join_commas(m.caps) + seq!['|']
        + dec_of(m.expires as nat);
    if with_csrf {
        base + seq!['|'] + m.nonce
    } else {
        base
    }
}

/// Signature text: keyed hash under the hashed secret, base64-encoded.
pub open spec fn sig_of(secret: Seq<char>, canon: Seq<char>) -> Seq<char> {
    b64url(b3k(b3(encode_utf8(secret)), encode_utf8(canon)))
}

/// Capability strings as JSON values.
pub open spec fn strs_to_jvals(xs: Seq<Seq<char>>) -> Seq<JsonVal> {
    xs.map_values(|x: Seq<char>| JsonVal::Str(x))
}

/// The JSON fields of an envelope, in serialization order.
pub open spec fn env_fields(m: EnvModel, with_csrf: bool, sig: Seq<char>) -> Seq<(
    Seq<char>,
    JsonVal,
)> {
    let base = seq![
        ("token_id"@, JsonVal::Str(m.token_id)),
        ("principal"@, JsonVal::Str(m.principal)),
        ("capabilities"@, JsonVal::Arr(strs_to_jvals(m.caps))),
        ("expires_at"@, JsonVal::Int(m.expires)),
    ];
    let tail = seq![("signature"@, JsonVal::Str(sig))];
    if with_csrf {
        base + seq![("csrf_nonce"@, JsonVal::Str(m.nonce))] + tail
    } else {
        base + tail
    }
}

/// The JSON model of a signed envelope.
pub open spec fn env_jval(m: EnvModel, with_csrf: bool, secret: Seq<char>) -> JsonVal {
    JsonVal::Obj(env_fields(m, with_csrf, sig_of(secret, canon_of(m, with_csrf))))
}

/// The full token text of a well-formed envelope under a secret.
pub open spec fn token_chars(secret: Seq<char>, with_csrf: bool, m: EnvModel) -> Seq<char> {
    b64url(encode_utf8(ser_val(env_jval(m, with_csrf, secret))))
}

/// A freshly issued token with its audit metadata.
#[derive(Debug)]
pub struct IssuedToken {
    pub token: String,
    pub token_id: String,
    pub csrf_nonce: String,
    pub expires_at: u64,
}

impl IssuedToken {
    pub open spec fn issued_model(&self, principal: Seq<char>, caps: Seq<Seq<char>>) -> EnvModel {
        EnvModel {
            token_id: self.token_id@,
            principal: principal,
            caps: caps,
            expires: self.expires_at as int,
            nonce: self.csrf_nonce@,
        }
    }
}

/// Issues and verifies session tokens for one configured secret.
pub struct TokenSigner {
    pub secret: String,
    pub with_csrf: bool,
}

impl TokenSigner {
    pub fn new(secret: String, with_csrf: bool) -> (r: TokenSigner)
        ensures
            r.secret == secret,
            r.with_csrf == with_csrf,
    {
        TokenSigner { secret, with_csrf }
    }

    /// Render the canonical string of the given parts.
    fn build_canonical(
        &self,
        token_id: &String,
        principal: &String,
        capabilities: &Vec<String>,
        expires_at: u64,
        csrf_nonce: &String,
    ) -> (r: Vec<char>)
        requires
            expires_at <= i64::MAX,
        ensures
            r@ == canon_of(
                EnvModel {
                    token_id: token_id@,
                    principal: principal@,
                    caps: capabilities.deep_view(),
                    expires: expires_at as int,
                    nonce: csrf_nonce@,
                },
                self.with_csrf,
            ),
    {
        let mut out: Vec<char> = Vec::new();
        push_str_chars(&mut out, token_id.as_str());
        out.push('|');
        push_str_chars(&mut out, principal.as_str());
        out.push('|');
        let mut i: usize = 0;
        let ghost caps = capabilities.deep_view();
        let ghost base = out@;
        proof {
            assert(caps.len() == capabilities@.len());
        }
        while i < capabilities.len()
            invariant
                0 <= i <= capabilities@.len(),
                caps == capabilities.deep_view(),
                caps.len() == capabilities@.len(),
                forall|t: int| 0 <= t < caps.len() ==> caps[t] == capabilities@[t]@,
                out@ == base + join_commas(caps.take(i as int)),
            decreases capabilities@.len() - i,
        {
            if i > 0 {
                out.push(',');
            }
            push_str_chars(&mut out, capabilities[i].as_str());
            proof {
                lemma_join_commas_snoc(caps, i as int);
                if i == 0 {
                    assert(caps.take(1) =~= seq![caps[0]]);
                    assert(out@ =~= base + join_commas(caps.take(1)));
                } else {
                    assert(out@ =~= base + join_commas(caps.take(i + 1)));
                }
            }
            i = i + 1;
        }
        proof {
            assert(caps.take(caps.len() as int) =~= caps);
        }
        out.push('|');
        crate::numfmt::push_dec(expires_at, &mut out);
        if self.with_csrf {
            out.push('|');
            push_str_chars(&mut out, csrf_nonce.as_str());
            proof {
                assert(out@ =~= canon_of(
                    EnvModel {
                        token_id: token_id@,
                        principal: principal@,
                        caps: capabilities.deep_view(),
                        expires: expires_at as int,
                        nonce: csrf_nonce@,
                    },
                    self.with_csrf,
                ));
            }
        } else {
            proof {
                assert(out@ =~= canon_of(
                    EnvModel {
                        token_id: token_id@,
                        principal: principal@,
                        caps: capabilities.deep_view(),
                        expires: expires_at as int,
                        nonce: csrf_nonce@,
                    },
                    self.with_csrf,
                ));
            }
        }
        out
    }

    /// Signature text over a canonical string.
    fn sign(&self, canonical: &Vec<char>) -> (r: String)
        ensures
            r@ == sig_of(self.secret@, canonical@),
    {
        let secret_bytes = string_to_bytes(&self.secret);
        let key = blake3_hash(&secret_bytes);
        let canon_string = chars_to_string(canonical);
        let canon_bytes = string_to_bytes(&canon_string);
        let mac = blake3_keyed(&key, &canon_bytes);
        b64url_encode(&mac)
    }

    /// Issue a signed token for the given principal and capabilities, with
    /// a fresh token id and CSRF nonce, expiring `ttl_secs` after `now_secs`.
    pub fn issue_at(
        &self,
        principal: &String,
        capabilities: &Vec<String>,
        now_secs: u64,
        ttl_secs: u64,
    ) -> (r: IssuedToken)
        requires
            now_secs + ttl_secs <= i64::MAX,
        ensures
            r.expires_at == now_secs + ttl_secs,
            r.token@ == token_chars(
                self.secret@,
                self.with_csrf,
                r.issued_model(principal@, capabilities.deep_view()),
            ),
            wf_model(r.issued_model(principal@, capabilities.deep_view())),
    {
        let token_id = fresh_uuid();
        let csrf_nonce = fresh_uuid();
        let expires_at = now_secs + ttl_secs;
        let canonical = self.build_canonical(
            &token_id,
            principal,
            capabilities,
            expires_at,
            &csrf_nonce,
        );
        let sig = self.sign(&canonical);
        let ghost m = EnvModel {
            token_id: token_id@,
            principal: principal@,
            caps: capabilities.deep_view(),
            expires: expires_at as int,
            nonce: csrf_nonce@,
        };
        let json = self.build_env_json(&token_id, principal, capabilities, expires_at, &csrf_nonce, &sig);
        proof {
            assert(jview(json) == env_jval(m, self.with_csrf, self.secret@));
        }
        let text = crate::json::to_json_string(&json);
        let bytes = string_to_bytes(&text);
        let token = b64url_encode(&bytes);
        IssuedToken { token, token_id, csrf_nonce, expires_at }
    }

    /// Build the envelope JSON value.
    fn build_env_json(
        &self,
        token_id: &String,
        principal: &String,
        capabilities: &Vec<String>,
        expires_at: u64,
        csrf_nonce: &String,
        sig: &String,
    ) -> (r: JsonValue)
        requires
            expires_at <= i64::MAX,
        ensures
            jview(r) == JsonVal::Obj(
                env_fields(
                    EnvModel {
                        token_id: token_id@,
                        principal: principal@,
                        caps: capabilities.deep_view(),
                        expires: expires_at as int,
                        nonce: csrf_nonce@,
                    },
                    self.with_csrf,
                    sig@,
                ),
            ),
    {
        let ghost m = EnvModel {
            token_id: token_id@,
            principal: principal@,
            caps: capabilities.deep_view(),
            expires: expires_at as int,
            nonce: csrf_nonce@,
        };
        let mut caps_json: Vec<JsonValue> = Vec::new();
        let mut i: usize = 0;
        while i < capabilities.len()
            invariant
                0 <= i <= capabilities@.len(),
                jview_items(caps_json@) == strs_to_jvals(capabilities.deep_view()).take(i as int),
            decreases capabilities@.len() - i,
        {
            let ghost prev = caps_json@;
            caps_json.push(JsonValue::Str(capabilities[i].clone()));
            proof {
                lemma_jview_items_index(prev);
                lemma_jview_items_index(caps_json@);
                assert(jview_items(caps_json@) =~= strs_to_jvals(capabilities.deep_view()).take(
                    i + 1,
                )) by {
                    assert forall|t: int| 0 <= t < i + 1 implies jview_items(caps_json@)[t]
                        == strs_to_jvals(capabilities.deep_view()).take(i + 1)[t] by {
                        if t < i {
                            assert(caps_json@[t] == prev[t]);
                            assert(jview_items(prev)[t] == strs_to_jvals(
                                capabilities.deep_view(),
                            ).take(i as int)[t]);
                        } else {
                            assert(caps_json@[t] == JsonValue::Str(capabilities@[i as int]));
                        }
                    }
                }
            }
            i = i + 1;
        }
        proof {
            assert(strs_to_jvals(capabilities.deep_view()).take(
                strs_to_jvals(capabilities.deep_view()).len() as int,
            ) =~= strs_to_jvals(capabilities.deep_view()));
        }
        let mut fields: Vec<(String, JsonValue)> = Vec::new();
        fields.push((String::from_str("token_id"), JsonValue::Str(token_id.clone())));
        fields.push((String::from_str("principal"), JsonValue::Str(principal.clone())));
        fields.push((String::from_str("capabilities"), JsonValue::Arr(caps_json)));
        fields.push((String::from_str("expires_at"), JsonValue::Int(expires_at as i64)));
        if self.with_csrf {
            fields.push((String::from_str("csrf_nonce"), JsonValue::Str(csrf_nonce.clone())));
        }
        fields.push((String::from_str("signature"), JsonValue::Str(sig.clone())));
        let ghost fseq = fields@;
        let r = JsonValue::Obj(fields);
        proof {
            let expected = env_fields(m, self.with_csrf, sig@);
            lemma_jview_fields_index(fseq);
            if self.with_csrf {
                assert(expected =~= seq![
                    ("token_id"@, JsonVal::Str(m.token_id)),
                    ("principal"@, JsonVal::Str(m.principal)),
                    ("capabilities"@, JsonVal::Arr(strs_to_jvals(m.caps))),
                    ("expires_at"@, JsonVal::Int(m.expires)),
                    ("csrf_nonce"@, JsonVal::Str(m.nonce)),
                    ("signature"@, JsonVal::Str(sig@)),
                ]);
                assert(fseq.len() == 6);
            } else {
                assert(expected =~= seq![
                    ("token_id"@, JsonVal::Str(m.token_id)),
                    ("principal"@, JsonVal::Str(m.principal)),
                    ("capabilities"@, JsonVal::Arr(strs_to_jvals(m.caps))),
                    ("expires_at"@, JsonVal::Int(m.expires)),
                    ("signature"@, JsonVal::Str(sig@)),
                ]);
                assert(fseq.len() == 5);
            }
            lemma_jview_items_index(fseq[2].1->Arr_0@);
            assert(jview_fields(fseq).len() == expected.len());
            assert(jview_fields(fseq)[0] == (fseq[0].0@, jview(fseq[0].1)));
            assert(fseq[0].0@ == "token_id"@);
            assert(jview(fseq[0].1) == JsonVal::Str(m.token_id));
            assert(jview_fields(fseq)[0] == expected[0]);
            assert(jview_fields(fseq)[1] == (fseq[1].0@, jview(fseq[1].1)));
            assert(fseq[1].0@ == "principal"@);
            assert(jview(fseq[1].1) == JsonVal::Str(m.principal));
            assert(jview_fields(fseq)[1] == expected[1]);
            assert(jview_fields(fseq)[2] == (fseq[2].0@, jview(fseq[2].1)));
            assert(fseq[2].0@ == "capabilities"@);
            assert(jview(fseq[2].1) == JsonVal::Arr(strs_to_jvals(m.caps)));
            assert(jview_fields(fseq)[2] == expected[2]);
            assert(jview_fields(fseq)[3] == (fseq[3].0@, jview(fseq[3].1)));
            assert(fseq[3].0@ == "expires_at"@);
            assert((expires_at as i64) as int == expires_at as int);
            assert(jview(fseq[3].1) == JsonVal::Int(m.expires));
            assert(jview_fields(fseq)[3] == expected[3]);
            assert(jview_fields(fseq)[4] == (fseq[4].0@, jview(fseq[4].1)));
            if self.with_csrf {
                assert(fseq[4].0@ == "csrf_nonce"@);
                assert(jview(fseq[4].1) == JsonVal::Str(m.nonce));
                assert(jview_fields(fseq)[4] == expected[4]);
                assert(jview_fields(fseq)[5] == (fseq[5].0@, jview(fseq[5].1)));
                assert(fseq[5].0@ == "signature"@);
                assert(jview(fseq[5].1) == JsonVal::Str(sig@));
                assert(jview_fields(fseq)[5] == expected[5]);
            } else {
                assert(fseq[4].0@ == "signature"@);
                assert(jview(fseq[4].1) == JsonVal::Str(sig@));
                assert(jview_fields(fseq)[4] == expected[4]);
            }
            assert(jview_fields(fseq) =~= expected);
            assert(r->Obj_0@ == fseq);
        }
        r
    }
}

/// Splitting a joined capability list after one more element.
proof fn lemma_join_commas_snoc(xs: Seq<Seq<char>>, i: int)
    requires
        0 <= i < xs.len(),
    ensures
        i == 0 ==> join_commas(xs.take(1)) == xs[0],
        i > 0 ==> join_commas(xs.take(i + 1)) == join_commas(xs.take(i)) + seq![','] + xs[i],
    decreases i,
{
    if i == 0 {
        assert(xs.take(1) =~= seq![xs[0]]);
        assert(xs.take(1).len() == 1);
    } else if i == 1 {
        assert(xs.take(2).drop_first() =~= seq![xs[1]]);
        assert(xs.take(2)[0] == xs[0]);
        assert(xs.take(1) =~= seq![xs[0]]);
        assert(join_commas(seq![xs[1]]) == xs[1]);
        assert(join_commas(xs.take(1)) == xs[0]);
        assert(join_commas(xs.take(2)) == xs.take(2)[0] + seq![','] + join_commas(
            xs.take(2).drop_first(),
        ));
        assert(join_commas(xs.take(2)) =~= join_commas(xs.take(1)) + seq![','] + xs[1]);
    } else {
        lemma_join_commas_snoc(xs.drop_first(), i - 1);
        assert(xs.take(i + 1).drop_first() =~= xs.drop_first().take(i));
        assert(xs.take(i).drop_first() =~= xs.drop_first().take(i - 1));
        assert(xs.take(i + 1)[0] == xs[0]);
        assert(xs.take(i)[0] == xs[0]);
        assert(xs.drop_first()[i - 1] == xs[i]);
        assert(xs.take(i + 1).len() > 1);
        assert(xs.take(i).len() > 1);
        assert(join_commas(xs.take(i + 1)) =~= join_commas(xs.take(i)) + seq![','] + xs[i]);
    }
}


/// The envelope JSON model of a well-formed envelope is representable.
proof fn lemma_env_representable(m: EnvModel, with_csrf: bool, sig: Seq<char>)
    requires
        wf_model(m),
    ensures
        representable(JsonVal::Obj(env_fields(m, with_csrf, sig))),
{
    let fs = env_fields(m, with_csrf, sig);
    assert(representable(JsonVal::Arr(strs_to_jvals(m.caps)))) by {
        assert forall|i: int| 0 <= i < strs_to_jvals(m.caps).len() implies representable(
            #[trigger] strs_to_jvals(m.caps)[i],
        ) by {
            assert(strs_to_jvals(m.caps)[i] == JsonVal::Str(m.caps[i]));
        }
    }
    assert forall|i: int| 0 <= i < fs.len() implies representable((#[trigger] fs[i]).1) by {
        if with_csrf {
            assert(fs =~= seq![
                ("token_id"@, JsonVal::Str(m.token_id)),
                ("principal"@, JsonVal::Str(m.principal)),
                ("capabilities"@, JsonVal::Arr(strs_to_jvals(m.caps))),
                ("expires_at"@, JsonVal::Int(m.expires)),
                ("csrf_nonce"@, JsonVal::Str(m.nonce)),
                ("signature"@, JsonVal::Str(sig)),
            ]);
        } else {
            assert(fs =~= seq![
                ("token_id"@, JsonVal::Str(m.token_id)),
                ("principal"@, JsonVal::Str(m.principal)),
                ("capabilities"@, JsonVal::Arr(strs_to_jvals(m.caps))),
                ("expires_at"@, JsonVal::Int(m.expires)),
                ("signature"@, JsonVal::Str(sig)),
            ]);
        }
    }
}

/// Looking up each envelope key in the field list finds its value.
#[verifier::rlimit(100)]
proof fn lemma_env_lookup(m: EnvModel, with_csrf: bool, sig: Seq<char>)
    ensures
        lookup_fields(env_fields(m, with_csrf, sig), "token_id"@) == Some(
            JsonVal::Str(m.token_id),
        ),
        lookup_fields(env_fields(m, with_csrf, sig), "principal"@) == Some(
            JsonVal::Str(m.principal),
        ),
        lookup_fields(env_fields(m, with_csrf, sig), "capabilities"@) == Some(
            JsonVal::Arr(strs_to_jvals(m.caps)),
        ),
        lookup_fields(env_fields(m, with_csrf, sig), "expires_at"@) == Some(
            JsonVal::Int(m.expires),
        ),
        with_csrf ==> lookup_fields(env_fields(m, with_csrf, sig), "csrf_nonce"@) == Some(
            JsonVal::Str(m.nonce),
        ),
        lookup_fields(env_fields(m, with_csrf, sig), "signature"@) == Some(JsonVal::Str(sig)),
{
    reveal_strlit("token_id");
    reveal_strlit("principal");
    reveal_strlit("capabilities");
    reveal_strlit("expires_at");
    reveal_strlit("csrf_nonce");
    reveal_strlit("signature");
    let fs = env_fields(m, with_csrf, sig);
    let e0 = ("token_id"@, JsonVal::Str(m.token_id));
    let e1 = ("principal"@, JsonVal::Str(m.principal));
    let e2 = ("capabilities"@, JsonVal::Arr(strs_to_jvals(m.caps)));
    let e3 = ("expires_at"@, JsonVal::Int(m.expires));
    let e4 = ("csrf_nonce"@, JsonVal::Str(m.nonce));
    let e5 = ("signature"@, JsonVal::Str(sig));
    assert("token_id"@.len() == 8 && "principal"@.len() == 9 && "capabilities"@.len() == 12
        && "expires_at"@.len() == 10 && "csrf_nonce"@.len() == 10 && "signature"@.len() == 9);
    assert("principal"@[0] == 'p' && "signature"@[0] == 's');
    assert("expires_at"@[0] == 'e' && "csrf_nonce"@[0] == 'c');
    assert("token_id"@ != "principal"@ && "token_id"@ != "capabilities"@ && "token_id"@
        != "expires_at"@ && "token_id"@ != "csrf_nonce"@ && "token_id"@ != "signature"@);
    assert("principal"@ != "capabilities"@ && "principal"@ != "expires_at"@ && "principal"@
        != "csrf_nonce"@ && "principal"@ != "signature"@);
    assert("capabilities"@ != "expires_at"@ && "capabilities"@ != "csrf_nonce"@
        && "capabilities"@ != "signature"@);
    assert("expires_at"@ != "csrf_nonce"@ && "expires_at"@ != "signature"@);
    assert("csrf_nonce"@ != "signature"@);
    if with_csrf {
        let f1 = seq![e1, e2, e3, e4, e5];
        let f2 = seq![e2, e3, e4, e5];
        let f3 = seq![e3, e4, e5];
        let f4 = seq![e4, e5];
        let f5 = seq![e5];
        assert(fs =~= seq![e0, e1, e2, e3, e4, e5]);
        assert(fs.drop_first() =~= f1);
        assert(f1.drop_first() =~= f2);
        assert(f2.drop_first() =~= f3);
        assert(f3.drop_first() =~= f4);
        assert(f4.drop_first() =~= f5);
        assert(lookup_fields(fs, "token_id"@) == Some(e0.1));
        assert(lookup_fields(fs, "principal"@) == lookup_fields(f1, "principal"@));
        assert(lookup_fields(f1, "principal"@) == Some(e1.1));
        assert(lookup_fields(fs, "capabilities"@) == lookup_fields(f1, "capabilities"@));
        assert(lookup_fields(f1, "capabilities"@) == lookup_fields(f2, "capabilities"@));
        assert(lookup_fields(f2, "capabilities"@) == Some(e2.1));
        assert(lookup_fields(fs, "expires_at"@) == lookup_fields(f1, "expires_at"@));
        assert(lookup_fields(f1, "expires_at"@) == lookup_fields(f2, "expires_at"@));
        assert(lookup_fields(f2, "expires_at"@) == lookup_fields(f3, "expires_at"@));
        assert(lookup_fields(f3, "expires_at"@) == Some(e3.1));
        assert(lookup_fields(fs, "csrf_nonce"@) == lookup_fields(f1, "csrf_nonce"@));
        assert(lookup_fields(f1, "csrf_nonce"@) == lookup_fields(f2, "csrf_nonce"@));
        assert(lookup_fields(f2, "csrf_nonce"@) == lookup_fields(f3, "csrf_nonce"@));
        assert(lookup_fields(f3, "csrf_nonce"@) == lookup_fields(f4, "csrf_nonce"@));
        assert(lookup_fields(f4, "csrf_nonce"@) == Some(e4.1));
        assert(lookup_fields(fs, "signature"@) == lookup_fields(f1, "signature"@));
        assert(lookup_fields(f1, "signature"@) == lookup_fields(f2, "signature"@));
        assert(lookup_fields(f2, "signature"@) == lookup_fields(f3, "signature"@));
        assert(lookup_fields(f3, "signature"@) == lookup_fields(f4, "signature"@));
        assert(lookup_fields(f4, "signature"@) == lookup_fields(f5, "signature"@));
        assert(lookup_fields(f5, "signature"@) == Some(e5.1));
    } else {
        let f1 = seq![e1, e2, e3, e5];
        let f2 = seq![e2, e3, e5];
        let f3 = seq![e3, e5];
        let f5 = seq![e5];
        assert(fs =~= seq![e0, e1, e2, e3, e5]);
        assert(fs.drop_first() =~= f1);
        assert(f1.drop_first() =~= f2);
        assert(f2.drop_first() =~= f3);
        assert(f3.drop_first() =~= f5);
        assert(lookup_fields(fs, "token_id"@) == Some(e0.1));
        assert(lookup_fields(fs, "principal"@) == lookup_fields(f1, "principal"@));
        assert(lookup_fields(f1, "principal"@) == Some(e1.1));
        assert(lookup_fields(fs, "capabilities"@) == lookup_fields(f1, "capabilities"@));
        assert(lookup_fields(f1, "capabilities"@) == lookup_fields(f2, "capabilities"@));
        assert(lookup_fields(f2, "capabilities"@) == Some(e2.1));
        assert(lookup_fields(fs, "expires_at"@) == lookup_fields(f1, "expires_at"@));
        assert(lookup_fields(f1, "expires_at"@) == lookup_fields(f2, "expires_at"@));
        assert(lookup_fields(f2, "expires_at"@) == lookup_fields(f3, "expires_at"@));
        assert(lookup_fields(f3, "expires_at"@) == Some(e3.1));
        assert(lookup_fields(fs, "signature"@) == lookup_fields(f1, "signature"@));
        assert(lookup_fields(f1, "signature"@) == lookup_fields(f2, "signature"@));
        assert(lookup_fields(f2, "signature"@) == lookup_fields(f3, "signature"@));
        assert(lookup_fields(f3, "signature"@) == lookup_fields(f5, "signature"@));
        assert(lookup_fields(f5, "signature"@) == Some(e5.1));
    }
}

impl TokenSigner {
    /// Decode, parse and check a token against the signer's secret at time
    /// `now_secs`: a token carrying a correctly signed envelope verifies
    /// exactly until its expiry.
    #[verifier::loop_isolation(false)]
    #[verifier::rlimit(100)]
    pub fn verify_at(&self, token: &str, now_secs: u64) -> (r: Result<TokenEnvelope, TokenError>)
        ensures
            r matches Ok(env) ==> env.expires_at > now_secs && wf_model(env.view_model()),
            forall|m: EnvModel|
                wf_model(m) && token@ == #[trigger] token_chars(
                    self.secret@,
                    self.with_csrf,
                    m,
                ) ==> (if m.expires > now_secs {
                    r matches Ok(env) && env.view_model() == (EnvModel {
                        nonce: if self.with_csrf {
                            m.nonce
                        } else {
                            Seq::<char>::empty()
                        },
                        ..m
                    })
                } else {
                    r == Err::<TokenEnvelope, TokenError>(TokenError::Expired)
                }),
    {
        let decoded = b64url_decode(token);
        let bytes = match decoded {
            None => {
                return Err(TokenError::Encoding);
            },
            Some(b) => b,
        };
        proof {
            assert forall|m: EnvModel|
                wf_model(m) && token@ == token_chars(self.secret@, self.with_csrf, m) implies
                bytes@ == encode_utf8(ser_val(env_jval(m, self.with_csrf, self.secret@))) by {
                lemma_b64url_injective(
                    bytes@,
                    encode_utf8(ser_val(env_jval(m, self.with_csrf, self.secret@))),
                );
            }
        }
        let parsed = parse_json_bytes(&bytes);
        let val = match parsed {
            None => {
                proof {
                    assert forall|m: EnvModel|
                        !(wf_model(m) && token@ == token_chars(
                            self.secret@,
                            self.with_csrf,
                            m,
                        )) by {
                        if wf_model(m) && token@ == token_chars(self.secret@, self.with_csrf, m) {
                            lemma_env_representable(
                                m,
                                self.with_csrf,
                                sig_of(self.secret@, canon_of(m, self.with_csrf)),
                            );
                        }
                    }
                }
                return Err(TokenError::Payload);
            },
            Some(v) => v,
        };
        proof {
            assert forall|m: EnvModel|
                wf_model(m) && token@ == token_chars(self.secret@, self.with_csrf, m) implies (
            jview(val) == env_jval(m, self.with_csrf, self.secret@) && obj_lookup(
                jview(val),
                "token_id"@,
            ) == Some(JsonVal::Str(m.token_id)) && obj_lookup(jview(val), "principal"@) == Some(
                JsonVal::Str(m.principal),
            ) && obj_lookup(jview(val), "capabilities"@) == Some(
                JsonVal::Arr(strs_to_jvals(m.caps)),
            ) && obj_lookup(jview(val), "expires_at"@) == Some(JsonVal::Int(m.expires)) && (
            self.with_csrf ==> obj_lookup(jview(val), "csrf_nonce"@) == Some(
                JsonVal::Str(m.nonce),
            )) && obj_lookup(jview(val), "signature"@) == Some(
                JsonVal::Str(sig_of(self.secret@, canon_of(m, self.with_csrf))),
            )) by {
                let sg = sig_of(self.secret@, canon_of(m, self.with_csrf));
                lemma_env_representable(m, self.with_csrf, sg);
                lemma_env_lookup(m, self.with_csrf, sg);
            }
        }
        let token_id = match val.get_field("token_id") {
            Some(x) => match x {
                JsonValue::Str(st) => st.clone(),
                _ => {
                    return Err(TokenError::Payload);
                },
            },
            None => {
                return Err(TokenError::Payload);
            },
        };
        let principal = match val.get_field("principal") {
            Some(x) => match x {
                JsonValue::Str(st) => st.clone(),
                _ => {
                    return Err(TokenError::Payload);
                },
            },
            None => {
                return Err(TokenError::Payload);
            },
        };
        let capabilities = match val.get_field("capabilities") {
            Some(x) => match x {
                JsonValue::Arr(items) => {
                    let mut caps: Vec<String> = Vec::new();
                    let mut i: usize = 0;
                    proof {
                        lemma_jview_items_index(items@);
                    }
                    while i < items.len()
                        invariant
                            0 <= i <= items@.len(),
                            jview_items(items@).len() == items@.len(),
                            forall|t: int|
                                0 <= t < items@.len() ==> jview_items(items@)[t] == jview(
                                    #[trigger] items@[t],
                                ),
                            caps@.len() == i,
                            forall|t: int|
                                0 <= t < i ==> JsonVal::Str(#[trigger] caps@[t]@) == jview_items(
                                    items@,
                                )[t],
                        decreases items@.len() - i,
                    {
                        match &items[i] {
                            JsonValue::Str(st) => {
                                caps.push(st.clone());
                            },
                            _ => {
                                proof {
                                    assert forall|m: EnvModel|
                                        !(wf_model(m) && token@ == token_chars(
                                            self.secret@,
                                            self.with_csrf,
                                            m,
                                        )) by {
                                        if wf_model(m) && token@ == token_chars(
                                            self.secret@,
                                            self.with_csrf,
                                            m,
                                        ) {
                                            assert(jview_items(items@)[i as int] == strs_to_jvals(
                                                m.caps,
                                            )[i as int]);
                                        }
                                    }
                                }
                                return Err(TokenError::Payload);
                            },
                        }
                        i = i + 1;
                    }
                    caps
                },
                _ => {
                    return Err(TokenError::Payload);
                },
            },
            None => {
                return Err(TokenError::Payload);
            },
        };
        let expires_at: u64 = match val.get_field("expires_at") {
            Some(x) => match x {
                JsonValue::Int(n) => {
                    if *n < 0 {
                        return Err(TokenError::Payload);
                    }
                    *n as u64
                },
                _ => {
                    return Err(TokenError::Payload);
                },
            },
            None => {
                return Err(TokenError::Payload);
            },
        };
        let csrf_nonce: String = if self.with_csrf {
            match val.get_field("csrf_nonce") {
                Some(x) => match x {
                    JsonValue::Str(st) => st.clone(),
                    _ => {
                        return Err(TokenError::Payload);
                    },
                },
                None => {
                    return Err(TokenError::Payload);
                },
            }
        } else {
            String::new()
        };
        let sig_field: String = match val.get_field("signature") {
            Some(x) => match x {
                JsonValue::Str(st) => st.clone(),
                _ => {
                    return Err(TokenError::Payload);
                },
            },
            None => {
                return Err(TokenError::Payload);
            },
        };
        let canonical = self.build_canonical(
            &token_id,
            &principal,
            &capabilities,
            expires_at,
            &csrf_nonce,
        );
        let expected_sig = self.sign(&canonical);
        proof {
            assert forall|m: EnvModel|
                wf_model(m) && token@ == token_chars(self.secret@, self.with_csrf, m) implies (
            token_id@ == m.token_id && principal@ == m.principal && capabilities.deep_view()
                == m.caps && expires_at as int == m.expires && (self.with_csrf ==> csrf_nonce@
                == m.nonce) && sig_field@ == sig_of(self.secret@, canon_of(m, self.with_csrf))) by {
                assert(capabilities.deep_view() =~= m.caps) by {
                    assert forall|t: int| 0 <= t < capabilities@.len() implies capabilities@[t]@
                        == m.caps[t] by {
                        assert(JsonVal::Str(capabilities@[t]@) == strs_to_jvals(m.caps)[t]);
                    }
                }
            }
        }
        if !(sig_field == expected_sig) {
            proof {
                assert forall|m: EnvModel|
                    !(wf_model(m) && token@ == token_chars(self.secret@, self.with_csrf, m)) by {
                    if wf_model(m) && token@ == token_chars(self.secret@, self.with_csrf, m) {
                        if self.with_csrf {
                            assert(canonical@ == canon_of(m, self.with_csrf));
                        } else {
                            assert(canon_of(
                                EnvModel {
                                    token_id: token_id@,
                                    principal: principal@,
                                    caps: capabilities.deep_view(),
                                    expires: expires_at as int,
                                    nonce: csrf_nonce@,
                                },
                                false,
                            ) == canon_of(m, false));
                        }
                    }
                }
            }
            return Err(TokenError::Signature);
        }
        let env = TokenEnvelope { token_id, principal, capabilities, expires_at, csrf_nonce };
        if env.expires_at <= now_secs {
            return Err(TokenError::Expired);
        }
        proof {
            assert forall|m: EnvModel|
                wf_model(m) && token@ == token_chars(self.secret@, self.with_csrf, m) implies
                env.view_model() == (EnvModel {
                    nonce: if self.with_csrf {
                        m.nonce
                    } else {
                        Seq::<char>::empty()
                    },
                    ..m
                }) by {
                if !self.with_csrf {
                    assert(env.csrf_nonce@ =~= Seq::<char>::empty());
                }
            }
        }
        Ok(env)
    }
}

} // verus!
