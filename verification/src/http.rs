//! Loopback HTTP adapter: bearer and CSRF validation, envelope
//! normalization into router calls.

use vstd::prelude::*;
use crate::json::{JsonValue, JsonVal, jview, obj_lookup};
use crate::router::{
    CommandRouter, CtxModel, CmdModel, RespModel, RErrModel, RouterCommand, RouterError,
    RouterResponse, SessionContext,
};
use crate::strutil::principal_allowed;
use crate::token::{EnvModel, TokenSigner, token_chars, wf_model};
use crate::strutil::{
    chars_to_string, now_millis, push_str_chars, str_eq, str_starts_with, str_to_chars,
};
use vstd::string::StringExecFns;

verus! {

/// HTTP binding and security policy configuration.
pub struct HttpConfig {
    pub host: String,
    pub port: u16,
    pub tls_required: bool,
    pub allowed_principals: Vec<String>,
    pub token_secret: String,
    pub require_csrf: bool,
}

/// A host the adapter may bind: loopback only.
pub open spec fn loopback_host(host: Seq<char>) -> bool {
    ||| (host.len() >= 4 && host.take(4) == "127."@)
    ||| host == "::1"@
    ||| host == "localhost"@
}

impl HttpConfig {
    /// Loopback host, a real port, and a non-empty allow-list.
    pub fn validate(&self) -> (r: Result<(), TransportError>)
        ensures
            r is Ok <==> loopback_host(self.host@) && self.port != 0
                && self.allowed_principals@.len() > 0,
    {
        proof {
            reveal_strlit("127.");
        }
        let is_loopback = str_starts_with(self.host.as_str(), "127.") || str_eq(
            self.host.as_str(),
            "::1",
        ) || str_eq(self.host.as_str(), "localhost");
        if !is_loopback {
            return Err(TransportError::Configuration(
                String::from_str("HTTP adapters must bind to loopback addresses"),
            ));
        }
        if self.port == 0 {
            return Err(TransportError::Configuration(
                String::from_str("port must be greater than zero"),
            ));
        }
        if self.allowed_principals.len() == 0 {
            return Err(TransportError::Configuration(
                String::from_str("at least one principal must be allowed"),
            ));
        }
        Ok(())
    }
}

/// Envelope used to issue and validate HTTP session tokens.
#[derive(Debug)]
pub struct SessionToken {
    pub token: String,
    pub csrf_nonce: String,
    pub expires_at: u64,
    pub token_id: String,
}

/// Canonical HTTP request representation for adapter processing.
pub struct HttpRequest {
    pub method: String,
    pub path: String,
    pub headers: Vec<(String, String)>,
    pub body: JsonValue,
}

impl HttpRequest {
    pub fn new(method: String, path: String, body: JsonValue) -> (r: HttpRequest)
        ensures
            r.method == method,
            r.path == path,
            r.body == body,
            r.headers@.len() == 0,
    {
        HttpRequest { method, path, headers: Vec::new(), body }
    }

    /// Attach a header value.
    pub fn with_header(self, key: String, value: String) -> (r: HttpRequest)
        ensures
            r.method == self.method,
            r.path == self.path,
            r.body == self.body,
            r.headers@ == self.headers@.push((key, value)),
    {
        let mut out = self;
        out.headers.push((key, value));
        out
    }
}

/// Canonical HTTP response returned by the adapter.
#[derive(Debug)]
pub struct HttpResponse {
    pub status: u16,
    pub headers: Vec<(String, String)>,
    pub body: JsonValue,
}

/// Telemetry event emitted by the adapter lifecycle.
#[derive(Debug)]
pub struct TelemetryEvent {
    pub kind: String,
    pub principal: Option<String>,
    pub message: String,
}

/// Sink capturing telemetry events for auditing and testing.
pub struct TelemetrySink {
    pub events: Vec<TelemetryEvent>,
}

impl TelemetrySink {
    /// The recorded events as plain values: kind, principal, message.
    pub open spec fn model(&self) -> Seq<(Seq<char>, Option<Seq<char>>, Seq<char>)> {
        self.events@.map_values(
            |e: TelemetryEvent| (e.kind@, e.principal.deep_view(), e.message@),
        )
    }

    pub fn new() -> (r: TelemetrySink)
        ensures
            r.events@.len() == 0,
            r.model() == Seq::<(Seq<char>, Option<Seq<char>>, Seq<char>)>::empty(),
    {
        let r = TelemetrySink { events: Vec::new() };
        proof {
            assert(r.model() =~= Seq::<(Seq<char>, Option<Seq<char>>, Seq<char>)>::empty());
        }
        r
    }

    pub fn record(&mut self, event: TelemetryEvent)
        ensures
            final(self).events@ == old(self).events@.push(event),
            final(self).model() == old(self).model().push(
                (event.kind@, event.principal.deep_view(), event.message@),
            ),
    {
        let ghost pre = self.model();
        self.events.push(event);
        proof {
            let e = self.events@.last();
            assert(self.model() =~= pre.push((e.kind@, e.principal.deep_view(), e.message@)));
        }
    }

    pub fn events(&self) -> (r: &Vec<TelemetryEvent>)
        ensures
            r == &self.events,
    {
        &self.events
    }
}

/// Errors surfaced by the HTTP adapter.
#[derive(Debug)]
pub enum TransportError {
    Configuration(String),
    Unauthorized(String),
    Csrf(String),
    InvalidRequest(String),
    Router(String),
}

/// Lower-cased ASCII character.
pub open spec fn ascii_lower(c: char) -> char {
    if 'A' <= c && c <= 'Z' {
        (((c as u32) + 32) as u8) as char
    } else {
        c
    }
}

/// Lower-cased ASCII text.
pub open spec fn lower_seq(s: Seq<char>) -> Seq<char> {
    s.map_values(|c: char| ascii_lower(c))
}

/// Case-insensitive ASCII comparison.
pub fn str_eq_ignore_case(a: &str, b: &str) -> (r: bool)
    ensures
        r == (lower_seq(a@) == lower_seq(b@)),
{
    let ca = str_to_chars(a);
    let cb = str_to_chars(b);
    if ca.len() != cb.len() {
        proof {
            assert(lower_seq(a@).len() != lower_seq(b@).len());
        }
        return false;
    }
    let mut i: usize = 0;
    while i < ca.len()
        invariant
            0 <= i <= ca@.len(),
            ca@ == a@,
            cb@ == b@,
            ca@.len() == cb@.len(),
            forall|k: int| 0 <= k < i ==> ascii_lower(a@[k]) == ascii_lower(b@[k]),
        decreases ca@.len() - i,
    {
        let x = ca[i];
        let y = cb[i];
        let lx: char = if 'A' <= x && x <= 'Z' {
            (((x as u32) + 32) as u8) as char
        } else {
            x
        };
        let ly: char = if 'A' <= y && y <= 'Z' {
            (((y as u32) + 32) as u8) as char
        } else {
            y
        };
        if lx != ly {
            proof {
                assert(lower_seq(a@)[i as int] != lower_seq(b@)[i as int]);
            }
            return false;
        }
        i = i + 1;
    }
    proof {
        assert(lower_seq(a@) =~= lower_seq(b@));
    }
    true
}

/// The headers as plain character pairs.
pub open spec fn headers_model(headers: Seq<(String, String)>) -> Seq<(Seq<char>, Seq<char>)> {
    headers.map_values(|h: (String, String)| (h.0@, h.1@))
}

/// First header whose lower-cased name equals the (lower-case) key.
pub open spec fn header_lookup(headers: Seq<(Seq<char>, Seq<char>)>, key: Seq<char>) -> Option<
    Seq<char>,
>
    decreases headers.len(),
{
    if headers.len() == 0 {
        None
    } else if lower_seq(headers[0].0) == key {
        Some(headers[0].1)
    } else {
        header_lookup(headers.drop_first(), key)
    }
}

/// First header whose name matches `key` case-insensitively.
pub fn header_value<'a>(headers: &'a Vec<(String, String)>, key: &str) -> (r: Option<&'a String>)
    requires
        lower_seq(key@) == key@,
    ensures
        match r {
            Some(v) => header_lookup(headers_model(headers@), key@) == Some(v@),
            None => header_lookup(headers_model(headers@), key@) is None,
        },
{
    let ghost hm = headers_model(headers@);
    proof {
        assert(hm.skip(0) =~= hm);
    }
    let mut i: usize = 0;
    while i < headers.len()
        invariant
            0 <= i <= headers@.len(),
            lower_seq(key@) == key@,
            hm == headers_model(headers@),
            hm.len() == headers@.len(),
            header_lookup(hm, key@) == header_lookup(hm.skip(i as int), key@),
        decreases headers@.len() - i,
    {
        proof {
            assert(hm.skip(i as int)[0] == hm[i as int]);
            assert(hm.skip(i as int).drop_first() =~= hm.skip(i + 1));
            assert(hm[i as int] == (headers@[i as int].0@, headers@[i as int].1@));
        }
        if str_eq_ignore_case(headers[i].0.as_str(), key) {
            return Some(&headers[i].1);
        }
        i = i + 1;
    }
    proof {
        assert(hm.skip(hm.len() as int) =~= Seq::<(Seq<char>, Seq<char>)>::empty());
    }
    None
}

/// The string command named by a request body, if any.
pub open spec fn body_command(body: JsonVal) -> Option<Seq<char>> {
    match obj_lookup(body, "command"@) {
        Some(JsonVal::Str(s)) => Some(s),
        _ => None,
    }
}

/// The payload a request body carries, `Null` when absent.
pub open spec fn body_payload(body: JsonVal) -> JsonVal {
    match obj_lookup(body, "payload"@) {
        Some(p) => p,
        None => JsonVal::Null,
    }
}

/// HTTP adapter bridging requests into the runtime router.
pub struct HttpAdapter<R: CommandRouter> {
    pub config: HttpConfig,
    pub router: R,
    pub telemetry: TelemetrySink,
    pub signer: TokenSigner,
}

impl<R: CommandRouter> HttpAdapter<R> {
    /// The request carries a canonical bearer token of envelope `m`,
    /// whatever its expiry or principal.
    pub open spec fn bearer_carried(&self, request: &HttpRequest, m: EnvModel) -> bool {
        &&& wf_model(m)
        &&& self.signer.with_csrf
        &&& header_lookup(headers_model(request.headers@), "authorization"@) == Some(
            "Bearer "@ + token_chars(self.signer.secret@, self.signer.with_csrf, m),
        )
    }

    /// The request carries a canonical bearer token of envelope `m`,
    /// unexpired at `now_secs`, for a still-allowed principal.
    pub open spec fn authorized(&self, request: &HttpRequest, m: EnvModel, now_secs: u64) -> bool {
        &&& self.bearer_carried(request, m)
        &&& m.expires > now_secs
        &&& self.config.allowed_principals.deep_view().contains(m.principal)
    }

    /// The CSRF check passes: either it is not required, or the request
    /// carries the envelope's nonce.
    pub open spec fn csrf_ok(&self, request: &HttpRequest, m: EnvModel) -> bool {
        self.config.require_csrf ==> header_lookup(
            headers_model(request.headers@),
            "x-csrf-token"@,
        ) == Some(m.nonce)
    }

    /// The session context a request dispatches under.
    pub open spec fn request_ctx(&self, request: &HttpRequest, m: EnvModel, tid: Seq<char>) -> CtxModel {
        CtxModel {
            principal: m.principal,
            capabilities: m.caps,
            trace_id: tid,
            token_id: Some(m.token_id),
            peer: Some(
                "http://"@ + self.config.host@ + ":"@ + crate::numfmt::dec_of(
                    self.config.port as nat,
                ) + request.path@,
            ),
        }
    }

    /// Bind the adapter using the provided configuration and router handle.
    pub fn bind(config: HttpConfig, router: R) -> (r: Result<HttpAdapter<R>, TransportError>)
        ensures
            r is Ok <==> loopback_host(config.host@) && config.port != 0
                && config.allowed_principals@.len() > 0,
            r matches Ok(a) ==> a.config == config && a.router == router && a.signer.secret@
                == config.token_secret@ && a.signer.with_csrf,
    {
        match config.validate() {
            Ok(()) => {},
            Err(e) => {
                return Err(e);
            },
        }
        let signer = TokenSigner::new(config.token_secret.clone(), true);
        Ok(HttpAdapter { config, router, telemetry: TelemetrySink::new(), signer })
    }

    /// Issue a session token for an allowed principal; the token carries a
    /// fresh CSRF nonce.
    pub fn issue_session_token_at(
        &mut self,
        principal: &str,
        capabilities: &Vec<String>,
        now_secs: u64,
    ) -> (r: Result<SessionToken, TransportError>)
        requires
            now_secs + 3600 <= i64::MAX,
        ensures
            !old(self).config.allowed_principals.deep_view().contains(principal@) ==> r is Err,
            old(self).config.allowed_principals.deep_view().contains(principal@) ==> (r matches Ok(
                t,
            ) && exists|m: EnvModel|
                wf_model(m) && t.token@ == #[trigger] token_chars(
                    old(self).signer.secret@,
                    old(self).signer.with_csrf,
                    m,
                ) && m.principal == principal@ && m.caps == capabilities.deep_view() && m.expires
                    == now_secs + 3600 && m.nonce == t.csrf_nonce@ && m.token_id == t.token_id@),
            final(self).config == old(self).config,
            final(self).router == old(self).router,
            final(self).signer == old(self).signer,
    {
        if !principal_allowed(&self.config.allowed_principals, principal) {
            let mut msg: Vec<char> = Vec::new();
            push_str_chars(&mut msg, "principal ");
            push_str_chars(&mut msg, principal);
            push_str_chars(&mut msg, " is not permitted");
            return Err(TransportError::Unauthorized(chars_to_string(&msg)));
        }
        let principal_string = String::from_str(principal);
        let issued = self.signer.issue_at(&principal_string, capabilities, now_secs, 3600);
        self.telemetry.record(
            TelemetryEvent {
                kind: String::from_str("http.session.issued"),
                principal: Some(principal_string),
                message: issued.token_id.clone(),
            },
        );
        Ok(
            SessionToken {
                token: issued.token,
                csrf_nonce: issued.csrf_nonce,
                expires_at: issued.expires_at,
                token_id: issued.token_id,
            },
        )
    }

    /// Issue against the wall clock.
    pub fn issue_session_token(&mut self, principal: &str, capabilities: &Vec<String>) -> (r:
        Result<SessionToken, TransportError>)
        ensures
            !old(self).config.allowed_principals.deep_view().contains(principal@) ==> r is Err,
            old(self).config.allowed_principals.deep_view().contains(principal@) ==> ((r matches
            Ok(t) && exists|m: EnvModel|
                wf_model(m) && t.token@ == #[trigger] token_chars(
                    old(self).signer.secret@,
                    old(self).signer.with_csrf,
                    m,
                ) && m.principal == principal@ && m.caps == capabilities.deep_view() && m.nonce
                    == t.csrf_nonce@ && m.token_id == t.token_id@) || (r matches Err(e)
                && e is Configuration)),
            final(self).config == old(self).config,
            final(self).router == old(self).router,
            final(self).signer == old(self).signer,
    {
        let now = now_millis() / 1000;
        if now > 9223372036854771807u64 {
            return Err(TransportError::Configuration(String::from_str("clock out of range")));
        }
        self.issue_session_token_at(principal, capabilities, now)
    }

    /// Dispatch a normalized request to the router: bearer token, principal
    /// allow-list, CSRF nonce, then the command envelope. Errors found
    /// before the router leave it untouched; a canonical, unexpired,
    /// allowed token with the right nonce and a named command reaches the
    /// router exactly once, and the response or wrapped error comes back.
    #[verifier::rlimit(100)]
    pub fn dispatch_at(&mut self, request: &HttpRequest, now_secs: u64) -> (r: Result<
        HttpResponse,
        TransportError,
    >)
        ensures
            r matches Ok(resp) ==> (exists|ctx: CtxModel, cmd: CmdModel, rm: RespModel|
                final(self).router.dispatch_post(
                    old(self).router,
                    ctx,
                    cmd,
                    Ok::<RespModel, RErrModel>(rm),
                ) && resp.status as int == rm.status_code && jview(resp.body) == rm.payload),
            r matches Err(e) ==> (!(e is Router) ==> final(self).router == old(self).router),
            header_lookup(headers_model(request.headers@), "authorization"@) is None ==> (r
                matches Err(e) && e is Unauthorized),
            (header_lookup(headers_model(request.headers@), "authorization"@) matches Some(a)
                && !(a.len() >= 7 && a.take(7) == "Bearer "@)) ==> (r matches Err(e)
                && e is Unauthorized),
            forall|m: EnvModel|
                #[trigger] old(self).bearer_carried(request, m) && m.expires <= now_secs ==> (r
                matches Err(e) && e is Unauthorized),
            forall|m: EnvModel|
                #[trigger] old(self).bearer_carried(request, m) && m.expires > now_secs && !old(
                    self,
                ).config.allowed_principals.deep_view().contains(m.principal) ==> (r matches Err(
                    e,
                ) && e is Unauthorized),
            r matches Err(e) ==> (!(e is Router) ==> final(self).telemetry == old(self).telemetry),
            forall|m: EnvModel|
                #[trigger] old(self).authorized(request, m, now_secs) ==> {
                    &&& (old(self).config.require_csrf && header_lookup(
                        headers_model(request.headers@),
                        "x-csrf-token"@,
                    ) is None ==> (r matches Err(e) && e is Csrf))
                    &&& (old(self).config.require_csrf && (header_lookup(
                        headers_model(request.headers@),
                        "x-csrf-token"@,
                    ) matches Some(x) && x != m.nonce) ==> (r matches Err(e) && e is Csrf))
                    &&& (old(self).csrf_ok(request, m) && body_command(jview(request.body))
                        is None ==> (r matches Err(e) && e is InvalidRequest))
                    &&& (old(self).csrf_ok(request, m) ==> (body_command(jview(request.body))
                        matches Some(name) ==> (exists|
                        tid: Seq<char>,
                        rr: Result<RespModel, RErrModel>,
                    |
                        final(self).router.dispatch_post(
                            old(self).router,
                            old(self).request_ctx(request, m, tid),
                            CmdModel { name: name, payload: body_payload(jview(request.body)) },
                            rr,
                        ) && (match rr {
                            Ok(rm) => r matches Ok(resp) && resp.status as int == rm.status_code
                                && jview(resp.body) == rm.payload
                                && final(self).telemetry.model()
                                == old(self).telemetry.model().push(
                                ("http.request"@, Some(m.principal), name),
                            ).push(
                                (
                                    "http.response"@,
                                    Some(m.principal),
                                    crate::numfmt::dec_of(rm.status_code as nat),
                                ),
                            ),
                            Err(em) => r matches Err(e2) && (e2 matches TransportError::Router(s)
                                && s@ == RouterError::model_text(em))
                                && final(self).telemetry.model()
                                == old(self).telemetry.model().push(
                                ("http.request"@, Some(m.principal), name),
                            ).push(
                                ("http.router.error"@, Some(m.principal), RouterError::model_text(em)),
                            ),
                        }))))
                },
            final(self).config == old(self).config,
            final(self).signer == old(self).signer,
    {
        let ghost hm = headers_model(request.headers@);
        proof {
            reveal_strlit("authorization");
            assert(lower_seq("authorization"@) =~= "authorization"@);
        }
        let auth = match header_value(&request.headers, "authorization") {
            Some(v) => v,
            None => {
                return Err(TransportError::Unauthorized(
                    String::from_str("missing authorization header"),
                ));
            },
        };
        proof {
            reveal_strlit("Bearer ");
        }
        if !str_starts_with(auth.as_str(), "Bearer ") {
            proof {
                assert forall|m: EnvModel| !old(self).bearer_carried(request, m) by {
                    if old(self).bearer_carried(request, m) {
                        let tc = token_chars(self.signer.secret@, self.signer.with_csrf, m);
                        assert(auth@ == "Bearer "@ + tc);
                        assert(auth@.take(7) =~= "Bearer "@);
                    }
                }
            }
            return Err(TransportError::Unauthorized(String::from_str("expected bearer token")));
        }
        let auth_chars = str_to_chars(auth.as_str());
        let token_chars_vec = crate::jsonparse::chars_suffix(&auth_chars, 7);
        let token_str = chars_to_string(&token_chars_vec);
        proof {
            assert forall|m: EnvModel| old(self).bearer_carried(request, m) implies token_str@
                == token_chars(self.signer.secret@, self.signer.with_csrf, m) by {
                let tc = token_chars(self.signer.secret@, self.signer.with_csrf, m);
                assert(auth@ == "Bearer "@ + tc);
                assert(auth@.skip(7) =~= tc);
            }
        }
        let envelope = match self.signer.verify_at(token_str.as_str(), now_secs) {
            Ok(env) => env,
            Err(_) => {
                return Err(TransportError::Unauthorized(
                    String::from_str("token failed verification"),
                ));
            },
        };
        if !principal_allowed(&self.config.allowed_principals, envelope.principal.as_str()) {
            let mut msg: Vec<char> = Vec::new();
            push_str_chars(&mut msg, "principal ");
            push_str_chars(&mut msg, envelope.principal.as_str());
            push_str_chars(&mut msg, " is not permitted");
            return Err(TransportError::Unauthorized(chars_to_string(&msg)));
        }
        if self.config.require_csrf {
            proof {
                reveal_strlit("x-csrf-token");
                assert(lower_seq("x-csrf-token"@) =~= "x-csrf-token"@);
            }
            let csrf = match header_value(&request.headers, "x-csrf-token") {
                Some(v) => v,
                None => {
                    return Err(TransportError::Csrf(String::from_str("missing csrf token")));
                },
            };
            if !str_eq(csrf.as_str(), envelope.csrf_nonce.as_str()) {
                return Err(TransportError::Csrf(String::from_str("csrf token mismatch")));
            }
        }
        let command = match request.body.get_field("command") {
            Some(v) => match v {
                JsonValue::Str(name) => name.clone(),
                _ => {
                    proof {
                        crate::json::lemma_jview_is_str(*v);
                    }
                    return Err(TransportError::InvalidRequest(
                        String::from_str("command field missing"),
                    ));
                },
            },
            None => {
                return Err(TransportError::InvalidRequest(
                    String::from_str("command field missing"),
                ));
            },
        };
        let payload = match request.body.get_field("payload") {
            Some(v) => v.duplicate(),
            None => JsonValue::Null,
        };
        let mut peer: Vec<char> = Vec::new();
        push_str_chars(&mut peer, "http://");
        push_str_chars(&mut peer, self.config.host.as_str());
        push_str_chars(&mut peer, ":");
        crate::numfmt::push_dec(self.config.port as u64, &mut peer);
        push_str_chars(&mut peer, request.path.as_str());
        let trace_id = crate::crypto::fresh_uuid();
        let context = SessionContext {
            principal: envelope.principal.clone(),
            capabilities: envelope.capabilities,
            trace_id,
            token_id: Some(envelope.token_id),
            peer: Some(chars_to_string(&peer)),
        };
        let ghost ctx_m = context.view_model();
        proof {
            assert forall|m: EnvModel| old(self).authorized(request, m, now_secs) implies ctx_m
                == old(self).request_ctx(request, m, ctx_m.trace_id) && command@
                == match body_command(jview(request.body)) {
                Some(n) => n,
                None => command@,
            } && jview(payload) == body_payload(jview(request.body)) by {
                assert(ctx_m.peer == Some(
                    "http://"@ + self.config.host@ + ":"@ + crate::numfmt::dec_of(
                        self.config.port as nat,
                    ) + request.path@,
                )) by {
                    assert(peer@ =~= "http://"@ + self.config.host@ + ":"@ + crate::numfmt::dec_of(
                        self.config.port as nat,
                    ) + request.path@);
                }
            }
        }
        proof {
            reveal_strlit("http.request");
            reveal_strlit("http.response");
            reveal_strlit("http.router.error");
        }
        let ghost tel0 = self.telemetry.model();
        self.telemetry.record(
            TelemetryEvent {
                kind: String::from_str("http.request"),
                principal: Some(envelope.principal.clone()),
                message: command.clone(),
            },
        );
        let cmd = RouterCommand { name: command, payload };
        let ghost cmd_m = cmd.view_model();
        let response = match self.router.dispatch(context, cmd) {
            Ok(resp) => resp,
            Err(err) => {
                let ghost err_m = err.view_model();
                let detail = err.text();
                self.telemetry.record(
                    TelemetryEvent {
                        kind: String::from_str("http.router.error"),
                        principal: Some(envelope.principal.clone()),
                        message: detail.clone(),
                    },
                );
                proof {
                    assert(self.router.dispatch_post(
                        old(self).router,
                        ctx_m,
                        cmd_m,
                        Err::<RespModel, RErrModel>(err_m),
                    ));
                }
                return Err(TransportError::Router(detail));
            },
        };
        let ghost resp_m = response.view_model();
        proof {
            assert(self.router.dispatch_post(
                old(self).router,
                ctx_m,
                cmd_m,
                Ok::<RespModel, RErrModel>(resp_m),
            ));
        }
        let mut status_text: Vec<char> = Vec::new();
        crate::numfmt::push_dec(response.status_code as u64, &mut status_text);
        self.telemetry.record(
            TelemetryEvent {
                kind: String::from_str("http.response"),
                principal: Some(envelope.principal),
                message: chars_to_string(&status_text),
            },
        );
        let mut headers: Vec<(String, String)> = Vec::new();
        headers.push((String::from_str("content-type"), String::from_str("application/json")));
        let out = HttpResponse { status: response.status_code, headers, body: response.payload };
        proof {
            assert(self.router.dispatch_post(
                old(self).router,
                ctx_m,
                cmd_m,
                Ok::<RespModel, RErrModel>(resp_m),
            ) && out.status as int == resp_m.status_code && jview(out.body) == resp_m.payload);
        }
        Ok(out)
    }

    /// Dispatch against the wall clock.
    pub fn dispatch(&mut self, request: &HttpRequest) -> (r: Result<HttpResponse, TransportError>)
        ensures
            r matches Ok(resp) ==> (exists|ctx: CtxModel, cmd: CmdModel, rm: RespModel|
                final(self).router.dispatch_post(
                    old(self).router,
                    ctx,
                    cmd,
                    Ok::<RespModel, RErrModel>(rm),
                ) && resp.status as int == rm.status_code && jview(resp.body) == rm.payload),
            r matches Err(e) ==> (!(e is Router) ==> final(self).router == old(self).router
                && final(self).telemetry == old(self).telemetry),
            final(self).config == old(self).config,
            final(self).signer == old(self).signer,
    {
        let now = now_millis() / 1000;
        self.dispatch_at(request, now)
    }

    /// The telemetry ledger.
    pub fn telemetry(&self) -> (r: &TelemetrySink)
        ensures
            r == &self.telemetry,
    {
        &self.telemetry
    }
}

} // verus!
