//! Unix-domain-socket adapter: peer-UID negotiation and token binding
//! before dispatch.

use vstd::prelude::*;
use crate::json::{JsonValue, JsonVal, jview, obj_lookup};
use crate::router::{
    CommandRouter, CtxModel, CmdModel, RespModel, RErrModel, RouterCommand, RouterError,
    SessionContext,
};
use crate::strutil::principal_allowed;
use crate::token::{EnvModel, TokenSigner, token_chars, wf_model};
use crate::strutil::{chars_to_string, now_millis, push_str_chars, str_starts_with};
use vstd::string::StringExecFns;

verus! {

/// UDS adapter configuration.
pub struct UdsConfig {
    pub socket_path: String,
    pub allowed_principals: Vec<String>,
    pub allowed_uids: Vec<u32>,
    pub token_secret: String,
}

impl UdsConfig {
    /// Absolute socket path and non-empty allow-lists.
    pub fn validate(&self) -> (r: Result<(), TransportError>)
        ensures
            r is Ok <==> (self.socket_path@.len() >= 1 && self.socket_path@.take(1) == "/"@)
                && self.allowed_principals@.len() > 0 && self.allowed_uids@.len() > 0,
    {
        proof {
            reveal_strlit("/");
        }
        if !str_starts_with(self.socket_path.as_str(), "/") {
            return Err(TransportError::Configuration(
                String::from_str("socket path must be absolute"),
            ));
        }
        if self.allowed_principals.len() == 0 {
            return Err(TransportError::Configuration(
                String::from_str("at least one principal must be allowed"),
            ));
        }
        if self.allowed_uids.len() == 0 {
            return Err(TransportError::Configuration(
                String::from_str("allowed UID list cannot be empty"),
            ));
        }
        Ok(())
    }
}

/// Peer credentials extracted from the UDS handshake.
#[derive(Debug)]
pub struct PeerCredentials {
    pub uid: u32,
    pub pid: u32,
    pub process_name: String,
}

impl PeerCredentials {
    pub fn duplicate(&self) -> (r: PeerCredentials)
        ensures
            r.uid == self.uid,
            r.pid == self.pid,
            r.process_name@ == self.process_name@,
    {
        PeerCredentials {
            uid: self.uid,
            pid: self.pid,
            process_name: self.process_name.clone(),
        }
    }
}

/// Issued session token.
#[derive(Debug)]
pub struct SessionToken {
    pub token: String,
    pub token_id: String,
    pub expires_at: u64,
}

/// Request envelope for UDS dispatch.
pub struct UdsRequest {
    pub peer: PeerCredentials,
    pub token: String,
    pub payload: JsonValue,
}

impl UdsRequest {
    pub fn new(peer: PeerCredentials, token: String, payload: JsonValue) -> (r: UdsRequest)
        ensures
            r.peer == peer,
            r.token == token,
            r.payload == payload,
    {
        UdsRequest { peer, token, payload }
    }
}

/// Telemetry event captured for auditing.
#[derive(Debug)]
pub struct TelemetryEvent {
    pub kind: String,
    pub message: String,
    pub principal: Option<String>,
}

pub struct TelemetrySink {
    pub events: Vec<TelemetryEvent>,
}

impl TelemetrySink {
    /// The recorded events as plain values: kind, principal, message.
    pub open spec fn model(&self) -> Seq<(Seq<char>, Option<Seq<char>>, Seq<char>)> {
        self.events@.map_values(
            |e: TelemetryEvent| (e.kind@, e.principal.deep_view(), e.message@),
        )
    }

    pub fn new() -> (r: TelemetrySink)
        ensures
            r.events@.len() == 0,
            r.model() == Seq::<(Seq<char>, Option<Seq<char>>, Seq<char>)>::empty(),
    {
        let r = TelemetrySink { events: Vec::new() };
        proof {
            assert(r.model() =~= Seq::<(Seq<char>, Option<Seq<char>>, Seq<char>)>::empty());
        }
        r
    }

    pub fn record(&mut self, event: TelemetryEvent)
        ensures
            final(self).events@ == old(self).events@.push(event),
            final(self).model() == old(self).model().push(
                (event.kind@, event.principal.deep_view(), event.message@),
            ),
    {
        let ghost pre = self.model();
        self.events.push(event);
        proof {
            let e = self.events@.last();
            assert(self.model() =~= pre.push((e.kind@, e.principal.deep_view(), e.message@)));
        }
    }

    pub fn events(&self) -> (r: &Vec<TelemetryEvent>)
        ensures
            r == &self.events,
    {
        &self.events
    }
}

/// Errors produced by the adapter.
#[derive(Debug)]
pub enum TransportError {
    Configuration(String),
    Unauthorized(String),
    Router(RouterError),
}

impl TransportError {
    /// The status code of a wrapped router error.
    pub fn router_status_code(&self) -> (r: Option<u16>)
        ensures
            match self {
                TransportError::Router(e) => r matches Some(c) && c as int
                    == RouterError::model_status(e.view_model()),
                _ => r is None,
            },
    {
        match self {
            TransportError::Router(err) => Some(err.status_code()),
            _ => None,
        }
    }
}

/// Whether a UID occurs in a list.
fn uid_in(uids: &Vec<u32>, uid: u32) -> (r: bool)
    ensures
        r == uids@.contains(uid),
{
    let mut i: usize = 0;
    while i < uids.len()
        invariant
            0 <= i <= uids@.len(),
            forall|k: int| 0 <= k < i ==> uids@[k] != uid,
        decreases uids@.len() - i,
    {
        if uids[i] == uid {
            return true;
        }
        i = i + 1;
    }
    proof {
        if uids@.contains(uid) {
            let k = choose|k: int| 0 <= k < uids@.len() && uids@[k] == uid;
            assert(uids@[k] != uid);
        }
    }
    false
}

/// UDS adapter bridging IPC requests into the router.
pub struct UdsAdapter<R: CommandRouter> {
    pub config: UdsConfig,
    pub router: R,
    pub telemetry: TelemetrySink,
    pub signer: TokenSigner,
    pub negotiated_uids: Vec<u32>,
}

impl<R: CommandRouter> UdsAdapter<R> {
    /// The request carries a canonical token of envelope `m`, unexpired at
    /// `now_secs`, for a still-allowed principal.
    pub open spec fn authorized(&self, request: &UdsRequest, m: EnvModel, now_secs: u64) -> bool {
        &&& wf_model(m)
        &&& !self.signer.with_csrf
        &&& request.token@ == token_chars(self.signer.secret@, self.signer.with_csrf, m)
        &&& m.expires > now_secs
        &&& self.config.allowed_principals.deep_view().contains(m.principal)
    }

    /// The session context a request dispatches under.
    pub open spec fn request_ctx(&self, request: &UdsRequest, m: EnvModel, tid: Seq<char>) -> CtxModel {
        CtxModel {
            principal: m.principal,
            capabilities: m.caps,
            trace_id: tid,
            token_id: Some(m.token_id),
            peer: Some("uds://"@ + request.peer.process_name@),
        }
    }

    pub fn bind(config: UdsConfig, router: R) -> (r: Result<UdsAdapter<R>, TransportError>)
        ensures
            r is Ok <==> (config.socket_path@.len() >= 1 && config.socket_path@.take(1) == "/"@)
                && config.allowed_principals@.len() > 0 && config.allowed_uids@.len() > 0,
            r matches Ok(a) ==> a.config == config && a.router == router && a.signer.secret@
                == config.token_secret@ && !a.signer.with_csrf && a.negotiated_uids@.len() == 0,
    {
        match config.validate() {
            Ok(()) => {},
            Err(e) => {
                return Err(e);
            },
        }
        let signer = TokenSigner::new(config.token_secret.clone(), false);
        Ok(
            UdsAdapter {
                config,
                router,
                telemetry: TelemetrySink::new(),
                signer,
                negotiated_uids: Vec::new(),
            },
        )
    }

    /// Accept a peer whose UID is allow-listed, recording the UID; the same
    /// UID may be negotiated again by another process.
    pub fn negotiate_peer(&mut self, peer: &PeerCredentials) -> (r: Result<(), TransportError>)
        ensures
            r is Ok <==> old(self).config.allowed_uids@.contains(peer.uid),
            r is Ok ==> final(self).negotiated_uids@.contains(peer.uid),
            r is Ok ==> final(self).telemetry.model() == old(self).telemetry.model().push(
                (
                    "uds.peer.accepted"@,
                    None::<Seq<char>>,
                    crate::numfmt::dec_of(peer.uid as nat) + ":"@ + peer.process_name@,
                ),
            ),
            r is Err ==> final(self).negotiated_uids == old(self).negotiated_uids && (r matches
            Err(e) && e is Unauthorized) && final(self).telemetry == old(self).telemetry,
            forall|u: u32|
                old(self).negotiated_uids@.contains(u) ==> final(self).negotiated_uids@.contains(
                    u,
                ),
            forall|u: u32|
                final(self).negotiated_uids@.contains(u) ==> old(
                    self,
                ).negotiated_uids@.contains(u) || u == peer.uid,
            final(self).config == old(self).config,
            final(self).router == old(self).router,
            final(self).signer == old(self).signer,
    {
        if !uid_in(&self.config.allowed_uids, peer.uid) {
            let mut msg: Vec<char> = Vec::new();
            push_str_chars(&mut msg, "uid ");
            crate::numfmt::push_dec(peer.uid as u64, &mut msg);
            push_str_chars(&mut msg, " not permitted");
            return Err(TransportError::Unauthorized(chars_to_string(&msg)));
        }
        let mut msg: Vec<char> = Vec::new();
        crate::numfmt::push_dec(peer.uid as u64, &mut msg);
        push_str_chars(&mut msg, ":");
        push_str_chars(&mut msg, peer.process_name.as_str());
        proof {
            assert(msg@ =~= crate::numfmt::dec_of(peer.uid as nat) + ":"@
                + peer.process_name@);
        }
        self.telemetry.record(
            TelemetryEvent {
                kind: String::from_str("uds.peer.accepted"),
                message: chars_to_string(&msg),
                principal: None,
            },
        );
        if !uid_in(&self.negotiated_uids, peer.uid) {
            let ghost pre = self.negotiated_uids@;
            self.negotiated_uids.push(peer.uid);
            proof {
                assert(self.negotiated_uids@ =~= pre.push(peer.uid));
                assert(self.negotiated_uids@[pre.len() as int] == peer.uid);
                assert forall|u: u32| pre.contains(u) implies self.negotiated_uids@.contains(
                    u,
                ) by {
                    let k = choose|k: int| 0 <= k < pre.len() && pre[k] == u;
                    assert(self.negotiated_uids@[k] == u);
                }
                assert forall|u: u32|
                    self.negotiated_uids@.contains(u) implies pre.contains(u) || u
                    == peer.uid by {
                    let k = choose|k: int|
                        0 <= k < self.negotiated_uids@.len() && self.negotiated_uids@[k] == u;
                    if k < pre.len() {
                        assert(pre[k] == u);
                    }
                }
            }
        }
        Ok(())
    }

    /// Issue a session token for an allowed principal.
    pub fn issue_session_token_at(
        &mut self,
        principal: &str,
        capabilities: &Vec<String>,
        now_secs: u64,
    ) -> (r: Result<SessionToken, TransportError>)
        requires
            now_secs + 3600 <= i64::MAX,
        ensures
            !old(self).config.allowed_principals.deep_view().contains(principal@) ==> r is Err,
            old(self).config.allowed_principals.deep_view().contains(principal@) ==> (r matches Ok(
                t,
            ) && exists|m: EnvModel|
                wf_model(m) && t.token@ == #[trigger] token_chars(
                    old(self).signer.secret@,
                    old(self).signer.with_csrf,
                    m,
                ) && m.principal == principal@ && m.caps == capabilities.deep_view() && m.expires
                    == now_secs + 3600),
            final(self).config == old(self).config,
            final(self).router == old(self).router,
            final(self).signer == old(self).signer,
            final(self).negotiated_uids == old(self).negotiated_uids,
    {
        if !principal_allowed(&self.config.allowed_principals, principal) {
            let mut msg: Vec<char> = Vec::new();
            push_str_chars(&mut msg, "principal ");
            push_str_chars(&mut msg, principal);
            push_str_chars(&mut msg, " is not permitted");
            return Err(TransportError::Unauthorized(chars_to_string(&msg)));
        }
        let principal_string = String::from_str(principal);
        let issued = self.signer.issue_at(&principal_string, capabilities, now_secs, 3600);
        self.telemetry.record(
            TelemetryEvent {
                kind: String::from_str("uds.session.issued"),
                message: issued.token_id.clone(),
                principal: Some(principal_string),
            },
        );
        Ok(
            SessionToken {
                token: issued.token,
                token_id: issued.token_id,
                expires_at: issued.expires_at,
            },
        )
    }

    /// Issue against the wall clock.
    pub fn issue_session_token(&mut self, principal: &str, capabilities: &Vec<String>) -> (r:
        Result<SessionToken, TransportError>)
        ensures
            !old(self).config.allowed_principals.deep_view().contains(principal@) ==> r is Err,
            old(self).config.allowed_principals.deep_view().contains(principal@) ==> ((r matches
            Ok(t) && exists|m: EnvModel|
                wf_model(m) && t.token@ == #[trigger] token_chars(
                    old(self).signer.secret@,
                    old(self).signer.with_csrf,
                    m,
                ) && m.principal == principal@ && m.caps == capabilities.deep_view()) || (r
            matches Err(e) && e is Configuration)),
            final(self).config == old(self).config,
            final(self).router == old(self).router,
            final(self).signer == old(self).signer,
            final(self).negotiated_uids == old(self).negotiated_uids,
    {
        let now = now_millis() / 1000;
        if now > 9223372036854771807u64 {
            return Err(TransportError::Configuration(String::from_str("clock out of range")));
        }
        self.issue_session_token_at(principal, capabilities, now)
    }

    /// Dispatch a request: the peer must have negotiated, the token must
    /// verify, the principal must still be allowed, and the payload must
    /// name a command. Errors found before the router leave it untouched; a
    /// negotiated peer with a canonical token and a named command reaches
    /// the router exactly once.
    #[verifier::rlimit(100)]
    pub fn dispatch_at(&mut self, request: &UdsRequest, now_secs: u64) -> (r: Result<
        JsonValue,
        TransportError,
    >)
        ensures
            !old(self).negotiated_uids@.contains(request.peer.uid) ==> (r matches Err(e)
                && e is Unauthorized) && final(self).router == old(self).router,
            r matches Ok(v) ==> (exists|ctx: CtxModel, cmd: CmdModel, rm: RespModel|
                final(self).router.dispatch_post(
                    old(self).router,
                    ctx,
                    cmd,
                    Ok::<RespModel, RErrModel>(rm),
                ) && jview(v) == rm.payload),
            r matches Err(e) ==> (e matches TransportError::Router(re) ==> exists|
                ctx: CtxModel,
                cmd: CmdModel,
            |
                final(self).router.dispatch_post(
                    old(self).router,
                    ctx,
                    cmd,
                    Err::<RespModel, RErrModel>(re.view_model()),
                )),
            r matches Err(e) ==> (!(e is Router) ==> final(self).router == old(self).router
                && final(self).telemetry == old(self).telemetry),
            forall|m: EnvModel|
                (#[trigger] old(self).authorized(request, m, now_secs)) && old(
                    self,
                ).negotiated_uids@.contains(request.peer.uid) ==> {
                    &&& (crate::http::body_command(jview(request.payload)) is None ==> (r
                        matches Err(e) && e is Unauthorized))
                    &&& (crate::http::body_command(jview(request.payload)) matches Some(name)
                        ==> (exists|tid: Seq<char>, rr: Result<RespModel, RErrModel>|
                        final(self).router.dispatch_post(
                            old(self).router,
                            old(self).request_ctx(request, m, tid),
                            CmdModel {
                                name: name,
                                payload: crate::http::body_payload(jview(request.payload)),
                            },
                            rr,
                        ) && (match rr {
                            Ok(rm) => r matches Ok(v) && jview(v) == rm.payload,
                            Err(em) => r matches Err(e2) && (e2 matches TransportError::Router(
                                re,
                            ) && re.view_model() == em),
                        })))
                },
            final(self).config == old(self).config,
            final(self).signer == old(self).signer,
    {
        if !uid_in(&self.negotiated_uids, request.peer.uid) {
            let mut msg: Vec<char> = Vec::new();
            push_str_chars(&mut msg, "uid ");
            crate::numfmt::push_dec(request.peer.uid as u64, &mut msg);
            push_str_chars(&mut msg, " not negotiated");
            return Err(TransportError::Unauthorized(chars_to_string(&msg)));
        }
        let envelope = match self.signer.verify_at(request.token.as_str(), now_secs) {
            Ok(env) => env,
            Err(_) => {
                return Err(TransportError::Unauthorized(
                    String::from_str("token failed verification"),
                ));
            },
        };
        if !principal_allowed(&self.config.allowed_principals, envelope.principal.as_str()) {
            let mut msg: Vec<char> = Vec::new();
            push_str_chars(&mut msg, "principal ");
            push_str_chars(&mut msg, envelope.principal.as_str());
            push_str_chars(&mut msg, " is not permitted");
            return Err(TransportError::Unauthorized(chars_to_string(&msg)));
        }
        let command = match request.payload.get_field("command") {
            Some(v) => match v {
                JsonValue::Str(name) => name.clone(),
                _ => {
                    proof {
                        crate::json::lemma_jview_is_str(*v);
                    }
                    return Err(TransportError::Unauthorized(String::from_str("command missing")));
                },
            },
            None => {
                return Err(TransportError::Unauthorized(String::from_str("command missing")));
            },
        };
        let body = match request.payload.get_field("payload") {
            Some(v) => v.duplicate(),
            None => JsonValue::Null,
        };
        let mut peer_text: Vec<char> = Vec::new();
        push_str_chars(&mut peer_text, "uds://");
        push_str_chars(&mut peer_text, request.peer.process_name.as_str());
        let trace_id = crate::crypto::fresh_uuid();
        let context = SessionContext {
            principal: envelope.principal.clone(),
            capabilities: envelope.capabilities,
            trace_id,
            token_id: Some(envelope.token_id),
            peer: Some(chars_to_string(&peer_text)),
        };
        let ghost ctx_m = context.view_model();
        proof {
            assert forall|m: EnvModel|
                old(self).authorized(request, m, now_secs) && old(
                    self,
                ).negotiated_uids@.contains(request.peer.uid) implies ctx_m == old(
                self,
            ).request_ctx(request, m, ctx_m.trace_id) && command@ == match crate::http::body_command(
                jview(request.payload),
            ) {
                Some(n) => n,
                None => command@,
            } && jview(body) == crate::http::body_payload(jview(request.payload)) by {
                assert(peer_text@ =~= "uds://"@ + request.peer.process_name@);
            }
        }
        self.telemetry.record(
            TelemetryEvent {
                kind: String::from_str("uds.request"),
                message: command.clone(),
                principal: Some(envelope.principal.clone()),
            },
        );
        let cmd = RouterCommand { name: command, payload: body };
        let ghost cmd_m = cmd.view_model();
        let response = match self.router.dispatch(context, cmd) {
            Ok(resp) => resp,
            Err(err) => {
                let ghost err_m = err.view_model();
                self.telemetry.record(
                    TelemetryEvent {
                        kind: String::from_str("uds.router.error"),
                        message: err.text(),
                        principal: Some(envelope.principal.clone()),
                    },
                );
                proof {
                    assert(self.router.dispatch_post(
                        old(self).router,
                        ctx_m,
                        cmd_m,
                        Err::<RespModel, RErrModel>(err_m),
                    ));
                }
                return Err(TransportError::Router(err));
            },
        };
        let ghost resp_m = response.view_model();
        proof {
            assert(self.router.dispatch_post(
                old(self).router,
                ctx_m,
                cmd_m,
                Ok::<RespModel, RErrModel>(resp_m),
            ));
        }
        let mut status_text: Vec<char> = Vec::new();
        crate::numfmt::push_dec(response.status_code as u64, &mut status_text);
        self.telemetry.record(
            TelemetryEvent {
                kind: String::from_str("uds.response"),
                message: chars_to_string(&status_text),
                principal: Some(envelope.principal),
            },
        );
        let out = response.payload;
        proof {
            assert(self.router.dispatch_post(
                old(self).router,
                ctx_m,
                cmd_m,
                Ok::<RespModel, RErrModel>(resp_m),
            ) && jview(out) == resp_m.payload);
        }
        Ok(out)
    }

    /// Dispatch against the wall clock.
    pub fn dispatch(&mut self, request: &UdsRequest) -> (r: Result<JsonValue, TransportError>)
        ensures
            !old(self).negotiated_uids@.contains(request.peer.uid) ==> r is Err,
            r matches Ok(v) ==> (exists|ctx: CtxModel, cmd: CmdModel, rm: RespModel|
                final(self).router.dispatch_post(
                    old(self).router,
                    ctx,
                    cmd,
                    Ok::<RespModel, RErrModel>(rm),
                ) && jview(v) == rm.payload),
            r matches Err(e) ==> (!(e is Router) ==> final(self).router == old(self).router),
            final(self).config == old(self).config,
            final(self).signer == old(self).signer,
    {
        let now = now_millis() / 1000;
        self.dispatch_at(request, now)
    }

    /// The telemetry ledger.
    pub fn telemetry(&self) -> (r: &TelemetrySink)
        ensures
            r == &self.telemetry,
    {
        &self.telemetry
    }
}

} // verus!
