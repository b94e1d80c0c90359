//! The shared command router contract and its recording test double.

use vstd::prelude::*;
use crate::json::{JsonValue, JsonVal, jview};

verus! {

/// Contextual information derived from a validated session token.
#[derive(Debug)]
pub struct SessionContext {
    pub principal: String,
    pub capabilities: Vec<String>,
    pub trace_id: String,
    pub token_id: Option<String>,
    pub peer: Option<String>,
}

/// Mathematical content of a session context.
pub struct CtxModel {
    pub principal: Seq<char>,
    pub capabilities: Seq<Seq<char>>,
    pub trace_id: Seq<char>,
    pub token_id: Option<Seq<char>>,
    pub peer: Option<Seq<char>>,
}

impl SessionContext {
    pub open spec fn view_model(&self) -> CtxModel {
        CtxModel {
            principal: self.principal@,
            capabilities: self.capabilities.deep_view(),
            trace_id: self.trace_id@,
            token_id: match self.token_id {
                Some(t) => Some(t@),
                None => None,
            },
            peer: match self.peer {
                Some(p) => Some(p@),
                None => None,
            },
        }
    }
}

impl SessionContext {
    /// A context with a fresh trace id and no token or peer information.
    pub fn new(principal: String, capabilities: Vec<String>) -> (r: SessionContext)
        ensures
            r.principal == principal,
            r.capabilities == capabilities,
            r.token_id is None,
            r.peer is None,
    {
        SessionContext {
            principal,
            capabilities,
            trace_id: crate::crypto::fresh_uuid(),
            token_id: None,
            peer: None,
        }
    }
}

/// Normalized command forwarded from a transport adapter.
#[derive(Debug)]
pub struct RouterCommand {
    pub name: String,
    pub payload: JsonValue,
}

/// Mathematical content of a router command.
pub struct CmdModel {
    pub name: Seq<char>,
    pub payload: JsonVal,
}

impl RouterCommand {
    pub open spec fn view_model(&self) -> CmdModel {
        CmdModel { name: self.name@, payload: jview(self.payload) }
    }

    /// Construct a new router command.
    pub fn new(name: String, payload: JsonValue) -> (r: RouterCommand)
        ensures
            r.name == name,
            r.payload == payload,
    {
        RouterCommand { name, payload }
    }
}

/// Successful response emitted by the router.
#[derive(Debug)]
pub struct RouterResponse {
    pub status_code: u16,
    pub payload: JsonValue,
    pub diagnostics: Vec<String>,
}

/// Mathematical content of a router response.
pub struct RespModel {
    pub status_code: int,
    pub payload: JsonVal,
    pub diagnostics: Seq<Seq<char>>,
}

impl RouterResponse {
    pub open spec fn view_model(&self) -> RespModel {
        RespModel {
            status_code: self.status_code as int,
            payload: jview(self.payload),
            diagnostics: self.diagnostics.deep_view(),
        }
    }

    /// Convenience constructor for OK responses.
    pub fn ok(payload: JsonValue) -> (r: RouterResponse)
        ensures
            r.view_model() == (RespModel {
                status_code: 200,
                payload: jview(payload),
                diagnostics: Seq::<Seq<char>>::empty(),
            }),
    {
        let r = RouterResponse { status_code: 200, payload, diagnostics: Vec::new() };
        proof {
            assert(r.diagnostics.deep_view() =~= Seq::<Seq<char>>::empty());
        }
        r
    }
}

/// Router errors mapped back to transport adapters.
#[derive(Debug)]
pub enum RouterError {
    /// The principal is not permitted to execute the requested command.
    Unauthorized { detail: String },
    /// The request payload failed validation.
    InvalidRequest { detail: String },
    /// The target command is not registered.
    NotFound { detail: String },
    /// Any other unexpected failure.
    Internal { detail: String },
}

/// Mathematical content of a router error.
pub enum RErrModel {
    Unauthorized(Seq<char>),
    InvalidRequest(Seq<char>),
    NotFound(Seq<char>),
    Internal(Seq<char>),
}

impl RouterError {
    pub open spec fn view_model(&self) -> RErrModel {
        match self {
            RouterError::Unauthorized { detail } => RErrModel::Unauthorized(detail@),
            RouterError::InvalidRequest { detail } => RErrModel::InvalidRequest(detail@),
            RouterError::NotFound { detail } => RErrModel::NotFound(detail@),
            RouterError::Internal { detail } => RErrModel::Internal(detail@),
        }
    }

    /// Status code of an error model.
    pub open spec fn model_status(m: RErrModel) -> int {
        match m {
            RErrModel::Unauthorized(_) => 401,
            RErrModel::InvalidRequest(_) => 400,
            RErrModel::NotFound(_) => 404,
            RErrModel::Internal(_) => 500,
        }
    }

    /// The display text of an error model.
    pub open spec fn model_text(m: RErrModel) -> Seq<char> {
        match m {
            RErrModel::Unauthorized(d) => "unauthorized: "@ + d,
            RErrModel::InvalidRequest(d) => "invalid request: "@ + d,
            RErrModel::NotFound(d) => "not found: "@ + d,
            RErrModel::Internal(d) => "internal error: "@ + d,
        }
    }

    /// Render the error with its embedded detail.
    pub fn text(&self) -> (r: String)
        ensures
            r@ == Self::model_text(self.view_model()),
    {
        let mut out: Vec<char> = Vec::new();
        match self {
            RouterError::Unauthorized { detail } => {
                crate::strutil::push_str_chars(&mut out, "unauthorized: ");
                crate::strutil::push_str_chars(&mut out, detail.as_str());
            },
            RouterError::InvalidRequest { detail } => {
                crate::strutil::push_str_chars(&mut out, "invalid request: ");
                crate::strutil::push_str_chars(&mut out, detail.as_str());
            },
            RouterError::NotFound { detail } => {
                crate::strutil::push_str_chars(&mut out, "not found: ");
                crate::strutil::push_str_chars(&mut out, detail.as_str());
            },
            RouterError::Internal { detail } => {
                crate::strutil::push_str_chars(&mut out, "internal error: ");
                crate::strutil::push_str_chars(&mut out, detail.as_str());
            },
        }
        crate::strutil::chars_to_string(&out)
    }

    /// Map the error into an HTTP-like status code for adapter usage.
    pub fn status_code(&self) -> (r: u16)
        ensures
            r as int == Self::model_status(self.view_model()),
    {
        match self {
            RouterError::Unauthorized { .. } => 401,
            RouterError::InvalidRequest { .. } => 400,
            RouterError::NotFound { .. } => 404,
            RouterError::Internal { .. } => 500,
        }
    }
}

/// A dispatch outcome as a model value.
pub open spec fn result_model(r: &Result<RouterResponse, RouterError>) -> Result<
    RespModel,
    RErrModel,
> {
    match r {
        Ok(resp) => Ok(resp.view_model()),
        Err(e) => Err(e.view_model()),
    }
}

/// Command router abstraction used by all transport adapters. The
/// `dispatch_post` relation says everything a caller may conclude from one
/// dispatch; each implementation defines it.
pub trait CommandRouter: Sized {
    spec fn dispatch_post(
        &self,
        pre: Self,
        ctx: CtxModel,
        cmd: CmdModel,
        r: Result<RespModel, RErrModel>,
    ) -> bool;

    /// Dispatch a normalized command.
    fn dispatch(&mut self, ctx: SessionContext, command: RouterCommand) -> (r: Result<
        RouterResponse,
        RouterError,
    >)
        ensures
            final(self).dispatch_post(
                *old(self),
                ctx.view_model(),
                command.view_model(),
                result_model(&r),
            ),
    ;
}

/// Recorded invocation captured by [`RecordingRouter`].
#[derive(Debug)]
pub struct RouterCall {
    pub context: SessionContext,
    pub command: RouterCommand,
}

/// Mathematical content of a recorded invocation.
pub struct CallModel {
    pub context: CtxModel,
    pub command: CmdModel,
}

impl RouterCall {
    pub open spec fn view_model(&self) -> CallModel {
        CallModel { context: self.context.view_model(), command: self.command.view_model() }
    }
}

/// Simple in-memory router for integration testing: records each call and
/// pops scripted responses in order, defaulting to `200`/null.
pub struct RecordingRouter {
    pub calls: Vec<RouterCall>,
    pub scripted_responses: Vec<Result<RouterResponse, RouterError>>,
}

impl RecordingRouter {
    /// Calls recorded so far, as models, in dispatch order.
    pub open spec fn calls_model(&self) -> Seq<CallModel> {
        self.calls@.map_values(|c: RouterCall| c.view_model())
    }

    /// Scripted responses not yet consumed, as models, in order.
    pub open spec fn scripted_model(&self) -> Seq<Result<RespModel, RErrModel>> {
        self.scripted_responses@.map_values(
            |r: Result<RouterResponse, RouterError>| result_model(&r),
        )
    }

    /// The default response model returned when no script is queued.
    pub open spec fn default_response() -> RespModel {
        RespModel {
            status_code: 200,
            payload: JsonVal::Null,
            diagnostics: seq!["default-script"@],
        }
    }

    pub fn new() -> (r: RecordingRouter)
        ensures
            r.calls_model() == Seq::<CallModel>::empty(),
            r.scripted_model() == Seq::<Result<RespModel, RErrModel>>::empty(),
    {
        let r = RecordingRouter { calls: Vec::new(), scripted_responses: Vec::new() };
        proof {
            assert(r.calls_model() =~= Seq::<CallModel>::empty());
            assert(r.scripted_model() =~= Seq::<Result<RespModel, RErrModel>>::empty());
        }
        r
    }

    /// Queue the response that should be returned for the next dispatch call.
    pub fn script_response(&mut self, response: Result<RouterResponse, RouterError>)
        ensures
            final(self).scripted_model() == old(self).scripted_model().push(
                result_model(&response),
            ),
            final(self).calls_model() == old(self).calls_model(),
    {
        let ghost expected = self.scripted_model().push(result_model(&response));
        self.scripted_responses.push(response);
        proof {
            assert(self.scripted_model() =~= expected);
        }
    }

    /// The calls recorded so far.
    pub fn calls(&self) -> (r: &Vec<RouterCall>)
        ensures
            r@.map_values(|c: RouterCall| c.view_model()) == self.calls_model(),
    {
        &self.calls
    }

    /// Clear recorded calls and scripted responses.
    pub fn clear(&mut self)
        ensures
            final(self).calls_model() == Seq::<CallModel>::empty(),
            final(self).scripted_model() == Seq::<Result<RespModel, RErrModel>>::empty(),
    {
        self.calls.clear();
        self.scripted_responses.clear();
        proof {
            assert(self.calls_model() =~= Seq::<CallModel>::empty());
            assert(self.scripted_model() =~= Seq::<Result<RespModel, RErrModel>>::empty());
        }
    }
}

impl CommandRouter for RecordingRouter {
    open spec fn dispatch_post(
        &self,
        pre: Self,
        ctx: CtxModel,
        cmd: CmdModel,
        r: Result<RespModel, RErrModel>,
    ) -> bool {
        &&& self.calls_model() == pre.calls_model().push(
            CallModel { context: ctx, command: cmd },
        )
        &&& if pre.scripted_model().len() == 0 {
            r == Ok::<RespModel, RErrModel>(Self::default_response()) && self.scripted_model()
                == pre.scripted_model()
        } else {
            r == pre.scripted_model()[0] && self.scripted_model()
                == pre.scripted_model().drop_first()
        }
    }

    fn dispatch(&mut self, ctx: SessionContext, command: RouterCommand) -> (r: Result<
        RouterResponse,
        RouterError,
    >)
        ensures
            final(self).dispatch_post(
                *old(self),
                ctx.view_model(),
                command.view_model(),
                result_model(&r),
            ),
    {
        let ghost pre_calls = self.calls_model();
        let ghost pre_script = self.scripted_model();
        let ghost cm = CallModel { context: ctx.view_model(), command: command.view_model() };
        self.calls.push(RouterCall { context: ctx, command });
        proof {
            assert(self.calls_model() =~= pre_calls.push(cm));
        }
        if self.scripted_responses.len() == 0 {
            let mut diagnostics: Vec<String> = Vec::new();
            diagnostics.push(String::from_str("default-script"));
            let resp = RouterResponse { status_code: 200, payload: JsonValue::Null, diagnostics };
            proof {
                assert(resp.view_model().diagnostics =~= seq!["default-script"@]);
                assert(self.scripted_model() == pre_script);
            }
            Ok(resp)
        } else {
            let r = self.scripted_responses.remove(0);
            proof {
                assert(self.scripted_model() =~= pre_script.drop_first());
                assert(result_model(&r) == pre_script[0]);
            }
            r
        }
    }
}

} // verus!
