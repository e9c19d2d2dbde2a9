//! OpenAI-compatible API, as an adapter over the native service.
//!
//! A translation layer, not a second engine: an OpenAI-shaped request is
//! checked here and turned into the same job that the native endpoint builds,
//! and the tokens that come back are reshaped on the way out. It implements the
//! parts that correspond to something the engine does; everything else is
//! refused by name rather than accepted and quietly ignored.
pub mod chat;
pub mod completions;
pub mod types;

use crate::ids;
use crate::ids::IdSource;
use crate::service::SubmitError;
use crate::text;
use crate::text::{chars_of, debug_quote, same_text};
use crate::wire;
use crate::wire::{F32Bits, F64Bits, JsonShape};
use types::StreamOptions;
use vstd::prelude::*;

verus! {

/// Default public identifier for the served checkpoint.
pub const DEFAULT_MODEL_ID: &'static str = "crucible-120m";

/// Reject an id that would be confusing or unsafe to echo back.
pub fn validate_model_id(id: &str) -> (r: Result<(), String>)
    ensures
        r is Ok <==> id@.len() > 0 && !id@.contains('/') && !id@.contains('\\'),
        r matches Err(m) ==> m@ == if id@.len() == 0 {
            "model id must not be empty"@
        } else {
            "model id "@ + text::debug_text(id@)
                + " looks like a path; ids are published to clients and must not describe the server's filesystem"@
        },
{
    let chars = chars_of(id);
    if chars.len() == 0 {
        return Err("model id must not be empty".to_owned());
    }
    let mut i: usize = 0;
    while i < chars.len()
        invariant
            i <= chars@.len(),
            chars@ == id@,
            id@.len() > 0,
            forall|k: int| 0 <= k < i ==> chars@[k] != '/' && chars@[k] != '\\',
        decreases chars@.len() - i,
    {
        if chars[i] == '/' || chars[i] == '\\' {
            let mut m = "model id ".to_owned();
            m.append(debug_quote(id).as_str());
            m.append(
                " looks like a path; ids are published to clients and must not describe the server's filesystem",
            );
            assert(id@[i as int] == '/' || id@[i as int] == '\\');
            return Err(m);
        }
        i += 1;
    }
    Ok(())
}

/// Inner object of OpenAI's error envelope. All four fields are required by the
/// schema; `param` and `code` are null when they do not apply.
#[derive(Debug, Clone)]
pub struct ApiErrorBody {
    pub message: String,
    pub kind: &'static str,
    pub param: Option<String>,
    pub code: Option<String>,
}

/// OpenAI's error envelope.
#[derive(Debug, Clone)]
pub struct ApiErrorEnvelope {
    pub error: ApiErrorBody,
}

/// A refusal: the HTTP status, and the error body.
#[derive(Debug, Clone)]
pub struct ApiError {
    pub status: u16,
    pub body: ApiErrorBody,
}

/// What a refusal says.
pub ghost struct ErrorView {
    pub status: u16,
    pub kind: Seq<char>,
    pub message: Seq<char>,
    pub param: Option<Seq<char>>,
    pub code: Option<Seq<char>>,
}

impl View for ApiError {
    type V = ErrorView;

    open spec fn view(&self) -> ErrorView {
        ErrorView {
            status: self.status,
            kind: self.body.kind@,
            message: self.body.message@,
            param: wire::opt_text(self.body.param),
            code: wire::opt_text(self.body.code),
        }
    }
}

/// A request that is malformed or asks for something impossible.
pub open spec fn invalid(message: Seq<char>, param: Option<Seq<char>>) -> ErrorView {
    ErrorView {
        status: 400,
        kind: "invalid_request_error"@,
        message,
        param,
        code: Some("invalid_value"@),
    }
}

/// A required field is absent.
pub open spec fn missing(param: Seq<char>) -> ErrorView {
    ErrorView {
        status: 400,
        kind: "invalid_request_error"@,
        message: "Missing required parameter: '"@ + param + "'."@,
        param: Some(param),
        code: Some("missing_required_parameter"@),
    }
}

/// A parameter that is not implemented.
pub open spec fn unsupported(param: Seq<char>, detail: Seq<char>) -> ErrorView {
    ErrorView {
        status: 400,
        kind: "invalid_request_error"@,
        message: "Unsupported parameter: '"@ + param + "'. "@ + detail,
        param: Some(param),
        code: Some("unsupported_parameter"@),
    }
}

/// A model that this server does not serve.
pub open spec fn model_not_found(requested: Seq<char>, served: Seq<char>) -> ErrorView {
    ErrorView {
        status: 404,
        kind: "invalid_request_error"@,
        message: "The model '"@ + requested
            + "' does not exist. This server serves one model: '"@ + served + "'."@,
        param: Some("model"@),
        code: Some("model_not_found"@),
    }
}

/// The first of two refusals.
pub open spec fn or(first: Option<ErrorView>, second: Option<ErrorView>) -> Option<ErrorView> {
    if first is Some {
        first
    } else {
        second
    }
}

/// The refusal of a request that does not fit the context.
pub open spec fn context_length(message: Seq<char>) -> ErrorView {
    ErrorView {
        status: 400,
        kind: "invalid_request_error"@,
        message,
        param: Some("max_tokens"@),
        code: Some("context_length_exceeded"@),
    }
}

/// The refusal of a request where the queue is full.
pub open spec fn rate_limited(message: Seq<char>) -> ErrorView {
    ErrorView {
        status: 429,
        kind: "rate_limit_error"@,
        message,
        param: None,
        code: Some("rate_limit_exceeded"@),
    }
}

/// The refusal of a request where the service is going away.
pub open spec fn unavailable(message: Seq<char>) -> ErrorView {
    ErrorView {
        status: 503,
        kind: "server_error"@,
        message,
        param: None,
        code: Some("service_unavailable"@),
    }
}

/// The refusal of a parameter that is set to something other than its no-op
/// value.
pub open spec fn refused(set: bool, param: Seq<char>, detail: Seq<char>) -> Option<ErrorView> {
    if set {
        Some(unsupported(param, detail))
    } else {
        None
    }
}

/// Whether a captured JSON value asks for something.
pub open spec fn asks(v: Option<JsonShape>) -> bool {
    v matches Some(j) && !j.hollow()
}

/// Whether a number is set to something other than one.
pub open spec fn not_one(v: Option<F64Bits>) -> bool {
    v matches Some(x) && !x.one()
}

/// Whether a number is set to something other than zero.
pub open spec fn not_zero(v: Option<F64Bits>) -> bool {
    v matches Some(x) && !x.zero()
}

/// The refusal of a model that is not served.
pub open spec fn wrong_model(requested: Option<String>, served: Seq<char>) -> Option<ErrorView> {
    match requested {
        Some(m) => if m@ == served {
            None
        } else {
            Some(model_not_found(m@, served))
        },
        None => None,
    }
}

/// Whether an outcome is a given refusal, or success where there is none.
pub open spec fn answers<T>(r: Result<T, ApiError>, refusal: Option<ErrorView>) -> bool {
    match r {
        Ok(_) => refusal is None,
        Err(e) => refusal == Some(e@),
    }
}

impl ApiError {
    fn new(
        status: u16,
        kind: &'static str,
        message: String,
        param: Option<&str>,
        code: Option<&str>,
    ) -> (e: Self)
        ensures
            e@ == (ErrorView {
                status,
                kind: kind@,
                message: message@,
                param: wire::opt_str(param),
                code: wire::opt_str(code),
            }),
    {
        ApiError {
            status,
            body: ApiErrorBody { message, kind, param: wire::owned(param), code: wire::owned(code) },
        }
    }

    /// A request that is malformed or asks for something impossible.
    pub fn invalid(message: &str, param: Option<&str>) -> (e: Self)
        ensures
            e@ == invalid(message@, wire::opt_str(param)),
    {
        Self::new(400, "invalid_request_error", message.to_owned(), param, Some("invalid_value"))
    }

    /// A required field is absent.
    pub fn missing(param: &str) -> (e: Self)
        ensures
            e@ == missing(param@),
    {
        let mut m = "Missing required parameter: '".to_owned();
        m.append(param);
        m.append("'.");
        Self::new(
            400,
            "invalid_request_error",
            m,
            Some(param),
            Some("missing_required_parameter"),
        )
    }

    /// A parameter that is not implemented: a 400 rather than a silent default.
    pub fn unsupported(param: &str, detail: &str) -> (e: Self)
        ensures
            e@ == unsupported(param@, detail@),
    {
        let mut m = "Unsupported parameter: '".to_owned();
        m.append(param);
        m.append("'. ");
        m.append(detail);
        Self::new(400, "invalid_request_error", m, Some(param), Some("unsupported_parameter"))
    }

    /// A model that this server does not serve.
    pub fn model_not_found(requested: &str, served: &str) -> (e: Self)
        ensures
            e@ == model_not_found(requested@, served@),
    {
        let mut m = "The model '".to_owned();
        m.append(requested);
        m.append("' does not exist. This server serves one model: '");
        m.append(served);
        m.append("'.");
        Self::new(404, "invalid_request_error", m, Some("model"), Some("model_not_found"))
    }

    /// The request does not fit the context.
    pub fn context_length(message: &str) -> (e: Self)
        ensures
            e@ == context_length(message@),
    {
        Self::new(
            400,
            "invalid_request_error",
            message.to_owned(),
            Some("max_tokens"),
            Some("context_length_exceeded"),
        )
    }

    /// The queue is full.
    pub fn rate_limited(message: &str) -> (e: Self)
        ensures
            e@ == rate_limited(message@),
    {
        Self::new(429, "rate_limit_error", message.to_owned(), None, Some("rate_limit_exceeded"))
    }

    /// The service is going away.
    pub fn unavailable(message: &str) -> (e: Self)
        ensures
            e@ == unavailable(message@),
    {
        Self::new(503, "server_error", message.to_owned(), None, Some("service_unavailable"))
    }

    /// The engine failed.
    pub fn server(message: &str) -> (e: Self)
        ensures
            e@ == (ErrorView {
                status: 500,
                kind: "server_error"@,
                message: message@,
                param: None,
                code: None,
            }),
    {
        Self::new(500, "server_error", message.to_owned(), None, None)
    }

    /// A submission failure in this protocol's words.
    pub fn from_submit(e: &SubmitError) -> (r: Self)
        ensures
            r@ == match e {
                SubmitError::TooLarge(_) => context_length(e.text()),
                SubmitError::QueueFull(_) => rate_limited(e.text()),
                SubmitError::Unavailable(_) => unavailable(e.text()),
                _ => invalid(e.text(), None),
            },
    {
        match e {
            SubmitError::TooLarge(m) => Self::context_length(m.as_str()),
            SubmitError::QueueFull(m) => Self::rate_limited(m.as_str()),
            SubmitError::Unavailable(m) => Self::unavailable(m.as_str()),
            _ => Self::invalid(e.message(), None),
        }
    }
}

/// `chatcmpl-...` / `cmpl-...`, unique within the process that `ids` serves.
pub fn new_id(ids: &mut IdSource, prefix: &str) -> (id: String)
    ensures
        exists|reading: Option<(u64, u32)>| #[trigger]
            ids::clock_gives(reading) && id@ == prefix@ + "-"@ + ids::tail_of(
                ids::nanos_of(reading),
                old(ids)@,
            ),
        final(ids)@ == vstd::wrapping::u64_specs::wrapping_add(old(ids)@, 1),
{
    let mut head = prefix.to_owned();
    head.append("-");
    ids.make(head.as_str())
}

/// Seconds since the epoch.
pub fn unix_now() -> (s: i64)
    ensures
        exists|reading: Option<(u64, u32)>| #[trigger]
            ids::clock_gives(reading) && s == ids::seconds_of(reading),
{
    ids::now_seconds()
}

/// `GET /v1/models`: exactly the one model that is served.
pub fn models_list(model_id: &str, created: i64) -> (l: types::ModelList)
    ensures
        l.object@ == "list"@,
        l.data@.len() == 1,
        l.data@[0].id@ == model_id@,
        l.data@[0].object@ == "model"@,
        l.data@[0].created == created,
        l.data@[0].owned_by@ == "crucible"@,
{
    let mut data: Vec<types::ModelObject> = Vec::new();
    data.push(types::ModelObject::new(model_id, created));
    types::ModelList { object: "list", data }
}

/// `GET /v1/models/{model}`.
pub fn models_get(requested: &str, model_id: &str, created: i64) -> (r: Result<
    types::ModelObject,
    ApiError,
>)
    ensures
        r is Ok <==> requested@ == model_id@,
        match r {
            Ok(m) => m.id@ == model_id@ && m.object@ == "model"@ && m.created == created
                && m.owned_by@ == "crucible"@,
            Err(e) => e@ == model_not_found(requested@, model_id@),
        },
{
    if !same_text(requested, model_id) {
        return Err(ApiError::model_not_found(requested, model_id));
    }
    Ok(types::ModelObject::new(model_id, created))
}

/// Check the model field against the one model this process serves.
///
/// Absent is accepted. A *different* model is a 404, never a silent
/// substitution.
pub fn check_model(requested: Option<&str>, served: &str) -> (r: Result<(), ApiError>)
    ensures
        r is Ok <==> (requested matches Some(m) ==> m@ == served@),
        r matches Err(e) ==> requested matches Some(m) && e@ == model_not_found(m@, served@),
{
    match requested {
        None => Ok(()),
        Some(m) => {
            if same_text(m, served) {
                Ok(())
            } else {
                Err(ApiError::model_not_found(m, served))
            }
        },
    }
}

/// Reject a parameter that is present and not at its no-op value.
pub fn reject_if_set<T, F: Fn(&T) -> bool>(
    value: Option<T>,
    is_noop: F,
    param: &str,
    detail: &str,
) -> (r: Result<(), ApiError>)
    requires
        value matches Some(v) ==> is_noop.requires((&v,)),
    ensures
        match value {
            None => r is Ok,
            Some(v) => exists|noop: bool|
                #[trigger] is_noop.ensures((&v,), noop) && (r is Ok <==> noop),
        },
        r matches Err(e) ==> e@ == unsupported(param@, detail@),
{
    match value {
        None => Ok(()),
        Some(v) => {
            let noop: bool = is_noop(&v);
            if noop {
                Ok(())
            } else {
                Err(ApiError::unsupported(param, detail))
            }
        },
    }
}

/// True when a JSON value is absent in the "not asked for" sense: null, an
/// empty array, or an empty object.
pub fn json_is_empty(v: &JsonShape) -> (b: bool)
    ensures
        b == v.hollow(),
{
    v.is_hollow()
}

/// Reject a captured JSON value that asks for something.
fn reject_json(value: Option<&JsonShape>, param: &str, detail: &str) -> (r: Result<(), ApiError>)
    ensures
        answers(
            r,
            refused(
                match value {
                    Some(v) => !v.hollow(),
                    None => false,
                },
                param@,
                detail@,
            ),
        ),
{
    let noop = |v: &&JsonShape| -> (b: bool)
        ensures
            b == v.hollow()
    { json_is_empty(*v) };
    reject_if_set(value, noop, param, detail)
}

/// Reject a number that is not one.
fn reject_not_one(value: Option<F64Bits>, param: &str, detail: &str) -> (r: Result<(), ApiError>)
    ensures
        answers(r, refused(not_one(value), param@, detail@)),
{
    let noop = |v: &F64Bits| -> (b: bool)
        ensures
            b == v.one()
    { v.is_one() };
    reject_if_set(value, noop, param, detail)
}

/// Reject a number that is not zero.
fn reject_not_zero(value: Option<F64Bits>, param: &str, detail: &str) -> (r: Result<(), ApiError>)
    ensures
        answers(r, refused(not_zero(value), param@, detail@)),
{
    let noop = |v: &F64Bits| -> (b: bool)
        ensures
            b == v.zero()
    { v.is_zero() };
    reject_if_set(value, noop, param, detail)
}

/// Reject a count that is not one.
fn reject_not_single(value: Option<u32>, param: &str, detail: &str) -> (r: Result<(), ApiError>)
    ensures
        answers(r, refused(value matches Some(n) && n != 1, param@, detail@)),
{
    let noop = |n: &u32| -> (b: bool)
        ensures
            b == (*n == 1)
    { *n == 1 };
    reject_if_set(value, noop, param, detail)
}

/// Reject a flag that is on.
fn reject_flag(value: Option<bool>, param: &str, detail: &str) -> (r: Result<(), ApiError>)
    ensures
        answers(r, refused(value == Some(true), param@, detail@)),
{
    let noop = |v: &bool| -> (b: bool)
        ensures
            b == !*v
    { !*v };
    reject_if_set(value, noop, param, detail)
}

/// Reject a count that is there at all.
fn reject_any(value: Option<u32>, param: &str, detail: &str) -> (r: Result<(), ApiError>)
    ensures
        answers(r, refused(value is Some, param@, detail@)),
{
    let noop = |_v: &u32| -> (b: bool)
        ensures
            !b
    { false };
    reject_if_set(value, noop, param, detail)
}

/// Check the model field of a request body.
fn check_body_model(requested: &Option<String>, served: &str) -> (r: Result<(), ApiError>)
    ensures
        answers(r, wrong_model(*requested, served@)),
{
    match requested {
        Some(m) => check_model(Some(m.as_str()), served),
        None => check_model(None, served),
    }
}

/// Whether the client asked for a usage chunk.
pub open spec fn wants_usage(o: Option<StreamOptions>) -> bool {
    o matches Some(s) && s.include_usage == Some(true)
}

/// A request that can be served.
#[derive(Debug)]
pub struct Prepared {
    pub prompt: String,
    pub max_tokens: usize,
    pub temperature: Option<F32Bits>,
    pub top_k: Option<usize>,
    pub seed: Option<u64>,
    pub stream: bool,
    pub include_usage: bool,
}

/// The seed a client sent, as the sampler takes it.
pub open spec fn seed_of(seed: Option<i64>) -> Option<u64> {
    match seed {
        Some(s) => Some(s as u64),
        None => None,
    }
}

/// The seed a client sent, as the sampler takes it.
pub fn seed_bits(seed: Option<i64>) -> (r: Option<u64>)
    ensures
        r == seed_of(seed),
{
    match seed {
        Some(s) => Some(#[verifier::truncate] (s as u64)),
        None => None,
    }
}

/// Whether the client asked for a usage chunk.
pub fn usage_wanted(o: &Option<StreamOptions>) -> (b: bool)
    ensures
        b == wants_usage(*o),
{
    match o {
        Some(s) => match s.include_usage {
            Some(b) => b,
            None => false,
        },
        None => false,
    }
}

/// A seed keeps its bits: none stays none, one that is not negative stays what
/// it is, and a negative one wraps.
pub proof fn law_seeds_keep_their_bits(seed: Option<i64>)
    ensures
        seed is None <==> seed_of(seed) is None,
        seed is Some && seed->0 >= 0 ==> seed_of(seed)->0 == seed->0,
        seed is Some && seed->0 < 0 ==> seed_of(seed)->0 == 0x1_0000_0000_0000_0000 + seed->0,
{
    if seed is Some {
        let s: i64 = seed->0;
        if s >= 0 {
            assert(s as u64 == s);
        } else {
            assert(s as u64 == 0x1_0000_0000_0000_0000 + s) by (bit_vector)
                requires
                    s < 0,
            ;
        }
    }
}

/// Every refusal carries the words it was given. A request's own fault is
/// answered in the 400s, with its own status for a full queue and an unknown
/// model; the server's is answered in the 500s.
pub proof fn law_refusals_carry_the_words(message: Seq<char>, param: Option<Seq<char>>, served: Seq<char>)
    ensures
        invalid(message, param).message == message,
        invalid(message, param).param == param,
        invalid(message, param).status == 400,
        context_length(message).message == message,
        context_length(message).status == 400,
        context_length(message).param == Some("max_tokens"@),
        rate_limited(message).message == message,
        rate_limited(message).status == 429,
        unavailable(message).message == message,
        unavailable(message).status == 503,
        missing(message).status == 400,
        missing(message).param == Some(message),
        unsupported(message, served).status == 400,
        unsupported(message, served).param == Some(message),
        model_not_found(message, served).status == 404,
        model_not_found(message, served).param == Some("model"@),
{
}

/// Usage is told in a stream exactly where the options ask for it in so many
/// words.
pub proof fn law_usage_is_told_when_asked(o: Option<StreamOptions>)
    ensures
        o is None ==> !wants_usage(o),
        o is Some && o->0.include_usage is None ==> !wants_usage(o),
        o is Some && o->0.include_usage is Some ==> wants_usage(o) == o->0.include_usage->0,
{
}

} // verus!
