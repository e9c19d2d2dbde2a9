//! Anthropic-compatible Messages API, as a second adapter over the same
//! service.
//!
//! Deliberately not built on the OpenAI adapter: the two protocols disagree
//! about where the system prompt lives, whether `max_tokens` is required, how
//! content is shaped, and what streaming looks like. What they share, turning a
//! conversation into prompt text, lives in `chat_template` and is shared there.
pub mod messages;
pub mod types;

use crate::calendar;
use crate::ids;
use crate::ids::IdSource;
use crate::service::SubmitError;
use crate::text;
use crate::text::{debug_quote, same_text};
use crate::wire;
use vstd::prelude::*;

verus! {

/// The API version this adapter implements.
pub const SUPPORTED_VERSION: &'static str = "2023-06-01";

/// The header carrying it.
pub const VERSION_HEADER: &'static str = "anthropic-version";

/// The header a request id is read back from.
pub const REQUEST_ID_HEADER: &'static str = "request-id";

/// Inner object of the error envelope.
#[derive(Debug, Clone)]
pub struct ApiErrorBody {
    pub kind: &'static str,
    pub message: String,
}

/// The error envelope: `{type: "error", error: {type, message}, request_id}`.
#[derive(Debug, Clone)]
pub struct ApiErrorEnvelope {
    pub kind: &'static str,
    pub error: ApiErrorBody,
    pub request_id: String,
}

/// A refusal: the HTTP status, and what went wrong. It gets its request id when
/// it is sent.
#[derive(Debug, Clone)]
pub struct ApiError {
    pub status: u16,
    pub kind: &'static str,
    pub message: String,
}

/// What a refusal says.
pub ghost struct ErrorView {
    pub status: u16,
    pub kind: Seq<char>,
    pub message: Seq<char>,
}

impl View for ApiError {
    type V = ErrorView;

    open spec fn view(&self) -> ErrorView {
        ErrorView { status: self.status, kind: self.kind@, message: self.message@ }
    }
}

/// A malformed request.
pub open spec fn invalid(message: Seq<char>) -> ErrorView {
    ErrorView { status: 400, kind: "invalid_request_error"@, message }
}

/// Something that is not there.
pub open spec fn not_found(message: Seq<char>) -> ErrorView {
    ErrorView { status: 404, kind: "not_found_error"@, message }
}

/// A full queue.
pub open spec fn overloaded(message: Seq<char>) -> ErrorView {
    ErrorView { status: 529, kind: "overloaded_error"@, message }
}

/// A failure of the engine.
pub open spec fn api_error(message: Seq<char>) -> ErrorView {
    ErrorView { status: 500, kind: "api_error"@, message }
}

/// The first of two refusals.
pub open spec fn or(first: Option<ErrorView>, second: Option<ErrorView>) -> Option<ErrorView> {
    if first is Some {
        first
    } else {
        second
    }
}

/// Whether an outcome is a given refusal, or success where there is none.
pub open spec fn answers<T>(r: Result<T, ApiError>, refusal: Option<ErrorView>) -> bool {
    match r {
        Ok(_) => refusal is None,
        Err(e) => refusal == Some(e@),
    }
}

impl ApiError {
    /// A malformed request.
    pub fn invalid(message: &str) -> (e: Self)
        ensures
            e@ == invalid(message@),
    {
        ApiError { status: 400, kind: "invalid_request_error", message: message.to_owned() }
    }

    /// Something that is not there.
    pub fn not_found(message: &str) -> (e: Self)
        ensures
            e@ == not_found(message@),
    {
        ApiError { status: 404, kind: "not_found_error", message: message.to_owned() }
    }

    /// A full queue, which is the server being busy and not a caller exceeding
    /// a quota.
    pub fn overloaded(message: &str) -> (e: Self)
        ensures
            e@ == overloaded(message@),
    {
        ApiError { status: 529, kind: "overloaded_error", message: message.to_owned() }
    }

    /// A failure of the engine.
    pub fn api_error(message: &str) -> (e: Self)
        ensures
            e@ == api_error(message@),
    {
        ApiError { status: 500, kind: "api_error", message: message.to_owned() }
    }

    /// The envelope this refusal is sent in.
    pub fn envelope(&self, request_id: &str) -> (e: ApiErrorEnvelope)
        ensures
            e.kind@ == "error"@,
            e.error.kind@ == self.kind@,
            e.error.message@ == self.message@,
            e.request_id@ == request_id@,
    {
        ApiErrorEnvelope {
            kind: "error",
            error: ApiErrorBody { kind: self.kind, message: self.message.clone() },
            request_id: request_id.to_owned(),
        }
    }

    /// A submission failure in this protocol's words.
    pub fn from_submit(e: &SubmitError) -> (r: Self)
        ensures
            r@ == match e {
                SubmitError::QueueFull(_) => overloaded(e.text()),
                SubmitError::Unavailable(_) => api_error(e.text()),
                _ => invalid(e.text()),
            },
    {
        match e {
            SubmitError::QueueFull(m) => Self::overloaded(m.as_str()),
            SubmitError::Unavailable(m) => Self::api_error(m.as_str()),
            _ => Self::invalid(e.message()),
        }
    }
}

/// An identifier: its prefix, and a part that no other of the source has.
pub fn hex_id(ids: &mut IdSource, prefix: &str) -> (id: String)
    ensures
        exists|reading: Option<(u64, u32)>| #[trigger]
            ids::clock_gives(reading) && id@ == prefix@ + ids::tail_of(
                ids::nanos_of(reading),
                old(ids)@,
            ),
        final(ids)@ == vstd::wrapping::u64_specs::wrapping_add(old(ids)@, 1),
{
    ids.make(prefix)
}

/// `msg_...`, stable across every event of one stream.
pub fn new_message_id(ids: &mut IdSource) -> (id: String)
    ensures
        exists|reading: Option<(u64, u32)>| #[trigger]
            ids::clock_gives(reading) && id@ == "msg_"@ + ids::tail_of(
                ids::nanos_of(reading),
                old(ids)@,
            ),
        final(ids)@ == vstd::wrapping::u64_specs::wrapping_add(old(ids)@, 1),
{
    hex_id(ids, "msg_")
}

/// `req_...`, for the `request-id` header and error bodies.
pub fn new_request_id(ids: &mut IdSource) -> (id: String)
    ensures
        exists|reading: Option<(u64, u32)>| #[trigger]
            ids::clock_gives(reading) && id@ == "req_"@ + ids::tail_of(
                ids::nanos_of(reading),
                old(ids)@,
            ),
        final(ids)@ == vstd::wrapping::u64_specs::wrapping_add(old(ids)@, 1),
{
    hex_id(ids, "req_")
}

/// The value of a header that is there and is not text.
#[derive(Debug, Clone, Copy, PartialEq, Eq, Structural)]
pub struct NotText;

/// The refusal of a version. `shown` is how the header's value is shown.
pub open spec fn other_version(shown: Seq<char>) -> ErrorView {
    invalid(
        "Unsupported anthropic-version: "@ + shown + ". This server implements "@
            + SUPPORTED_VERSION@ + "."@,
    )
}

fn refuse_version(shown: &str) -> (e: ApiError)
    ensures
        e@ == other_version(shown@),
{
    let mut m = "Unsupported anthropic-version: ".to_owned();
    m.append(shown);
    m.append(". This server implements ");
    m.append(SUPPORTED_VERSION);
    m.append(".");
    ApiError::invalid(m.as_str())
}

/// Check the version header.
///
/// Absent is accepted. A *different* version is refused, and so is a value that
/// is not even text: answering it would be claiming to implement changes this
/// adapter has never seen.
pub fn check_version(header: Option<Result<&str, NotText>>) -> (r: Result<(), ApiError>)
    ensures
        answers(
            r,
            match header {
                None => None,
                Some(Ok(v)) => if v@ == SUPPORTED_VERSION@ {
                    None
                } else {
                    Some(other_version(text::debug_text(v@)))
                },
                Some(Err(_)) => Some(other_version("not text"@)),
            },
        ),
{
    match header {
        None => Ok(()),
        Some(Ok(v)) => {
            if same_text(v, SUPPORTED_VERSION) {
                Ok(())
            } else {
                Err(refuse_version(debug_quote(v).as_str()))
            }
        },
        Some(Err(_)) => Err(refuse_version("not text")),
    }
}

/// Whether a request with these header names is speaking this protocol: used
/// only to tell apart the two APIs that claim `/v1/models`. Header names are in
/// lower case.
pub fn wants_anthropic(header_names: &[String]) -> (b: bool)
    ensures
        b == exists|i: int|
            0 <= i < header_names@.len() && (#[trigger] header_names@[i])@ == VERSION_HEADER@,
{
    let mut i: usize = 0;
    while i < header_names.len()
        invariant
            i <= header_names@.len(),
            forall|k: int| 0 <= k < i ==> (#[trigger] header_names@[k])@ != VERSION_HEADER@,
        decreases header_names@.len() - i,
    {
        if same_text(header_names[i].as_str(), VERSION_HEADER) {
            return true;
        }
        i += 1;
    }
    false
}

/// What `/v1/models` tells of the served model.
pub fn model_info(
    model_id: &str,
    model_created: i64,
    max_new_tokens: usize,
    max_prompt_tokens: usize,
) -> (m: types::ModelInfo)
    ensures
        m.id@ == model_id@,
        m.kind@ == "model"@,
        m.display_name@ == model_id@,
        is_timestamp(m.created_at@, model_created as int),
        m.max_tokens == max_new_tokens,
        m.max_input_tokens == max_prompt_tokens,
{
    types::ModelInfo {
        id: model_id.to_owned(),
        kind: "model",
        display_name: model_id.to_owned(),
        created_at: rfc3339(model_created),
        max_tokens: max_new_tokens,
        max_input_tokens: max_prompt_tokens,
    }
}

/// The models list: one page with the one model.
pub fn models_list(info: types::ModelInfo) -> (p: types::ModelPage)
    ensures
        p.data@ == seq![info],
        !p.has_more,
        wire::opt_text(p.first_id) == Some(info.id@),
        wire::opt_text(p.last_id) == Some(info.id@),
{
    let first_id = Some(info.id.clone());
    let last_id = Some(info.id.clone());
    let mut data: Vec<types::ModelInfo> = Vec::new();
    data.push(info);
    assert(data@ =~= seq![info]);
    types::ModelPage { data, has_more: false, first_id, last_id }
}

/// The refusal of a model that is not served.
pub open spec fn unknown_model(requested: Seq<char>, model_id: Seq<char>) -> ErrorView {
    not_found("model: "@ + requested + ". This server serves one model: "@ + model_id + "."@)
}

/// Refuse a model that is not served.
pub fn check_served(requested: &str, model_id: &str) -> (r: Result<(), ApiError>)
    ensures
        answers(
            r,
            if requested@ == model_id@ {
                None
            } else {
                Some(unknown_model(requested@, model_id@))
            },
        ),
{
    if same_text(requested, model_id) {
        return Ok(());
    }
    let mut m = "model: ".to_owned();
    m.append(requested);
    m.append(". This server serves one model: ");
    m.append(model_id);
    m.append(".");
    Err(ApiError::not_found(m.as_str()))
}

/// Whether a text is the RFC 3339 form of a time, in seconds since the epoch:
/// the calendar date of its day, and the second of that day.
pub open spec fn is_timestamp(t: Seq<char>, unix: int) -> bool {
    exists|y: int, m: int, d: int|
        {
            &&& calendar::valid_date(y, m, d)
            &&& #[trigger] calendar::day_number(y, m, d) == unix / 86_400
            &&& t == calendar::timestamp(y, m, d, unix % 86_400)
        }
}

/// Unix seconds as an RFC 3339 UTC timestamp.
pub fn rfc3339(unix: i64) -> (t: String)
    ensures
        is_timestamp(t@, unix as int),
{
    let days: i64 = calendar::floor_div(unix, 86_400);
    let secs: i64 = calendar::floor_rem(unix, 86_400);
    let date = calendar::date_of(days);
    let mut t = String::new();
    calendar::push_timestamp(&mut t, date, secs);
    proof {
        assert(t@ =~= calendar::timestamp(
            date.y as int,
            date.m as int,
            date.d as int,
            unix as int % 86_400,
        ));
        assert(calendar::day_number(date.y as int, date.m as int, date.d as int) == unix as int
            / 86_400);
    }
    t
}

/// The texts of times from the year 0 through the year 9999 are twenty
/// characters long, and they sort as the times do.
pub proof fn law_timestamps_sort_as_times(s: Seq<char>, t: Seq<char>, a: i64, b: i64)
    requires
        is_timestamp(s, a as int),
        is_timestamp(t, b as int),
        -62_167_219_200 <= a < b <= 253_402_300_799,
    ensures
        s.len() == 20,
        t.len() == 20,
        calendar::sorts_before(s, t),
{
    let (p, q) = (a as int / 86_400, b as int / 86_400);
    let x = choose|y: int, m: int, d: int|
        {
            &&& calendar::valid_date(y, m, d)
            &&& #[trigger] calendar::day_number(y, m, d) == p
            &&& s == calendar::timestamp(y, m, d, a as int % 86_400)
        };
    let z = choose|y: int, m: int, d: int|
        {
            &&& calendar::valid_date(y, m, d)
            &&& #[trigger] calendar::day_number(y, m, d) == q
            &&& t == calendar::timestamp(y, m, d, b as int % 86_400)
        };
    calendar::law_four_digit_years(x.0, x.1, x.2);
    calendar::law_four_digit_years(z.0, z.1, z.2);
    calendar::law_timestamps_are_twenty_long(x.0, x.1, x.2, a as int % 86_400);
    calendar::law_timestamps_are_twenty_long(z.0, z.1, z.2, b as int % 86_400);
    if x != z && !calendar::before(x, z) {
        calendar::law_dates_are_in_order(z, x);
    }
    calendar::law_timestamps_sort_by_time(x, a as int % 86_400, z, b as int % 86_400);
}

/// Every refusal carries the words it was given; a full queue, a fault of the
/// server and a fault of the request are told apart by their status.
pub proof fn law_refusals_carry_the_words(message: Seq<char>)
    ensures
        overloaded(message).message == message,
        overloaded(message).status == 529,
        api_error(message).message == message,
        api_error(message).status == 500,
        invalid(message).message == message,
        invalid(message).status == 400,
        other_version(message).status == 400,
        other_version(message).kind == invalid(message).kind,
{
}

} // verus!
