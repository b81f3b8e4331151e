//! The request and response envelopes of the protocol.

use vstd::prelude::*;
use crate::records::{
    PromiseRecord, PromiseView, ScheduleRecord, ScheduleView, TaskRecord, TaskView, Text,
    PROTOCOL_VERSION,
};
use crate::text::{concat, copied, text_eq, text_opt};

verus! {

/// The views of a sequence of records.
pub open spec fn viewed<T: View>(v: Seq<T>) -> Seq<T::V> {
    Seq::new(v.len(), |i: int| v[i]@)
}

/// A parsed request envelope.
#[derive(Debug, PartialEq, Eq)]
pub struct Request {
    /// The operation.
    pub kind: String,
    /// The head.
    pub head: RequestHead,
    /// The data of the operation, as JSON text.
    pub data: String,
}

/// The head of a request.
#[derive(Debug, PartialEq, Eq)]
pub struct RequestHead {
    /// The correlation id that the response repeats.
    pub corr_id: String,
    /// The protocol version of the client.
    pub version: Option<String>,
}

/// The head of a response.
#[derive(Debug, PartialEq, Eq)]
pub struct ResponseHead {
    /// The correlation id of the request.
    pub corr_id: String,
    /// The status.
    pub status: u16,
    /// The protocol version.
    pub version: String,
}

/// The head of a response in contracts.
pub struct HeadView {
    pub corr_id: Text,
    pub status: u16,
    pub version: Text,
}

impl View for ResponseHead {
    type V = HeadView;

    open spec fn view(&self) -> HeadView {
        HeadView { corr_id: self.corr_id@, status: self.status, version: self.version@ }
    }
}

/// The outcome of the action inside a fence: the promise, or the message of
/// an error.
#[derive(Debug, PartialEq, Eq)]
pub enum ActionData {
    /// The promise the action created or settled.
    Promise(PromiseRecord),
    /// The message of an error.
    Message(String),
}

/// The outcome of a fenced action in contracts.
pub enum ActionDataView {
    Promise(PromiseView),
    Message(Text),
}

impl View for ActionData {
    type V = ActionDataView;

    open spec fn view(&self) -> ActionDataView {
        match self {
            ActionData::Promise(promise) => ActionDataView::Promise(promise@),
            ActionData::Message(message) => ActionDataView::Message(message@),
        }
    }
}

/// The `data` of a response.
#[derive(Debug, PartialEq, Eq)]
pub enum ReplyData {
    /// An empty object.
    Empty,
    /// A promise.
    Promise(PromiseRecord),
    /// A task.
    Task(TaskRecord),
    /// A task with its promise and the preloaded siblings of the promise.
    Work(TaskRecord, PromiseRecord, Vec<PromiseRecord>),
    /// The preloaded siblings of a promise.
    Preload(Vec<PromiseRecord>),
    /// A fenced action: its kind, the head and the data of its own response,
    /// and the preloaded siblings of the task's promise.
    Action(String, ResponseHead, ActionData, Vec<PromiseRecord>),
    /// A page of promises and the cursor of the next page.
    Promises(Vec<PromiseRecord>, Option<String>),
    /// A page of tasks and the cursor of the next page.
    Tasks(Vec<TaskRecord>, Option<String>),
    /// A schedule.
    Schedule(ScheduleRecord),
    /// A page of schedules and the cursor of the next page.
    Schedules(Vec<ScheduleRecord>, Option<String>),
    /// The message of an error.
    Message(String),
}

/// The `data` of a response in contracts.
pub enum ReplyDataView {
    Empty,
    Promise(PromiseView),
    Task(TaskView),
    Work(TaskView, PromiseView, Seq<PromiseView>),
    Preload(Seq<PromiseView>),
    Action(Text, HeadView, ActionDataView, Seq<PromiseView>),
    Promises(Seq<PromiseView>, Option<Text>),
    Tasks(Seq<TaskView>, Option<Text>),
    Schedule(ScheduleView),
    Schedules(Seq<ScheduleView>, Option<Text>),
    Message(Text),
}

impl View for ReplyData {
    type V = ReplyDataView;

    open spec fn view(&self) -> ReplyDataView {
        match self {
            ReplyData::Empty => ReplyDataView::Empty,
            ReplyData::Promise(promise) => ReplyDataView::Promise(promise@),
            ReplyData::Task(task) => ReplyDataView::Task(task@),
            ReplyData::Work(task, promise, preload) => ReplyDataView::Work(
                task@,
                promise@,
                viewed(preload@),
            ),
            ReplyData::Preload(preload) => ReplyDataView::Preload(viewed(preload@)),
            ReplyData::Action(kind, head, data, preload) => ReplyDataView::Action(
                kind@,
                head@,
                data@,
                viewed(preload@),
            ),
            ReplyData::Promises(page, cursor) => ReplyDataView::Promises(
                viewed(page@),
                text_opt(*cursor),
            ),
            ReplyData::Tasks(page, cursor) => ReplyDataView::Tasks(
                viewed(page@),
                text_opt(*cursor),
            ),
            ReplyData::Schedule(schedule) => ReplyDataView::Schedule(schedule@),
            ReplyData::Schedules(page, cursor) => ReplyDataView::Schedules(
                viewed(page@),
                text_opt(*cursor),
            ),
            ReplyData::Message(message) => ReplyDataView::Message(message@),
        }
    }
}

/// The outcome of one request: a status and the `data` of the response. For
/// an error, `data` is the message text.
#[derive(Debug, PartialEq, Eq)]
pub enum Reply {
    /// A status and the data.
    Data(u16, ReplyData),
    /// A status and the message.
    Error(u16, String),
}

/// The outcome of one request in contracts.
pub enum ReplyView {
    Data(u16, ReplyDataView),
    Error(u16, Text),
}

impl View for Reply {
    type V = ReplyView;

    open spec fn view(&self) -> ReplyView {
        match self {
            Reply::Data(status, data) => ReplyView::Data(*status, data@),
            Reply::Error(status, message) => ReplyView::Error(*status, message@),
        }
    }
}

impl ReplyView {
    /// The status.
    pub open spec fn status(self) -> u16 {
        match self {
            ReplyView::Data(status, _) => status,
            ReplyView::Error(status, _) => status,
        }
    }

    /// The `data` of the response.
    pub open spec fn data(self) -> ReplyDataView {
        match self {
            ReplyView::Data(_, data) => data,
            ReplyView::Error(_, message) => ReplyDataView::Message(message),
        }
    }
}

impl Reply {
    /// A reply of status 200.
    pub fn ok(data: ReplyData) -> (r: Self)
        ensures
            r@ == ReplyView::Data(200, data@),
    {
        Reply::Data(200, data)
    }

    /// An error reply.
    pub fn err(status: u16, message: &str) -> (r: Self)
        ensures
            r@ == ReplyView::Error(status, message@),
    {
        Reply::Error(status, copied(message))
    }

    /// The status of the reply.
    pub fn status(&self) -> (r: u16)
        ensures
            r == self@.status(),
    {
        match self {
            Reply::Data(status, _) => *status,
            Reply::Error(status, _) => *status,
        }
    }

    /// The reply as the `data` field of an envelope.
    pub fn into_data(self) -> (r: ReplyData)
        ensures
            r@ == self@.data(),
    {
        match self {
            Reply::Data(_, data) => data,
            Reply::Error(_, message) => ReplyData::Message(message),
        }
    }
}

/// The error that reading a text as JSON ends with, if any.
pub uninterp spec fn json_error_of(raw: Seq<char>) -> Option<Seq<char>>;

/// `serde_json::from_str` into a `serde_json::Value`: the text of its error,
/// or nothing where the text is JSON.
#[verifier::external_body]
fn json_error(raw: &str) -> (r: Option<String>)
    ensures
        text_opt(r) == json_error_of(raw@),
{
    serde_json::from_str::<serde_json::Value>(raw).err().map(|e| e.to_string())
}

/// The string at a JSON pointer of a JSON text, if the text is JSON and there
/// is a string at that place.
pub uninterp spec fn json_string_at(raw: Seq<char>, pointer: Seq<char>) -> Option<Seq<char>>;

/// `serde_json::Value::pointer` and `as_str` on the value that
/// `serde_json::from_str` reads: the string at `pointer`, or nothing where
/// the text is no JSON or another value or none is there.
#[verifier::external_body]
pub(crate) fn json_string(raw: &str, pointer: &str) -> (r: Option<String>)
    ensures
        text_opt(r) == json_string_at(raw@, pointer@),
{
    let value = serde_json::from_str::<serde_json::Value>(raw).ok()?;
    value.pointer(pointer)?.as_str().map(|s| s.to_string())
}

/// Whether a text is a JSON object.
pub uninterp spec fn json_object(raw: Seq<char>) -> bool;

/// `serde_json::Value::is_object` on the value that `serde_json::from_str`
/// reads; a text that is no JSON is no object.
#[verifier::external_body]
fn json_is_object(raw: &str) -> (r: bool)
    ensures
        r == json_object(raw@),
{
    serde_json::from_str::<serde_json::Value>(raw).map(|v| v.is_object()).unwrap_or(false)
}

/// The text of an optional string, empty where there is none.
pub open spec fn text_or_empty(s: Option<Text>) -> Text {
    match s {
        Some(s) => s,
        None => Seq::empty(),
    }
}

/// The refusal of an envelope: the kind and the correlation id to answer
/// with, and the message.
pub struct Refusal {
    pub kind: Text,
    pub corr_id: Text,
    pub message: Text,
}

/// A request in contracts.
pub struct RequestView {
    pub kind: Text,
    pub corr_id: Text,
    pub version: Option<Text>,
    pub data: Text,
}

impl View for Request {
    type V = RequestView;

    open spec fn view(&self) -> RequestView {
        RequestView {
            kind: self.kind@,
            corr_id: self.head.corr_id@,
            version: text_opt(self.head.version),
            data: self.data@,
        }
    }
}

/// The message that refuses a decoded request, if one does: an empty kind, a
/// version that is not the protocol's, or data that is no object.
pub open spec fn request_fault(request: RequestView, is_object: bool) -> Option<Text> {
    if request.kind.len() == 0 {
        Some("Request kind is required"@)
    } else if request.version is Some && request.version->0 != PROTOCOL_VERSION@ {
        Some("Unsupported protocol version: "@ + request.version->0)
    } else if !is_object {
        Some("Request data must be an object"@)
    } else {
        None
    }
}

/// Why an envelope is refused, if it is: `error` is the error of its JSON,
/// `kind` and `corr_id` are the strings at those places, `decoded` the typed
/// request or the error of decoding it, and `is_object` whether its data is an
/// object.
pub open spec fn refusal(
    error: Option<Text>,
    kind: Option<Text>,
    corr_id: Option<Text>,
    decoded: Result<RequestView, Text>,
    is_object: bool,
) -> Option<Refusal> {
    if error is Some {
        Some(
            Refusal {
                kind: Seq::empty(),
                corr_id: Seq::empty(),
                message: "Invalid request: "@ + error->0,
            },
        )
    } else {
        let message = match decoded {
            Err(e) => Some("Invalid request: "@ + e),
            Ok(request) => request_fault(request, is_object),
        };
        match message {
            Some(message) => Some(
                Refusal {
                    kind: text_or_empty(kind),
                    corr_id: text_or_empty(corr_id),
                    message,
                },
            ),
            None => None,
        }
    }
}

/// A decoded request in contracts.
pub open spec fn decoded_view(decoded: Result<Request, String>) -> Result<RequestView, Text> {
    match decoded {
        Ok(request) => Ok(request@),
        Err(e) => Err(e@),
    }
}

/// The string, or the empty one.
fn or_empty(s: Option<String>) -> (r: String)
    ensures
        r@ == text_or_empty(text_opt(s)),
{
    match s {
        Some(s) => s,
        None => String::new(),
    }
}

/// Decide on an envelope from what reading it gave. A malformed envelope gets
/// a 400 reply with the kind and the correlation id of the envelope, where
/// present.
pub fn check_request(
    error: Option<String>,
    kind: Option<String>,
    corr_id: Option<String>,
    decoded: Result<Request, String>,
    is_object: bool,
) -> (r: Result<Request, (String, String, Reply)>)
    ensures
        match refusal(text_opt(error), text_opt(kind), text_opt(corr_id), decoded_view(decoded), is_object) {
            Some(refused) => r matches Err(e) && e.0@ == refused.kind && e.1@ == refused.corr_id
                && e.2@ == ReplyView::Error(400, refused.message),
            None => decoded is Ok && r == Ok::<Request, (String, String, Reply)>(decoded->Ok_0),
        },
{
    if let Some(e) = error {
        return Err(
            (String::new(), String::new(), Reply::Error(400, concat("Invalid request: ", &e))),
        );
    }
    let kind = or_empty(kind);
    let corr_id = or_empty(corr_id);
    let request = match decoded {
        Ok(request) => request,
        Err(e) => {
            return Err((kind, corr_id, Reply::Error(400, concat("Invalid request: ", &e))));
        },
    };
    if request.kind.as_str().is_empty() {
        return Err((kind, corr_id, Reply::err(400, "Request kind is required")));
    }
    if let Some(version) = &request.head.version {
        if !text_eq(version, PROTOCOL_VERSION) {
            let message = concat("Unsupported protocol version: ", version);
            return Err((kind, corr_id, Reply::Error(400, message)));
        }
    }
    if !is_object {
        return Err((kind, corr_id, Reply::err(400, "Request data must be an object")));
    }
    Ok(request)
}

/// Parse a request envelope. `decoded` is the typed request that `raw` decodes
/// to, or the error of decoding it. A malformed envelope gets a 400 reply with
/// the kind and the correlation id of the envelope, where present.
pub fn parse_request(raw: &str, decoded: Result<Request, String>) -> (r: Result<
    Request,
    (String, String, Reply),
>)
    ensures
        match refusal(
            json_error_of(raw@),
            json_string_at(raw@, "/kind"@),
            json_string_at(raw@, "/head/corrId"@),
            decoded_view(decoded),
            decoded is Ok && json_object(decoded->Ok_0.data@),
        ) {
            Some(refused) => r matches Err(e) && e.0@ == refused.kind && e.1@ == refused.corr_id
                && e.2@ == ReplyView::Error(400, refused.message),
            None => decoded is Ok && r == Ok::<Request, (String, String, Reply)>(decoded->Ok_0),
        },
{
    let error = json_error(raw);
    let kind = json_string(raw, "/kind");
    let corr_id = json_string(raw, "/head/corrId");
    let is_object = match &decoded {
        Ok(request) => json_is_object(&request.data),
        Err(_) => false,
    };
    check_request(error, kind, corr_id, decoded, is_object)
}

/// A response envelope.
#[derive(Debug, PartialEq, Eq)]
pub struct Response {
    /// The operation of the request.
    pub kind: String,
    /// The head.
    pub head: ResponseHead,
    /// The data.
    pub data: ReplyData,
}

/// Build a response envelope.
pub fn response(kind: &str, corr_id: &str, reply: Reply) -> (r: Response)
    ensures
        r.kind@ == kind@,
        r.head@ == (HeadView {
            corr_id: corr_id@,
            status: reply@.status(),
            version: PROTOCOL_VERSION@,
        }),
        r.data@ == reply@.data(),
{
    let status: u16 = reply.status();
    Response {
        kind: copied(kind),
        head: ResponseHead { corr_id: copied(corr_id), status, version: copied(PROTOCOL_VERSION) },
        data: reply.into_data(),
    }
}

} // verus!
