//! The messages that the main loop receives and sends, as plain values. A text
//! that the loop only hands on (the parameters of a request, the result of a
//! handler) is carried as a string and never looked into.

use crate::decimal::{int_string, int_text};
use vstd::prelude::*;

verus! {

/// The request names a method that the server does not know.
pub const METHOD_NOT_FOUND: i32 = -32601;

/// A handler failed for a reason of its own.
pub const INTERNAL_ERROR: i32 = -32603;

/// The request was canceled before it finished.
pub const REQUEST_CANCELLED: i32 = -32800;

/// A request of the client.
pub struct RawRequest {
    pub id: u64,
    pub method: String,
    pub params: String,
}

/// The error that a response carries in place of a result.
pub struct RawResponseError {
    pub code: i32,
    pub message: String,
}

/// A response to a request: either a result or an error.
pub struct RawResponse {
    pub id: u64,
    pub result: Option<String>,
    pub error: Option<RawResponseError>,
}

/// A notification, in either direction.
pub struct RawNotification {
    pub method: String,
    pub params: String,
}

/// A request, with its strings as sequences.
pub struct RawRequestView {
    pub id: u64,
    pub method: Seq<char>,
    pub params: Seq<char>,
}

/// A response, with its strings as sequences.
pub struct RawResponseView {
    pub id: u64,
    pub result: Option<Seq<char>>,
    pub error: Option<(i32, Seq<char>)>,
}

/// A notification, with its strings as sequences.
pub struct RawNotificationView {
    pub method: Seq<char>,
    pub params: Seq<char>,
}

impl View for RawRequest {
    type V = RawRequestView;

    open spec fn view(&self) -> RawRequestView {
        RawRequestView { id: self.id, method: self.method@, params: self.params@ }
    }
}

impl View for RawResponse {
    type V = RawResponseView;

    open spec fn view(&self) -> RawResponseView {
        RawResponseView {
            id: self.id,
            result: match self.result {
                Some(r) => Some(r@),
                None => None,
            },
            error: match self.error {
                Some(e) => Some((e.code, e.message@)),
                None => None,
            },
        }
    }
}

impl View for RawNotification {
    type V = RawNotificationView;

    open spec fn view(&self) -> RawNotificationView {
        RawNotificationView { method: self.method@, params: self.params@ }
    }
}

impl RawResponseView {
    /// The response that carries a result.
    pub open spec fn ok(id: u64, result: Seq<char>) -> RawResponseView {
        RawResponseView { id, result: Some(result), error: None }
    }

    /// The response that carries an error.
    pub open spec fn err(id: u64, code: i32, message: Seq<char>) -> RawResponseView {
        RawResponseView { id, result: None, error: Some((code, message)) }
    }
}

impl RawResponse {
    /// The response that carries a result.
    pub fn ok(id: u64, result: String) -> (resp: RawResponse)
        ensures
            resp@ == RawResponseView::ok(id, result@),
    {
        RawResponse { id, result: Some(result), error: None }
    }

    /// The response that carries an error.
    pub fn err(id: u64, code: i32, message: String) -> (resp: RawResponse)
        ensures
            resp@ == RawResponseView::err(id, code, message@),
    {
        RawResponse { id, result: None, error: Some(RawResponseError { code, message }) }
    }
}

/// What the server sends to the client.
pub enum ClientMessage {
    /// A response to a request.
    Response(RawResponse),
    /// A notification that a task produced.
    Notification(RawNotification),
    /// The diagnostics of a file are withdrawn: the list published is empty.
    PublishDiagnostics { uri: String },
    /// A milestone, reported in internal mode.
    InternalFeedback { message: String },
}

/// What the server sends to the client, with its strings as sequences.
pub enum ClientMessageView {
    Response(RawResponseView),
    Notification(RawNotificationView),
    PublishDiagnostics { uri: Seq<char> },
    InternalFeedback { message: Seq<char> },
}

impl View for ClientMessage {
    type V = ClientMessageView;

    open spec fn view(&self) -> ClientMessageView {
        match *self {
            ClientMessage::Response(r) => ClientMessageView::Response(r@),
            ClientMessage::Notification(n) => ClientMessageView::Notification(n@),
            ClientMessage::PublishDiagnostics { uri } => ClientMessageView::PublishDiagnostics {
                uri: uri@,
            },
            ClientMessage::InternalFeedback { message } => ClientMessageView::InternalFeedback {
                message: message@,
            },
        }
    }
}

/// What a task of the pool hands back to the main loop.
pub enum Task {
    /// The response to the request that the task worked on.
    Respond(RawResponse),
    /// A notification for the client.
    Notify(RawNotification),
}

/// What a task hands back, with its strings as sequences.
pub enum TaskView {
    Respond(RawResponseView),
    Notify(RawNotificationView),
}

impl View for Task {
    type V = TaskView;

    open spec fn view(&self) -> TaskView {
        match *self {
            Task::Respond(r) => TaskView::Respond(r@),
            Task::Notify(n) => TaskView::Notify(n@),
        }
    }
}

/// A notification of the client, decoded.
pub enum Notification {
    /// The client no longer wants the response to a request.
    Cancel { id: u64 },
    /// The client opened a document. `path` is the file that the uri names,
    /// if it names one.
    DidOpenTextDocument { uri: String, path: Option<String>, text: String },
    /// The client changed a document; the last entry of `content_changes` is
    /// the new text.
    DidChangeTextDocument { uri: String, path: Option<String>, content_changes: Vec<String> },
    /// The client closed a document.
    DidCloseTextDocument { uri: String, path: Option<String> },
    /// A notification that the server does not handle.
    Unhandled { method: String },
}

/// A message of the client.
pub enum RawMessage {
    Request(RawRequest),
    Notification(Notification),
    Response(RawResponse),
}

/// An error with a code and a message that is sent to the client as it is.
#[derive(Debug)]
pub struct LspError {
    pub code: i32,
    pub message: String,
}

impl LspError {
    pub fn new(code: i32, message: String) -> (e: LspError)
        ensures
            e.code == code,
            e.message == message,
    {
        LspError { code, message }
    }

    /// The text that describes the error.
    pub fn describe(&self) -> (text: String)
        ensures
            text@ == "Language Server request failed with "@ + int_text(self.code as int) + ". ("@
                + self.message@ + ")"@,
    {
        let mut text = String::from_str("Language Server request failed with ");
        text.append(int_string(self.code).as_str());
        text.append(". (");
        text.append(self.message.as_str());
        text.append(")");
        text
    }
}

/// Why a handler did not produce a result.
pub enum HandlerError {
    /// The handler raised an error for the client.
    Lsp(LspError),
    /// The snapshot that the handler worked on was superseded.
    Canceled { message: String },
    /// Any other failure.
    Other { message: String },
}

/// Whether a handler gave up because its snapshot was superseded.
pub fn is_canceled(e: &HandlerError) -> (res: bool)
    ensures
        res == (e is Canceled),
{
    match e {
        HandlerError::Canceled { .. } => true,
        _ => false,
    }
}

/// The response that a handler's outcome stands for.
pub open spec fn response_spec(id: u64, outcome: Result<String, HandlerError>) -> RawResponseView {
    match outcome {
        Ok(result) => RawResponseView::ok(id, result@),
        Err(HandlerError::Lsp(e)) => RawResponseView::err(id, e.code, e.message@),
        Err(HandlerError::Canceled { message }) => RawResponseView::err(
            id,
            REQUEST_CANCELLED,
            message@,
        ),
        Err(HandlerError::Other { message }) => RawResponseView::err(id, INTERNAL_ERROR, message@),
    }
}

/// Turns the outcome of a handler into the response for the request: the
/// result; the handler's own error as it is; *request cancelled* where the
/// snapshot was superseded; *internal error* for any other failure.
pub fn handler_response(id: u64, outcome: Result<String, HandlerError>) -> (resp: RawResponse)
    ensures
        resp@ == response_spec(id, outcome),
{
    match outcome {
        Ok(result) => RawResponse::ok(id, result),
        Err(e) => match e {
            HandlerError::Lsp(lsp_error) => RawResponse::err(id, lsp_error.code, lsp_error.message),
            HandlerError::Canceled { message } => RawResponse::err(id, REQUEST_CANCELLED, message),
            HandlerError::Other { message } => RawResponse::err(id, INTERNAL_ERROR, message),
        },
    }
}

/// What becomes of the outcome of a diagnostics or decorations handler.
pub enum FileStep {
    /// The notification goes to the main loop.
    Notify(Task),
    /// The failure is logged.
    Log(String),
    /// The snapshot was superseded: nothing is done.
    Skip,
}

/// Decides what becomes of the outcome of a handler that computes a
/// notification for a subscribed file.
pub fn file_notification(outcome: Result<RawNotification, HandlerError>) -> (step: FileStep)
    ensures
        match outcome {
            Ok(n) => step == FileStep::Notify(Task::Notify(n)),
            Err(HandlerError::Canceled { message }) => step == FileStep::Skip,
            Err(HandlerError::Lsp(e)) => step == FileStep::Log(e.message),
            Err(HandlerError::Other { message }) => step == FileStep::Log(message),
        },
{
    match outcome {
        Ok(n) => FileStep::Notify(Task::Notify(n)),
        Err(e) => match e {
            HandlerError::Canceled { .. } => FileStep::Skip,
            HandlerError::Lsp(lsp_error) => FileStep::Log(lsp_error.message),
            HandlerError::Other { message } => FileStep::Log(message),
        },
    }
}

} // verus!
