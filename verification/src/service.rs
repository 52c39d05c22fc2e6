//! What a service answers when it is asked to read a score.
//!
//! The service itself, with its sockets, is not here, and neither is the
//! writer that renders events as text. Here is what lies between them: which
//! text a request body stands for, and which status goes with which outcome.
use vstd::prelude::*;
use vstd::utf8::{decode_utf8, valid_utf8};
use crate::event::Event;
use crate::extract::{events_of, events_view, parse_musicxml};
use crate::tree::{xml_nodes, NodeView};

verus! {

/// How a request ended.
#[derive(Debug, Clone, Copy, PartialEq, Eq)]
pub enum Status {
    /// The score was read and rendered.
    Success,
    /// The request did not hold a document that the parser takes.
    BadRequest,
    /// The events could not be rendered.
    ServerError,
}

/// The answer to a request.
#[derive(Debug, Clone, PartialEq, Eq)]
pub struct Reply {
    pub status: Status,
    /// The rendered events, or what went wrong.
    pub body: String,
}

/// What is to be done once the body of a request has been looked at.
#[derive(Debug, Clone, PartialEq, Eq)]
pub enum Step {
    /// The body was a score: render these events, then [`answer`].
    Render(Vec<Event>),
    /// The body was no score: this is the answer.
    Answer(Reply),
}

/// The HTTP status code of `status`.
pub open spec fn status_code(status: Status) -> u16 {
    match status {
        Status::Success => 200,
        Status::BadRequest => 400,
        Status::ServerError => 500,
    }
}

/// The text that a request body stands for: the text that it encodes, or the
/// empty text where it is not UTF-8.
pub open spec fn request_text(body: Seq<u8>) -> Seq<char> {
    if valid_utf8(body) {
        decode_utf8(body)
    } else {
        Seq::empty()
    }
}

/// `std::str::from_utf8`, with its error dropped: the text that `bytes`
/// encode, and nothing where they are not UTF-8.
#[verifier::external_body]
fn utf8_text(bytes: &[u8]) -> (r: Option<&str>)
    ensures
        match r {
            Some(text) => valid_utf8(bytes@) && text@ == decode_utf8(bytes@),
            None => !valid_utf8(bytes@),
        },
{
    std::str::from_utf8(bytes).ok()
}

impl Status {
    /// The HTTP status code.
    pub fn code(&self) -> (code: u16)
        ensures
            code == status_code(*self),
    {
        match self {
            Status::Success => 200,
            Status::BadRequest => 400,
            Status::ServerError => 500,
        }
    }
}

/// The text that the request body `body` stands for.
pub fn body_text(body: &[u8]) -> (text: &str)
    ensures
        text@ == request_text(body@),
{
    match utf8_text(body) {
        Some(text) => text,
        None => {
            proof {
                reveal_strlit("");
            }
            let text = "";
            assert(text@ =~= Seq::<char>::empty());
            text
        },
    }
}

/// Reads the body of a request as a score.
///
/// A body that the parser refuses is answered at once as a bad request,
/// with the parser's message; a body that is not even UTF-8 is read as the
/// empty text. The events of any other body are handed back to be
/// rendered.
pub fn handle_parse(body: &[u8]) -> (step: Step)
    ensures
        match step {
            Step::Render(events) => xml_nodes(request_text(body@)) matches Ok(tree) && tree.len()
                <= u32::MAX && events_view(events@) == events_of(tree),
            Step::Answer(reply) => reply.status == Status::BadRequest && xml_nodes(
                request_text(body@),
            ) == Err::<Seq<NodeView>, Seq<char>>(reply.body@),
        },
{
    match parse_musicxml(body_text(body)) {
        Ok(events) => Step::Render(events),
        Err(e) => Step::Answer(Reply { status: Status::BadRequest, body: e.message }),
    }
}

/// The answer once the events have been rendered: the text with success, or
/// the writer's complaint as a fault of the server.
pub fn answer(rendered: Result<String, String>) -> (reply: Reply)
    ensures
        match rendered {
            Ok(text) => reply.status == Status::Success && reply.body == text,
            Err(message) => reply.status == Status::ServerError && reply.body == message,
        },
{
    match rendered {
        Ok(text) => Reply { status: Status::Success, body: text },
        Err(message) => Reply { status: Status::ServerError, body: message },
    }
}

} // verus!
