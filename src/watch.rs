//! The Kubernetes side of the stream: parsing one watch response off the
//! front of a byte buffer.

use k8s_openapi::{Response, ResponseError, WatchResponse};
use vstd::prelude::*;

verus! {

#[verifier::external_type_specification]
#[verifier::external_body]
pub struct ExResponseError(ResponseError);

/// A watch event for a pod, the record type that this crate decodes. The
/// library never looks inside it: it only carries it from the parser to the
/// caller.
#[verifier::external_body]
pub struct PodWatch {
    pub event: WatchResponse<k8s_openapi::api::core::v1::Pod>,
}

/// What one attempt to parse the front of a buffer gives, as plain values.
pub enum ParseKind {
    /// A whole document was parsed from the first `n` bytes.
    Complete(nat),
    /// The buffer holds the beginning of a document and nothing wrong yet.
    Incomplete,
    /// The front of the buffer cannot be parsed; `data` is set where the
    /// bytes are valid JSON of the wrong shape (such as a bare `null`).
    Malformed { data: bool },
}

/// The outcome of parsing the front of the buffer `buf` as a watch event.
pub uninterp spec fn watch_parse(buf: Seq<u8>) -> ParseKind;

/// A parsed watch event, with the bytes of the document it was parsed from.
/// Only this module pairs an event with its bytes, as the parser gave them.
pub struct Record {
    event: PodWatch,
    doc: Ghost<Seq<u8>>,
}

impl Record {
    /// The bytes of the document that this event was parsed from.
    pub closed spec fn doc(&self) -> Seq<u8> {
        self.doc@
    }

    pub fn event(&self) -> &PodWatch {
        &self.event
    }

    pub fn into_event(self) -> PodWatch {
        self.event
    }
}

/// The parser's error on a buffer, with the bytes it was given.
pub struct ParseFailure {
    error: ResponseError,
    data: bool,
    input: Ghost<Seq<u8>>,
}

impl ParseFailure {
    /// The buffer on which the parser failed.
    pub closed spec fn input(&self) -> Seq<u8> {
        self.input@
    }

    /// Whether the buffer held well-formed JSON of the wrong shape.
    pub closed spec fn data(&self) -> bool {
        self.data
    }

    pub fn is_data(&self) -> (r: bool)
        ensures
            r == self.data(),
    {
        self.data
    }

    pub fn error(&self) -> &ResponseError {
        &self.error
    }

    pub fn into_error(self) -> ResponseError {
        self.error
    }
}

/// One attempt to parse the front of a buffer, as the parser reports it.
enum RawStep {
    Parsed(PodWatch, usize),
    NeedMoreData,
    Failed(ResponseError, bool),
}

/// One attempt to parse the front of a buffer, as handed to the decoder.
pub enum ParseStep {
    Parsed(Record, usize),
    NeedMoreData,
    Failed(ParseFailure),
}

/// Relies on `k8s_openapi::Response::try_from_parts` of `WatchResponse<Pod>`
/// with status 200: it parses one JSON document off the front of `buf`
/// (through serde_json's stream deserializer) and reports the bytes it used,
/// which are at least one and at most `buf.len()`; an unfinished document
/// gives `NeedMoreData`, and so does an empty buffer, on which the stream
/// deserializer yields nothing. On a JSON error, `serde_json::Error::is_data` tells
/// whether the bytes were well-formed JSON of the wrong shape.
#[verifier::external_body]
fn try_parse_watch(buf: &[u8]) -> (r: RawStep)
    ensures
        match r {
            RawStep::Parsed(_, n) => watch_parse(buf@) == ParseKind::Complete(n as nat)
                && 0 < n <= buf@.len(),
            RawStep::NeedMoreData => watch_parse(buf@) == ParseKind::Incomplete,
            RawStep::Failed(_, d) => watch_parse(buf@) == (ParseKind::Malformed { data: d }),
        },
        buf@.len() == 0 ==> r is NeedMoreData,
{
    match WatchResponse::<k8s_openapi::api::core::v1::Pod>::try_from_parts(k8s_openapi::http::StatusCode::OK, buf) {
        Ok((event, used)) => RawStep::Parsed(PodWatch { event }, used),
        Err(ResponseError::NeedMoreData) => RawStep::NeedMoreData,
        Err(ResponseError::Json(e)) => {
            let data = e.is_data();
            RawStep::Failed(ResponseError::Json(e), data)
        },
        Err(e) => RawStep::Failed(e, false),
    }
}

/// Parses one watch event off the front of `buf`, and labels what the parser
/// returned with the bytes it came from.
pub(crate) fn parse_front(buf: &[u8]) -> (r: ParseStep)
    ensures
        match r {
            ParseStep::Parsed(record, n) => watch_parse(buf@) == ParseKind::Complete(n as nat)
                && 0 < n <= buf@.len() && record.doc() == buf@.subrange(0, n as int),
            ParseStep::NeedMoreData => watch_parse(buf@) == ParseKind::Incomplete,
            ParseStep::Failed(f) => watch_parse(buf@) == (ParseKind::Malformed { data: f.data() })
                && f.input() == buf@,
        },
        buf@.len() == 0 ==> r is NeedMoreData,
{
    match try_parse_watch(buf) {
        RawStep::Parsed(event, used) => ParseStep::Parsed(
            Record { event, doc: Ghost(buf@.subrange(0, used as int)) },
            used,
        ),
        RawStep::NeedMoreData => ParseStep::NeedMoreData,
        RawStep::Failed(error, data) => ParseStep::Failed(ParseFailure { error, data, input: Ghost(buf@) }),
    }
}

} // verus!
