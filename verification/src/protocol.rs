//! The line protocol between a worker and its evaluator subprocess: one
//! newline-terminated UTF-8 line out, one newline-terminated UTF-8 line
//! back.

use vstd::prelude::*;
use vstd::utf8::{
    decode_utf8,
    decode_utf8_encode_utf8,
    encode_utf8,
    encode_utf8_valid_utf8,
    pop_first_scalar,
    valid_first_scalar,
    valid_utf8,
    valid_utf8_concat,
};

verus! {

/// The byte that ends a line.
pub const NEWLINE: u8 = 10;

/// How a line can break the framing rules.
#[derive(Clone, Copy, Debug, PartialEq, Eq, Structural)]
pub enum ProtocolViolation {
    /// The stream ended before any byte of the line arrived.
    EndOfStream,
    /// The stream ended in the middle of a line.
    MissingNewline,
    /// A newline stands before the end of the line.
    EmbeddedNewline,
    /// The line is not valid UTF-8.
    InvalidUtf8,
}

/// Why a task has no result text.
#[derive(Clone, Copy, Debug, PartialEq, Eq, Structural)]
pub enum EvaluationError {
    /// The request could not be written to the subprocess.
    WriteFailed,
    /// The reply could not be read from the subprocess.
    ReadFailed,
    /// The request or the reply broke the framing rules.
    Protocol(ProtocolViolation),
    /// The worker that held the task lost its subprocess.
    WorkerCrashed,
}

/// A payload followed by the newline that ends its line.
pub open spec fn framed(payload: Seq<u8>) -> Seq<u8> {
    payload.push(NEWLINE)
}

/// Frames one request. The payload must be a single line: one that holds a
/// newline would read as two requests and is turned away.
pub fn frame_request(payload: &str) -> (r: Result<Vec<u8>, ProtocolViolation>)
    ensures
        match r {
            Ok(line) => !encode_utf8(payload@).contains(NEWLINE) && line@ == framed(
                encode_utf8(payload@),
            ),
            Err(e) => encode_utf8(payload@).contains(NEWLINE) && e
                == ProtocolViolation::EmbeddedNewline,
        },
{
    frame_bytes(payload.as_bytes())
}

/// Frames one request given as bytes.
pub fn frame_bytes(payload: &[u8]) -> (r: Result<Vec<u8>, ProtocolViolation>)
    ensures
        match r {
            Ok(line) => !payload@.contains(NEWLINE) && line@ == framed(payload@),
            Err(e) => payload@.contains(NEWLINE) && e == ProtocolViolation::EmbeddedNewline,
        },
{
    let mut line: Vec<u8> = Vec::new();
    let mut i: usize = 0;
    while i < payload.len()
        invariant
            i <= payload@.len(),
            line@ == payload@.subrange(0, i as int),
            !line@.contains(NEWLINE),
        decreases payload@.len() - i,
    {
        let byte = payload[i];
        if byte == NEWLINE {
            assert(payload@[i as int] == NEWLINE);
            return Err(ProtocolViolation::EmbeddedNewline);
        }
        let ghost before = line@;
        line.push(byte);
        proof {
            assert(line@ =~= payload@.subrange(0, i + 1));
            assert forall|k: int| 0 <= k < line@.len() implies line@[k] != NEWLINE by {
                if k < before.len() {
                    assert(before.contains(before[k]));
                }
            }
        }
        i = i + 1;
    }
    assert(line@ =~= payload@);
    line.push(NEWLINE);
    Ok(line)
}

/// A request line: at least the newline, which is its last byte and its
/// only newline.
pub open spec fn is_request_line(line: Seq<u8>) -> bool {
    &&& line.len() > 0
    &&& line.last() == NEWLINE
    &&& !line.drop_last().contains(NEWLINE)
}

/// The first rule that a payload breaks, if any: it must be one line, and
/// it must be UTF-8.
pub open spec fn payload_fault(payload: Seq<u8>) -> Option<ProtocolViolation> {
    if payload.contains(NEWLINE) {
        Some(ProtocolViolation::EmbeddedNewline)
    } else if !valid_utf8(payload) {
        Some(ProtocolViolation::InvalidUtf8)
    } else {
        None
    }
}

/// A line of valid UTF-8 is valid UTF-8 with its newline.
pub proof fn lemma_framed_is_utf8(payload: Seq<u8>)
    requires
        valid_utf8(payload),
    ensures
        valid_utf8(framed(payload)),
{
    let end = seq![NEWLINE];
    assert(valid_first_scalar(end));
    assert(pop_first_scalar(end) =~= Seq::<u8>::empty());
    assert(valid_utf8(Seq::<u8>::empty()));
    assert(valid_utf8(end));
    valid_utf8_concat(payload, end);
    assert(framed(payload) =~= payload + end);
}

/// One framed request, ready to be written to a subprocess. Every value of
/// this type is a request line of valid UTF-8.
pub struct Request {
    line: Vec<u8>,
}

impl View for Request {
    type V = Seq<u8>;

    closed spec fn view(&self) -> Seq<u8> {
        self.line@
    }
}

impl Request {
    #[verifier::type_invariant]
    spec fn framed_once(self) -> bool {
        is_request_line(self.line@) && valid_utf8(self.line@)
    }

    /// Frames a payload that is known to be one line of UTF-8.
    pub(crate) fn from_checked(payload: Vec<u8>) -> (request: Request)
        requires
            payload_fault(payload@) is None,
        ensures
            request@ == framed(payload@),
    {
        let mut line = payload;
        line.push(NEWLINE);
        proof {
            assert(line@.drop_last() =~= payload@);
            lemma_framed_is_utf8(payload@);
        }
        Request { line }
    }

    /// Frames a text payload.
    pub fn from_text(payload: &str) -> (r: Result<Request, ProtocolViolation>)
        ensures
            match r {
                Ok(request) => !encode_utf8(payload@).contains(NEWLINE) && request@ == framed(
                    encode_utf8(payload@),
                ),
                Err(e) => encode_utf8(payload@).contains(NEWLINE) && e
                    == ProtocolViolation::EmbeddedNewline,
            },
    {
        match frame_bytes(payload.as_bytes()) {
            Ok(line) => {
                proof {
                    assert(line@.drop_last() =~= encode_utf8(payload@));
                    encode_utf8_valid_utf8(payload@);
                    lemma_framed_is_utf8(encode_utf8(payload@));
                }
                Ok(Request { line })
            },
            Err(e) => Err(e),
        }
    }

    /// Frames a payload given as bytes. The payload must be one line of
    /// UTF-8.
    pub fn from_bytes(payload: &[u8]) -> (r: Result<Request, ProtocolViolation>)
        ensures
            match payload_fault(payload@) {
                Some(e) => r == Err::<Request, ProtocolViolation>(e),
                None => r matches Ok(request) && request@ == framed(payload@),
            },
    {
        match frame_bytes(payload) {
            Ok(line) => {
                let mut copy = line;
                copy.pop();
                assert(copy@ =~= payload@);
                match text_of(copy) {
                    None => Err(ProtocolViolation::InvalidUtf8),
                    Some(text) => {
                        proof {
                            decode_utf8_encode_utf8(payload@);
                        }
                        Request::from_text(text.as_str())
                    },
                }
            },
            Err(e) => Err(e),
        }
    }

    /// The bytes to write to the subprocess.
    pub fn bytes(&self) -> (line: &Vec<u8>)
        ensures
            line@ == self@,
            is_request_line(line@),
            valid_utf8(line@),
    {
        proof {
            use_type_invariant(self);
        }
        &self.line
    }
}

/// The first framing rule that a raw reply breaks, if any. A raw reply is
/// what one read up to and including the next newline, or up to the end of
/// the stream, returned.
pub open spec fn reply_fault(raw: Seq<u8>) -> Option<ProtocolViolation> {
    if raw.len() == 0 {
        Some(ProtocolViolation::EndOfStream)
    } else if raw.last() != NEWLINE {
        Some(ProtocolViolation::MissingNewline)
    } else if raw.drop_last().contains(NEWLINE) {
        Some(ProtocolViolation::EmbeddedNewline)
    } else if !valid_utf8(raw.drop_last()) {
        Some(ProtocolViolation::InvalidUtf8)
    } else {
        None
    }
}

/// Calls `String::from_utf8`, which gives the text that the bytes encode
/// when they are valid UTF-8 and an error when they are not. Believed, not
/// proved.
#[verifier::external_body]
fn text_of(bytes: Vec<u8>) -> (r: Option<String>)
    ensures
        r is Some <==> valid_utf8(bytes@),
        r matches Some(text) ==> text@ == decode_utf8(bytes@),
{
    String::from_utf8(bytes).ok()
}

/// Reads one raw reply: checks the framing and returns the text of the
/// line without its newline.
pub fn parse_response(raw: Vec<u8>) -> (r: Result<String, ProtocolViolation>)
    ensures
        match reply_fault(raw@) {
            Some(e) => r == Err::<String, ProtocolViolation>(e),
            None => r matches Ok(text) && text@ == decode_utf8(raw@.drop_last()),
        },
{
    let ghost whole = raw@;
    let mut body = raw;
    match body.pop() {
        None => Err(ProtocolViolation::EndOfStream),
        Some(last) => {
            assert(body@ =~= whole.drop_last());
            if last != NEWLINE {
                return Err(ProtocolViolation::MissingNewline);
            }
            let mut i: usize = 0;
            while i < body.len()
                invariant
                    i <= body@.len(),
                    whole == raw@,
                    whole.len() > 0,
                    whole.last() == NEWLINE,
                    body@ == whole.drop_last(),
                    forall|k: int| 0 <= k < i ==> body@[k] != NEWLINE,
                decreases body@.len() - i,
            {
                if body[i] == NEWLINE {
                    assert(whole.drop_last()[i as int] == NEWLINE);
                    return Err(ProtocolViolation::EmbeddedNewline);
                }
                i = i + 1;
            }
            match text_of(body) {
                None => Err(ProtocolViolation::InvalidUtf8),
                Some(text) => Ok(text),
            }
        },
    }
}

} // verus!
