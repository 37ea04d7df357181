//! Framing a client's byte stream: cutting complete frames off the buffered
//! input, and the errors a connection ends with.

use vstd::prelude::*;
use crate::resp::{Cursor, Frame, RespError, SpecError, SpecFrame, spec_check, spec_parse};
use crate::text::owned;
use crate::resp::spec_serialize;
use crate::resp_laws::{wire_safe, lemma_parse_serialized, lemma_check_of_parse};

verus! {

#[verifier::external_type_specification]
#[verifier::external_body]
pub struct ExIoError(std::io::Error);

/// Calls `std::io::Error`'s `to_string`. Nothing is claimed of the text: it
/// may come from the operating system.
#[verifier::external_body]
fn io_error_text(e: &std::io::Error) -> String {
    e.to_string()
}

/// Why a connection ended.
#[derive(Debug)]
pub enum ConnectionError {
    Io(std::io::Error),
    Protocol(RespError),
    ResetByPeer,
}

impl ConnectionError {
    /// The text of the error.
    pub fn describe(&self) -> (r: String)
        ensures
            match self {
                ConnectionError::Io(_) => exists|t: Seq<char>| r@ == "IO error: "@ + t,
                ConnectionError::Protocol(e) => r@ == "Protocol error: "@ + match e@ {
                    SpecError::Incomplete => "incomplete RESP frame"@,
                    SpecError::Invalid(m) => "invalid RESP frame: "@ + m,
                },
                ConnectionError::ResetByPeer => r@ == "Connection reset by peer"@,
            },
    {
        match self {
            ConnectionError::Io(err) => {
                let t = io_error_text(err);
                owned("IO error: ").concat(t.as_str())
            },
            ConnectionError::Protocol(err) => owned("Protocol error: ").concat(err.describe().as_str()),
            ConnectionError::ResetByPeer => owned("Connection reset by peer"),
        }
    }
}

impl From<RespError> for ConnectionError {
    fn from(err: RespError) -> (r: ConnectionError) {
        ConnectionError::Protocol(err)
    }
}

impl vstd::std_specs::convert::FromSpecImpl<RespError> for ConnectionError {
    open spec fn obeys_from_spec() -> bool {
        true
    }

    open spec fn from_spec(err: RespError) -> ConnectionError {
        ConnectionError::Protocol(err)
    }
}

impl From<std::io::Error> for ConnectionError {
    fn from(err: std::io::Error) -> (r: ConnectionError) {
        ConnectionError::Io(err)
    }
}

impl vstd::std_specs::convert::FromSpecImpl<std::io::Error> for ConnectionError {
    open spec fn obeys_from_spec() -> bool {
        true
    }

    open spec fn from_spec(err: std::io::Error) -> ConnectionError {
        ConnectionError::Io(err)
    }
}

/// Cutting a frame off the start of `buf`: the frame and its length when a
/// complete one is there, `None` when more bytes are needed, or the error
/// that makes the input unreadable.
pub open spec fn spec_parse_frame(buf: Seq<u8>) -> Result<Option<(SpecFrame, int)>, SpecError> {
    let c = spec_check(buf, 0);
    match c.res {
        Ok(_) => match spec_parse(buf, 0).res {
            Ok(f) => Ok(Some((f, c.end))),
            Err(e) => Err(e),
        },
        Err(SpecError::Incomplete) => Ok(None),
        Err(e) => Err(e),
    }
}

/// Attempts to parse a frame from the start of the buffered input; returns
/// the frame and how many bytes it took.
pub fn parse_frame(buffer: &[u8]) -> (r: Result<Option<(Frame, usize)>, RespError>)
    ensures
        match r {
            Ok(Some((f, n))) => spec_parse_frame(buffer@) == Ok::<Option<(SpecFrame, int)>, SpecError>(Some((f@, n as int))),
            Ok(None) => spec_parse_frame(buffer@) == Ok::<Option<(SpecFrame, int)>, SpecError>(None),
            Err(e) => spec_parse_frame(buffer@) == Err::<Option<(SpecFrame, int)>, SpecError>(e@),
        },
{
    let mut buf = Cursor::new(buffer);
    match Frame::check(&mut buf) {
        Ok(_) => {
            let len = buf.position();
            buf.set_position(0);
            let frame = Frame::parse(&mut buf)?;
            Ok(Some((frame, len)))
        },
        Err(RespError::Incomplete) => Ok(None),
        Err(e) => Err(e),
    }
}

/// The outcome of a read that found the peer gone with `buffered` bytes still
/// unparsed: a clean close when nothing is left over.
pub fn closed_outcome(buffered: usize) -> (r: Result<Option<Frame>, ConnectionError>)
    ensures
        buffered == 0 ==> r matches Ok(None),
        buffered != 0 ==> r matches Err(ConnectionError::ResetByPeer),
{
    if buffered == 0 {
        Ok(None)
    } else {
        Err(ConnectionError::ResetByPeer)
    }
}

/// Pipelined input: when the buffer opens with the encoding of a wire-safe
/// frame, whatever follows, the frame is cut off whole and exactly its
/// encoding is consumed.
pub proof fn law_frame_cut_from_pipeline(f: SpecFrame, tail: Seq<u8>)
    requires
        wire_safe(f),
    ensures
        spec_parse_frame(spec_serialize(f) + tail)
            == Ok::<Option<(SpecFrame, int)>, SpecError>(Some((f, spec_serialize(f).len() as int))),
{
    let w = spec_serialize(f);
    let s = w + tail;
    assert(s.subrange(0, w.len() as int) =~= w);
    lemma_parse_serialized(f, s, 0);
    lemma_check_of_parse(s, 0);
}

} // verus!
