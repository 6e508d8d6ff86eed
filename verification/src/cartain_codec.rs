//! The line framer and the decoder built on it.
//!
//! Bytes arrive in chunks of any size. A line ends with a line feed; a
//! carriage return in front of the line feed is dropped. A line that is not
//! valid UTF-8 is reported as such and framing goes on behind it.

use vstd::prelude::*;
use vstd::slice::slice_subrange;
use vstd::string::StringSliceAdditionalSpecFns;
use vstd::utf8::{encode_utf8, valid_utf8};
use bytes::BytesMut;
use crate::buffer::{buffer_bytes, buffer_len, buffer_split_to, buffered};
use crate::message::{classify, CartainMessage, Telemetry};
use crate::text::{find_from, first_index, lemma_first_index, CARRIAGE_RETURN, NEWLINE};

verus! {

/// `core::str::Utf8Error`, which says where bytes stop being UTF-8; taken
/// as opaque.
#[verifier::external_type_specification]
#[verifier::external_body]
pub struct ExUtf8Error(core::str::Utf8Error);

/// `core::str::from_utf8` succeeds exactly on valid UTF-8, and the text it
/// returns has the bytes it was given.
pub assume_specification[ core::str::from_utf8 ](v: &[u8]) -> (r: Result<
    &str,
    core::str::Utf8Error,
>)
    ensures
        r is Ok <==> valid_utf8(v@),
        r matches Ok(s) ==> s.spec_bytes() == v@,
;

/// Why a segment of the stream is no line.
#[derive(Debug, Clone, Copy, PartialEq, Eq, Structural)]
pub enum FramingError {
    /// The bytes in front of the line feed are not valid UTF-8.
    InvalidEncoding,
}

impl FramingError {
    /// What to tell a reader of a log about this error.
    pub fn description(&self) -> (text: &'static str)
        ensures
            text@ == "Failed to decode input as UTF8"@,
    {
        match self {
            FramingError::InvalidEncoding => "Failed to decode input as UTF8",
        }
    }
}

/// `s` without one trailing carriage return.
pub open spec fn strip_cr(s: Seq<u8>) -> Seq<u8> {
    if s.len() > 0 && s.last() == CARRIAGE_RETURN {
        s.drop_last()
    } else {
        s
    }
}

/// What the bytes in front of a line feed amount to: the bytes of a line, or
/// a framing error.
pub open spec fn line_of(segment: Seq<u8>) -> Result<Seq<u8>, FramingError> {
    if valid_utf8(strip_cr(segment)) {
        Ok(strip_cr(segment))
    } else {
        Err(FramingError::InvalidEncoding)
    }
}

/// The bytes of a framed line, or the error in its place.
pub open spec fn line_bytes(line: Result<String, FramingError>) -> Result<Seq<u8>, FramingError> {
    match line {
        Ok(text) => Ok(encode_utf8(text@)),
        Err(e) => Err(e),
    }
}

/// The position of the first line feed at or after `from`.
pub open spec fn next_break(s: Seq<u8>, from: int) -> Option<int> {
    match first_index(s.skip(from), NEWLINE) {
        Some(offset) => Some(from + offset),
        None => None,
    }
}

/// The message that a framed line carries, if it is a line and carries one.
pub open spec fn message_of(line: Result<Seq<u8>, FramingError>) -> Option<Telemetry> {
    match line {
        Ok(bytes) => classify(bytes),
        Err(_) => None,
    }
}

/// What a message is, if there is one.
pub open spec fn message_view(message: Option<CartainMessage>) -> Option<Telemetry> {
    match message {
        Some(m) => Some(m@),
        None => None,
    }
}

/// What `decode` makes of a framed line: the message it carries or none,
/// or the framing error in its place.
pub open spec fn decoded(line: Result<Seq<u8>, FramingError>) -> Result<
    Option<Telemetry>,
    FramingError,
> {
    match line {
        Ok(bytes) => Ok(classify(bytes)),
        Err(e) => Err(e),
    }
}

/// What a result of `decode` is, as a mathematical value.
pub open spec fn outcome(r: Result<Option<CartainMessage>, FramingError>) -> Result<
    Option<Telemetry>,
    FramingError,
> {
    match r {
        Ok(m) => Ok(message_view(m)),
        Err(e) => Err(e),
    }
}

/// The results of `decode`, as mathematical values.
pub open spec fn outcomes(out: Seq<Result<Option<CartainMessage>, FramingError>>) -> Seq<
    Result<Option<Telemetry>, FramingError>,
> {
    out.map_values(|r: Result<Option<CartainMessage>, FramingError>| outcome(r))
}

/// Where calling `decode` until no whole line is left ends.
pub struct Drained {
    /// What the calls that took a line returned, in order.
    pub results: Seq<Result<Option<Telemetry>, FramingError>>,
    /// The bytes that stay in the buffer.
    pub rest: Seq<u8>,
    /// The resume index afterwards.
    pub resume: int,
}

/// Calls `decode` on `s` again and again, the first search for a line feed
/// starting at `from`, up to and including the first call that finds no
/// whole line.
pub open spec fn drain(s: Seq<u8>, from: int) -> Drained
    decreases s.len(),
    when 0 <= from <= s.len()
{
    match next_break(s, from) {
        Some(end) => {
            proof {
                lemma_first_index(s.skip(from), NEWLINE);
            }
            let later = drain(s.skip(end + 1), 0);
            Drained {
                results: seq![decoded(line_of(s.take(end)))] + later.results,
                rest: later.rest,
                resume: later.resume,
            }
        },
        None => Drained { results: Seq::empty(), rest: s, resume: s.len() as int },
    }
}

/// Where a search for the next message ends.
pub struct Scan {
    /// The message found, if any.
    pub message: Option<Telemetry>,
    /// The bytes that stay in the buffer.
    pub rest: Seq<u8>,
    /// The resume index afterwards.
    pub resume: int,
}

/// Searches `s` for the next message, starting the first search for a line
/// feed at `from`. Lines that carry no message are taken out and passed
/// over. The search ends at the first message, or where no whole line is
/// left.
pub open spec fn scan(s: Seq<u8>, from: int) -> Scan
    decreases s.len(),
    when 0 <= from <= s.len()
{
    match next_break(s, from) {
        Some(end) => {
            proof {
                lemma_first_index(s.skip(from), NEWLINE);
            }
            match message_of(line_of(s.take(end))) {
                Some(m) => Scan { message: Some(m), rest: s.skip(end + 1), resume: 0 },
                None => scan(s.skip(end + 1), 0),
            }
        },
        None => Scan { message: None, rest: s, resume: s.len() as int },
    }
}

/// Drops one trailing carriage return.
pub fn remove_carriage_return(s: &[u8]) -> (r: &[u8])
    ensures
        r@ == strip_cr(s@),
{
    let n: usize = s.len();
    if n > 0 && s[n - 1] == CARRIAGE_RETURN {
        let r = slice_subrange(s, 0, n - 1);
        assert(r@ =~= s@.drop_last());
        r
    } else {
        s
    }
}

/// Reads bytes as text.
pub fn to_str(src: &[u8]) -> (r: Result<&str, FramingError>)
    ensures
        match r {
            Ok(text) => valid_utf8(src@) && text.spec_bytes() == src@,
            Err(e) => !valid_utf8(src@) && e == FramingError::InvalidEncoding,
        },
{
    match core::str::from_utf8(src) {
        Ok(text) => Ok(text),
        Err(_) => Err(FramingError::InvalidEncoding),
    }
}

/// Frames what stands in front of a line feed: drops one trailing carriage
/// return and reads the rest as text.
pub fn frame_line(segment: &[u8]) -> (line: Result<String, FramingError>)
    ensures
        line_bytes(line) == line_of(segment@),
{
    match to_str(remove_carriage_return(segment)) {
        Ok(text) => Ok(text.to_owned()),
        Err(e) => Err(e),
    }
}

/// The framer's memory between calls: how far the buffer has been searched
/// for a line feed without finding one.
pub struct CartainCodec {
    start_index: usize,
}

impl CartainCodec {
    /// The position at which the next search starts.
    pub closed spec fn resume_index(&self) -> int {
        self.start_index as int
    }

    /// A framer that has searched nothing yet.
    pub fn new() -> (codec: CartainCodec)
        ensures
            codec.resume_index() == 0,
    {
        CartainCodec { start_index: 0 }
    }

    /// The position at which the next search starts.
    pub fn start_index(&self) -> (index: usize)
        ensures
            index == self.resume_index(),
    {
        self.start_index
    }

    /// Tells whether the resume index lies inside `src`, as the functions
    /// that take lines out of a buffer require. It does whenever `src` is
    /// the buffer of the previous call, with or without more bytes behind.
    pub fn fits(&self, src: &BytesMut) -> (r: bool)
        ensures
            r == (self.resume_index() <= buffered(*src).len()),
    {
        self.start_index <= buffer_len(src)
    }

    /// Takes the next line out of `src`, if a whole one is there.
    ///
    /// The search starts at the resume index. Without a line feed the buffer
    /// stays as it is and the resume index moves to its end. With one, the
    /// bytes up to and including the line feed leave the buffer and the
    /// resume index returns to the start.
    pub fn next_line(&mut self, src: &mut BytesMut) -> (r: Option<Result<String, FramingError>>)
        requires
            old(self).resume_index() <= buffered(*old(src)).len(),
        ensures
            match next_break(buffered(*old(src)), old(self).resume_index()) {
                Some(end) => {
                    &&& r matches Some(line)
                    &&& line_bytes(line) == line_of(buffered(*old(src)).take(end))
                    &&& buffered(*final(src)) == buffered(*old(src)).skip(end + 1)
                    &&& final(self).resume_index() == 0
                },
                None => {
                    &&& r is None
                    &&& buffered(*final(src)) == buffered(*old(src))
                    &&& final(self).resume_index() == buffered(*old(src)).len()
                },
            },
    {
        let held: usize = buffer_len(src);
        let found: Option<usize> = find_from(buffer_bytes(src), self.start_index, NEWLINE);
        match found {
            Some(index) => {
                self.start_index = 0;
                let segment: BytesMut = buffer_split_to(src, index + 1);
                let bytes: &[u8] = buffer_bytes(&segment);
                let line: &[u8] = slice_subrange(bytes, 0, index);
                assert(line@ =~= buffered(*old(src)).take(index as int));
                Some(frame_line(line))
            },
            None => {
                self.start_index = held;
                None
            },
        }
    }

    /// Takes the next line out of `src` and classifies it.
    ///
    /// `Ok(None)` stands both for "no whole line yet" and for a line that
    /// carries no message; `next_message` passes over the latter. A line
    /// that is not valid UTF-8 is an error for that line alone: the line has
    /// left the buffer and the next call goes on behind it.
    pub fn decode(&mut self, src: &mut BytesMut) -> (r: Result<
        Option<CartainMessage>,
        FramingError,
    >)
        requires
            old(self).resume_index() <= buffered(*old(src)).len(),
        ensures
            match next_break(buffered(*old(src)), old(self).resume_index()) {
                Some(end) => {
                    &&& outcome(r) == decoded(line_of(buffered(*old(src)).take(end)))
                    &&& buffered(*final(src)) == buffered(*old(src)).skip(end + 1)
                    &&& final(self).resume_index() == 0
                },
                None => {
                    &&& r == Ok::<Option<CartainMessage>, FramingError>(None)
                    &&& buffered(*final(src)) == buffered(*old(src))
                    &&& final(self).resume_index() == buffered(*old(src)).len()
                },
            },
    {
        match self.next_line(src) {
            Some(Ok(line)) => Ok(CartainMessage::from_str(line.as_str())),
            Some(Err(e)) => Err(e),
            None => Ok(None),
        }
    }

    /// Tells whether a whole line stands in `src`, the search starting at the
    /// resume index.
    pub fn has_line(&self, src: &BytesMut) -> (r: bool)
        requires
            self.resume_index() <= buffered(*src).len(),
        ensures
            r == (next_break(buffered(*src), self.resume_index()) is Some),
    {
        find_from(buffer_bytes(src), self.start_index, NEWLINE).is_some()
    }

    /// Calls `decode` until no whole line is left in `src`, then once more,
    /// and returns what the calls that took a line returned, in order. The
    /// last call finds nothing and moves the resume index to the end of the
    /// buffer.
    pub fn decode_all(&mut self, src: &mut BytesMut) -> (out: Vec<
        Result<Option<CartainMessage>, FramingError>,
    >)
        requires
            old(self).resume_index() <= buffered(*old(src)).len(),
        ensures
            outcomes(out@) == drain(buffered(*old(src)), old(self).resume_index()).results,
            buffered(*final(src)) == drain(buffered(*old(src)), old(self).resume_index()).rest,
            final(self).resume_index() == drain(
                buffered(*old(src)),
                old(self).resume_index(),
            ).resume,
    {
        let ghost goal = drain(buffered(*old(src)), old(self).resume_index());
        let mut out: Vec<Result<Option<CartainMessage>, FramingError>> = Vec::new();
        assert(outcomes(out@) =~= Seq::<Result<Option<Telemetry>, FramingError>>::empty());
        assert(outcomes(out@) + goal.results =~= goal.results);
        loop
            invariant
                self.resume_index() <= buffered(*src).len(),
                goal == drain(buffered(*old(src)), old(self).resume_index()),
                outcomes(out@) + drain(buffered(*src), self.resume_index()).results
                    == goal.results,
                drain(buffered(*src), self.resume_index()).rest == goal.rest,
                drain(buffered(*src), self.resume_index()).resume == goal.resume,
            decreases buffered(*src).len(),
        {
            let ghost done = out@;
            let ghost before = drain(buffered(*src), self.resume_index());
            proof {
                lemma_first_index(buffered(*src).skip(self.resume_index()), NEWLINE);
            }
            if self.has_line(src) {
                let r = self.decode(src);
                out.push(r);
                proof {
                    assert(outcomes(out@) =~= outcomes(done) + seq![outcome(r)]);
                    assert(outcomes(out@) + drain(buffered(*src), 0).results =~= outcomes(done)
                        + before.results);
                }
            } else {
                let _ = self.decode(src);
                proof {
                    assert(outcomes(out@) + before.results =~= outcomes(out@));
                }
                return out;
            }
        }
    }

    /// Takes lines out of `src` up to and including the first that carries a
    /// message, and returns that message; `None` where no whole line is left.
    /// Lines that carry no message, and segments that are no lines, are
    /// dropped on the way.
    pub fn next_message(&mut self, src: &mut BytesMut) -> (r: Option<CartainMessage>)
        requires
            old(self).resume_index() <= buffered(*old(src)).len(),
        ensures
            message_view(r) == scan(buffered(*old(src)), old(self).resume_index()).message,
            buffered(*final(src)) == scan(buffered(*old(src)), old(self).resume_index()).rest,
            final(self).resume_index() == scan(
                buffered(*old(src)),
                old(self).resume_index(),
            ).resume,
    {
        let ghost goal = scan(buffered(*old(src)), old(self).resume_index());
        loop
            invariant
                self.resume_index() <= buffered(*src).len(),
                goal == scan(buffered(*old(src)), old(self).resume_index()),
                scan(buffered(*src), self.resume_index()) == goal,
            decreases buffered(*src).len(),
        {
            proof {
                lemma_first_index(buffered(*src).skip(self.resume_index()), NEWLINE);
            }
            match self.next_line(src) {
                Some(Ok(line)) => {
                    match CartainMessage::from_str(line.as_str()) {
                        Some(m) => {
                            return Some(m);
                        },
                        None => {},
                    }
                },
                Some(Err(_)) => {},
                None => {
                    return None;
                },
            }
        }
    }
}

} // verus!
