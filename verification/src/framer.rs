//! The stream as a whole: which lines and messages a sequence of bytes
//! holds, and a framer that owns its buffer.
//!
//! The model is stated on the whole stream, so that it says nothing of how
//! the bytes were cut into chunks on their way in. The framer is proved
//! against it.

use vstd::prelude::*;
use vstd::slice::slice_subrange;
use crate::cartain_codec::{
    decoded, drain, frame_line, line_bytes, line_of, message_of, next_break, scan, strip_cr,
    FramingError,
};
use crate::message::{CartainMessage, Telemetry};
use crate::text::{
    append, find_from, first_index, is_first, is_last, last_index, lemma_first_index,
    lemma_first_index_unique, lemma_last_index, lemma_last_index_unique, CARRIAGE_RETURN, NEWLINE,
};

verus! {

/// The lines that a stream holds complete, in order: one for each line feed.
pub open spec fn lines(s: Seq<u8>) -> Seq<Result<Seq<u8>, FramingError>>
    decreases s.len(),
{
    match first_index(s, NEWLINE) {
        Some(i) => {
            proof {
                lemma_first_index(s, NEWLINE);
            }
            seq![line_of(s.take(i))] + lines(s.skip(i + 1))
        },
        None => Seq::empty(),
    }
}

/// What a stream holds behind its last line feed: the start of a line that
/// is not complete yet.
pub open spec fn remainder(s: Seq<u8>) -> Seq<u8> {
    match last_index(s, NEWLINE) {
        Some(i) => s.skip(i + 1),
        None => s,
    }
}

/// The messages among a sequence of framed lines, in order.
pub open spec fn messages_of(framed: Seq<Result<Seq<u8>, FramingError>>) -> Seq<Telemetry> {
    framed.filter_map(|line: Result<Seq<u8>, FramingError>| message_of(line))
}

/// The messages that a stream holds, in order.
pub open spec fn messages_in(s: Seq<u8>) -> Seq<Telemetry> {
    messages_of(lines(s))
}

/// The framed lines as bytes.
pub open spec fn framed(out: Seq<Result<String, FramingError>>) -> Seq<
    Result<Seq<u8>, FramingError>,
> {
    out.map_values(|line: Result<String, FramingError>| line_bytes(line))
}

/// The messages as mathematical values.
pub open spec fn views(out: Seq<CartainMessage>) -> Seq<Telemetry> {
    out.map_values(|m: CartainMessage| m@)
}

/// A stream without a line feed holds no line and is all remainder.
pub proof fn lemma_no_line(s: Seq<u8>)
    requires
        !s.contains(NEWLINE),
    ensures
        lines(s) == Seq::<Result<Seq<u8>, FramingError>>::empty(),
        remainder(s) == s,
        messages_in(s) == Seq::<Telemetry>::empty(),
{
}

/// A stream with a line feed holds the line in front of the first one, then
/// what the rest holds.
pub proof fn lemma_first_line(s: Seq<u8>, i: int)
    requires
        is_first(s, NEWLINE, i),
    ensures
        lines(s) == seq![line_of(s.take(i))] + lines(s.skip(i + 1)),
        remainder(s) == remainder(s.skip(i + 1)),
{
    lemma_first_index_unique(s, NEWLINE, i);
    let t = s.skip(i + 1);
    lemma_last_index(s, NEWLINE);
    lemma_last_index(t, NEWLINE);
    let j = last_index(s, NEWLINE)->0;
    match last_index(t, NEWLINE) {
        Some(k) => {
            assert(s[i + 1 + k] == t[k]);
            assert forall|m: int| i + 1 + k < m < s.len() implies s[m] != NEWLINE by {
                assert(s[m] == t[m - i - 1]);
            }
            assert(is_last(s, NEWLINE, i + 1 + k));
            lemma_last_index_unique(s, NEWLINE, i + 1 + k);
            assert(t.skip(k + 1) =~= s.skip(i + 1 + k + 1));
        },
        None => {
            assert forall|m: int| i < m < s.len() implies s[m] != NEWLINE by {
                assert(s[m] == t[m - i - 1]);
            }
            assert(is_last(s, NEWLINE, i));
            lemma_last_index_unique(s, NEWLINE, i);
        },
    }
}

/// **Lines are whole.** No line of a stream holds a line feed: a line ends
/// at the first one.
pub proof fn lemma_lines_hold_no_line_feed(s: Seq<u8>, i: int)
    requires
        0 <= i < lines(s).len(),
    ensures
        lines(s)[i] matches Ok(line) ==> !line.contains(NEWLINE),
    decreases s.len(),
{
    lemma_first_index(s, NEWLINE);
    let end = first_index(s, NEWLINE)->0;
    if i == 0 {
        let segment = s.take(end);
        if let Ok(line) = line_of(segment) {
            assert forall|j: int| 0 <= j < line.len() implies line[j] != NEWLINE by {
                assert(line[j] == s[j]);
            }
        }
    } else {
        lemma_lines_hold_no_line_feed(s.skip(end + 1), i - 1);
    }
}

/// The messages among two runs of lines are those of the first run, then
/// those of the second.
pub proof fn lemma_messages_of_add(
    a: Seq<Result<Seq<u8>, FramingError>>,
    b: Seq<Result<Seq<u8>, FramingError>>,
)
    ensures
        messages_of(a + b) == messages_of(a) + messages_of(b),
    decreases b.len(),
{
    if b.len() == 0 {
        assert(a + b =~= a);
        assert(messages_of(a) + messages_of(b) =~= messages_of(a));
    } else {
        assert((a + b).drop_last() =~= a + b.drop_last());
        assert((a + b).last() == b.last());
        lemma_messages_of_add(a, b.drop_last());
        assert(messages_of(a + b) =~= messages_of(a) + messages_of(b));
    }
}

/// The messages of a single line.
pub proof fn lemma_messages_of_one(line: Result<Seq<u8>, FramingError>)
    ensures
        messages_of(seq![line]) == match message_of(line) {
            Some(m) => seq![m],
            None => Seq::<Telemetry>::empty(),
        },
{
    let one = seq![line];
    assert(one.drop_last() =~= Seq::<Result<Seq<u8>, FramingError>>::empty());
    assert(one.last() == line);
    reveal_with_fuel(Seq::filter_map, 2);
    assert(messages_of(one) =~= match message_of(line) {
        Some(m) => seq![m],
        None => Seq::<Telemetry>::empty(),
    });
}

/// **Chunking, two chunks.** What a stream holds does not depend on where it
/// is cut: the lines of `a` followed by `b` are the lines of `a`, then the
/// lines of what `a` left unfinished followed by `b`; and the same bytes
/// stay unfinished in the end.
pub proof fn lemma_lines_append(a: Seq<u8>, b: Seq<u8>)
    ensures
        lines(a + b) == lines(a) + lines(remainder(a) + b),
        remainder(a + b) == remainder(remainder(a) + b),
    decreases a.len(),
{
    lemma_first_index(a, NEWLINE);
    match first_index(a, NEWLINE) {
        Some(i) => {
            let whole = a + b;
            assert(whole[i] == a[i]);
            assert forall|j: int| 0 <= j < i implies whole[j] != NEWLINE by {
                assert(whole[j] == a[j]);
            }
            assert(is_first(whole, NEWLINE, i));
            lemma_first_line(whole, i);
            lemma_first_line(a, i);
            assert(whole.take(i) =~= a.take(i));
            assert(whole.skip(i + 1) =~= a.skip(i + 1) + b);
            lemma_lines_append(a.skip(i + 1), b);
            assert(lines(a + b) =~= lines(a) + lines(remainder(a) + b));
        },
        None => {
            assert(!a.contains(NEWLINE));
            lemma_no_line(a);
            assert(lines(a + b) =~= lines(a) + lines(remainder(a) + b));
        },
    }
}

/// The messages of a stream cut in two: those of the first part, then those
/// of what the first part left unfinished followed by the second.
pub proof fn lemma_messages_append(a: Seq<u8>, b: Seq<u8>)
    ensures
        messages_in(a + b) == messages_in(a) + messages_in(remainder(a) + b),
{
    lemma_lines_append(a, b);
    lemma_messages_of_add(lines(a), lines(remainder(a) + b));
}

/// What is left unfinished holds no line feed.
pub proof fn lemma_remainder_open(s: Seq<u8>)
    ensures
        !remainder(s).contains(NEWLINE),
{
    lemma_last_index(s, NEWLINE);
    match last_index(s, NEWLINE) {
        Some(i) => {
            let r = s.skip(i + 1);
            assert forall|j: int| 0 <= j < r.len() implies r[j] != NEWLINE by {
                assert(r[j] == s[i + 1 + j]);
            }
        },
        None => {},
    }
}

/// What a framer that starts with `pending` yields when it is fed `chunks`
/// one after the other: all the lines, in order.
pub open spec fn fed_lines(pending: Seq<u8>, chunks: Seq<Seq<u8>>) -> Seq<
    Result<Seq<u8>, FramingError>,
>
    decreases chunks.len(),
{
    if chunks.len() == 0 {
        Seq::empty()
    } else {
        lines(pending + chunks.first()) + fed_lines(
            remainder(pending + chunks.first()),
            chunks.drop_first(),
        )
    }
}

/// What a framer that starts with `pending` holds unfinished after it was
/// fed `chunks` one after the other.
pub open spec fn fed_pending(pending: Seq<u8>, chunks: Seq<Seq<u8>>) -> Seq<u8>
    decreases chunks.len(),
{
    if chunks.len() == 0 {
        pending
    } else {
        fed_pending(remainder(pending + chunks.first()), chunks.drop_first())
    }
}

/// **Chunking, any number of chunks.** Feeding a framer chunk by chunk
/// yields the lines of the chunks joined together, and leaves unfinished
/// what the joined stream leaves unfinished.
pub proof fn lemma_fed_is_whole(pending: Seq<u8>, chunks: Seq<Seq<u8>>)
    requires
        !pending.contains(NEWLINE),
    ensures
        fed_lines(pending, chunks) == lines(pending + chunks.flatten()),
        fed_pending(pending, chunks) == remainder(pending + chunks.flatten()),
    decreases chunks.len(),
{
    if chunks.len() == 0 {
        assert(pending + chunks.flatten() =~= pending);
        lemma_no_line(pending);
    } else {
        let head = chunks.first();
        let tail = chunks.drop_first();
        let next = remainder(pending + head);
        lemma_remainder_open(pending + head);
        lemma_fed_is_whole(next, tail);
        lemma_lines_append(pending + head, tail.flatten());
        assert(pending + chunks.flatten() =~= (pending + head) + tail.flatten());
    }
}

/// **Chunking.** Two ways of cutting the same bytes into chunks give a
/// framer the same lines in the same order, and leave it in the same state.
pub proof fn lemma_chunking(first: Seq<Seq<u8>>, second: Seq<Seq<u8>>)
    requires
        first.flatten() == second.flatten(),
    ensures
        fed_lines(Seq::empty(), first) == fed_lines(Seq::empty(), second),
        fed_pending(Seq::empty(), first) == fed_pending(Seq::empty(), second),
{
    lemma_fed_is_whole(Seq::empty(), first);
    lemma_fed_is_whole(Seq::empty(), second);
}

/// **Carriage returns.** A line that ends with a carriage return and a line
/// feed frames as the same line ended by a line feed alone, where the
/// content itself does not end with a carriage return.
pub proof fn lemma_carriage_return_ignored(content: Seq<u8>)
    requires
        content.len() == 0 || content.last() != CARRIAGE_RETURN,
    ensures
        lines(content + seq![CARRIAGE_RETURN, NEWLINE]) == lines(content + seq![NEWLINE]),
        remainder(content + seq![CARRIAGE_RETURN, NEWLINE]) == remainder(content + seq![NEWLINE]),
{
    let open = remainder(content);
    lemma_lines_append(content, seq![CARRIAGE_RETURN, NEWLINE]);
    lemma_lines_append(content, seq![NEWLINE]);
    lemma_remainder_open(content);
    lemma_last_index(content, NEWLINE);
    assert(open.len() == 0 || open.last() != CARRIAGE_RETURN);
    let with_cr = open + seq![CARRIAGE_RETURN, NEWLINE];
    let without = open + seq![NEWLINE];
    let n = open.len() as int;
    assert(is_first(with_cr, NEWLINE, n + 1)) by {
        assert forall|j: int| 0 <= j < n + 1 implies with_cr[j] != NEWLINE by {
            if j < n {
                assert(with_cr[j] == open[j]);
                assert(open.contains(open[j]));
            }
        }
    }
    assert(is_first(without, NEWLINE, n)) by {
        assert forall|j: int| 0 <= j < n implies without[j] != NEWLINE by {
            assert(without[j] == open[j]);
            assert(open.contains(open[j]));
        }
    }
    lemma_first_line(with_cr, n + 1);
    lemma_first_line(without, n);
    assert(with_cr.skip(n + 2) =~= Seq::<u8>::empty());
    assert(without.skip(n + 1) =~= Seq::<u8>::empty());
    assert(with_cr.take(n + 1) =~= open.push(CARRIAGE_RETURN));
    assert(without.take(n) =~= open);
    assert(open.push(CARRIAGE_RETURN).drop_last() =~= open);
    assert(strip_cr(with_cr.take(n + 1)) == open);
    assert(strip_cr(without.take(n)) == open);
}

/// Where the bytes in front of the resume index hold no line feed, the
/// search from the resume index finds the first line feed of the buffer.
pub proof fn lemma_resume(s: Seq<u8>, from: int)
    requires
        0 <= from <= s.len(),
        !s.take(from).contains(NEWLINE),
    ensures
        next_break(s, from) == first_index(s, NEWLINE),
{
    let tail = s.skip(from);
    lemma_first_index(tail, NEWLINE);
    match first_index(tail, NEWLINE) {
        Some(offset) => {
            assert(s[from + offset] == tail[offset]);
            assert forall|j: int| 0 <= j < from + offset implies s[j] != NEWLINE by {
                if j < from {
                    assert(s.take(from)[j] == s[j]);
                    assert(s.take(from).contains(s[j]));
                } else {
                    assert(tail[j - from] == s[j]);
                }
            }
            lemma_first_index_unique(s, NEWLINE, from + offset);
        },
        None => {
            assert forall|j: int| 0 <= j < s.len() implies s[j] != NEWLINE by {
                if j < from {
                    assert(s.take(from)[j] == s[j]);
                    assert(s.take(from).contains(s[j]));
                } else {
                    assert(tail[j - from] == s[j]);
                }
            }
        },
    }
}

/// A search for the next message finds the first message of the stream and
/// leaves the rest of the stream; where it finds none, the stream holds no
/// message and only its unfinished end is left.
pub proof fn lemma_scan(s: Seq<u8>, from: int)
    requires
        0 <= from <= s.len(),
        !s.take(from).contains(NEWLINE),
    ensures
        remainder(scan(s, from).rest) == remainder(s),
        match scan(s, from).message {
            Some(m) => {
                &&& messages_in(s) == seq![m] + messages_in(scan(s, from).rest)
                &&& scan(s, from).resume == 0
                &&& scan(s, from).rest.len() < s.len()
            },
            None => {
                &&& messages_in(s) == Seq::<Telemetry>::empty()
                &&& scan(s, from).rest == remainder(s)
                &&& scan(s, from).resume == remainder(s).len()
            },
        },
    decreases s.len(),
{
    lemma_resume(s, from);
    lemma_first_index(s, NEWLINE);
    match first_index(s, NEWLINE) {
        Some(end) => {
            let rest = s.skip(end + 1);
            let line = line_of(s.take(end));
            lemma_first_line(s, end);
            lemma_messages_of_add(seq![line], lines(rest));
            lemma_messages_of_one(line);
            match message_of(line) {
                Some(m) => {},
                None => {
                    assert(rest.take(0) =~= Seq::<u8>::empty());
                    lemma_scan(rest, 0);
                    assert(messages_in(s) =~= messages_in(rest));
                },
            }
        },
        None => {
            lemma_no_line(s);
        },
    }
}

/// What `decode` makes of each of a run of framed lines.
pub open spec fn decoded_lines(framed: Seq<Result<Seq<u8>, FramingError>>) -> Seq<
    Result<Option<Telemetry>, FramingError>,
> {
    framed.map_values(|line: Result<Seq<u8>, FramingError>| decoded(line))
}

/// Calling `decode` until no whole line is left returns what `decode` makes
/// of each line of the stream, in order, and leaves the unfinished end of
/// the stream in the buffer, searched to its end.
pub proof fn lemma_drain(s: Seq<u8>, from: int)
    requires
        0 <= from <= s.len(),
        !s.take(from).contains(NEWLINE),
    ensures
        drain(s, from).results == decoded_lines(lines(s)),
        drain(s, from).rest == remainder(s),
        drain(s, from).resume == remainder(s).len(),
    decreases s.len(),
{
    lemma_resume(s, from);
    lemma_first_index(s, NEWLINE);
    match first_index(s, NEWLINE) {
        Some(end) => {
            let rest = s.skip(end + 1);
            lemma_first_line(s, end);
            assert(rest.take(0) =~= Seq::<u8>::empty());
            lemma_drain(rest, 0);
            assert(decoded_lines(lines(s)) =~= seq![decoded(line_of(s.take(end)))]
                + decoded_lines(lines(rest)));
        },
        None => {
            lemma_no_line(s);
            assert(decoded_lines(lines(s)) =~= Seq::<
                Result<Option<Telemetry>, FramingError>,
            >::empty());
        },
    }
}

/// What the calls of `decode` that take a line return, in order, when
/// `chunks` are appended one after the other to a buffer that holds
/// `pending`, searched to its end, and `decode` is called after each chunk
/// until no whole line is left.
pub open spec fn drained_results(pending: Seq<u8>, chunks: Seq<Seq<u8>>) -> Seq<
    Result<Option<Telemetry>, FramingError>,
>
    decreases chunks.len(),
{
    if chunks.len() == 0 {
        Seq::empty()
    } else {
        let step = drain(pending + chunks.first(), pending.len() as int);
        step.results + drained_results(step.rest, chunks.drop_first())
    }
}

/// What the buffer holds after `chunks` were appended and drained in this
/// way.
pub open spec fn drained_rest(pending: Seq<u8>, chunks: Seq<Seq<u8>>) -> Seq<u8>
    decreases chunks.len(),
{
    if chunks.len() == 0 {
        pending
    } else {
        let step = drain(pending + chunks.first(), pending.len() as int);
        drained_rest(step.rest, chunks.drop_first())
    }
}

/// **Chunking of a framed transport.** Appending chunks to a buffer and
/// calling `decode` after each until no whole line is left returns what
/// `decode` makes of each line of the chunks joined together, and leaves in
/// the buffer what the joined stream leaves unfinished.
pub proof fn lemma_drained_is_whole(pending: Seq<u8>, chunks: Seq<Seq<u8>>)
    requires
        !pending.contains(NEWLINE),
    ensures
        drained_results(pending, chunks) == decoded_lines(lines(pending + chunks.flatten())),
        drained_rest(pending, chunks) == remainder(pending + chunks.flatten()),
    decreases chunks.len(),
{
    if chunks.len() == 0 {
        assert(pending + chunks.flatten() =~= pending);
        lemma_no_line(pending);
        assert(decoded_lines(lines(pending)) =~= Seq::<
            Result<Option<Telemetry>, FramingError>,
        >::empty());
    } else {
        let head = chunks.first();
        let tail = chunks.drop_first();
        let fed = pending + head;
        assert(fed.take(pending.len() as int) =~= pending);
        lemma_drain(fed, pending.len() as int);
        lemma_remainder_open(fed);
        lemma_drained_is_whole(remainder(fed), tail);
        lemma_lines_append(fed, tail.flatten());
        assert(pending + chunks.flatten() =~= fed + tail.flatten());
        assert(decoded_lines(lines(fed) + lines(remainder(fed) + tail.flatten()))
            =~= decoded_lines(lines(fed)) + decoded_lines(
            lines(remainder(fed) + tail.flatten()),
        ));
    }
}

/// **Chunking of a framed transport.** Two ways of cutting the same bytes
/// into chunks give the same results of `decode` in the same order, and
/// leave the same bytes in the buffer.
pub proof fn lemma_decode_chunking(first: Seq<Seq<u8>>, second: Seq<Seq<u8>>)
    requires
        first.flatten() == second.flatten(),
    ensures
        drained_results(Seq::empty(), first) == drained_results(Seq::empty(), second),
        drained_rest(Seq::empty(), first) == drained_rest(Seq::empty(), second),
{
    lemma_drained_is_whole(Seq::empty(), first);
    lemma_drained_is_whole(Seq::empty(), second);
}

/// A line framer that owns its buffer.
///
/// Between calls the buffer holds the start of a line that is not complete
/// yet, and nothing else.
pub struct LineFramer {
    pending: Vec<u8>,
}

impl LineFramer {
    /// The bytes received behind the last line feed.
    pub closed spec fn pending(&self) -> Seq<u8> {
        self.pending@
    }

    /// The buffer holds no line feed.
    pub open spec fn wf(&self) -> bool {
        !self.pending().contains(NEWLINE)
    }

    /// A framer that has received nothing.
    pub fn new() -> (framer: LineFramer)
        ensures
            framer.wf(),
            framer.pending() == Seq::<u8>::empty(),
    {
        LineFramer { pending: Vec::new() }
    }

    /// The number of bytes received behind the last line feed.
    pub fn pending_len(&self) -> (n: usize)
        ensures
            n == self.pending().len(),
    {
        self.pending.len()
    }

    /// The bytes received behind the last line feed.
    pub fn pending_bytes(&self) -> (bytes: &[u8])
        ensures
            bytes@ == self.pending(),
    {
        self.pending.as_slice()
    }

    /// Receives `bytes` and returns the lines that are now complete, in
    /// order. A segment that is not valid UTF-8 is reported in its place.
    ///
    /// The bytes that were pending are not searched again: they are known to
    /// hold no line feed.
    pub fn feed(&mut self, bytes: &[u8]) -> (out: Vec<Result<String, FramingError>>)
        requires
            old(self).wf(),
        ensures
            final(self).wf(),
            framed(out@) == lines(old(self).pending() + bytes@),
            final(self).pending() == remainder(old(self).pending() + bytes@),
    {
        let mut resume: usize = self.pending.len();
        append(&mut self.pending, bytes);
        let ghost total = self.pending@;
        let end: usize = self.pending.len();
        let mut out: Vec<Result<String, FramingError>> = Vec::new();
        let mut start: usize = 0;
        proof {
            assert(total.take(resume as int) =~= old(self).pending());
            assert(total.skip(0) =~= total);
            assert(total.skip(0).take(resume as int) =~= old(self).pending());
            assert(framed(out@) =~= Seq::<Result<Seq<u8>, FramingError>>::empty());
        }
        loop
            invariant
                self.pending@ == total,
                end == total.len(),
                start <= resume <= end,
                !total.skip(start as int).take(resume - start).contains(NEWLINE),
                framed(out@) + lines(total.skip(start as int)) == lines(total),
                remainder(total.skip(start as int)) == remainder(total),
            ensures
                self.pending@ == total,
                start <= total.len(),
                !total.skip(start as int).contains(NEWLINE),
                framed(out@) == lines(total),
                total.skip(start as int) == remainder(total),
            decreases total.len() - start,
        {
            let rest: &[u8] = slice_subrange(self.pending.as_slice(), start, end);
            let ghost before = total.skip(start as int);
            let ghost done = out@;
            proof {
                assert(rest@ =~= before);
                lemma_resume(before, resume - start);
                lemma_first_index(before, NEWLINE);
            }
            match find_from(rest, resume - start, NEWLINE) {
                Some(index) => {
                    let line = frame_line(slice_subrange(rest, 0, index));
                    out.push(line);
                    proof {
                        lemma_first_line(before, index as int);
                        assert(before.skip(index + 1) =~= total.skip(start + index + 1));
                        assert(framed(out@) =~= framed(done) + seq![line_bytes(line)]);
                        assert(total.skip(start + index + 1).take(0) =~= Seq::<u8>::empty());
                        assert(framed(out@) + lines(total.skip(start + index + 1)) =~= framed(
                            done,
                        ) + lines(before));
                    }
                    start = start + index + 1;
                    resume = start;
                },
                None => {
                    proof {
                        lemma_no_line(before);
                        assert(framed(out@) + lines(before) =~= framed(out@));
                    }
                    break ;
                },
            }
        }
        if start > 0 {
            let tail: Vec<u8> = self.pending.split_off(start);
            assert(tail@ =~= total.skip(start as int));
            self.pending = tail;
        } else {
            assert(total.skip(0) =~= total);
        }
        out
    }

    /// Receives `bytes` and returns the messages that the lines now complete
    /// carry, in order. Lines that carry no message, and segments that are
    /// no lines, are dropped.
    pub fn messages(&mut self, bytes: &[u8]) -> (out: Vec<CartainMessage>)
        requires
            old(self).wf(),
        ensures
            final(self).wf(),
            views(out@) == messages_in(old(self).pending() + bytes@),
            final(self).pending() == remainder(old(self).pending() + bytes@),
    {
        let found: Vec<Result<String, FramingError>> = self.feed(bytes);
        let mut out: Vec<CartainMessage> = Vec::new();
        let mut i: usize = 0;
        proof {
            assert(framed(found@).take(0) =~= Seq::<Result<Seq<u8>, FramingError>>::empty());
            assert(views(out@) =~= messages_of(framed(found@).take(0)));
        }
        while i < found.len()
            invariant
                i <= found.len(),
                views(out@) == messages_of(framed(found@).take(i as int)),
            decreases found.len() - i,
        {
            let ghost done = out@;
            let ghost seen = framed(found@).take(i as int);
            proof {
                assert(framed(found@).take(i + 1) =~= seen + seq![line_bytes(found@[i as int])]);
                lemma_messages_of_add(seen, seq![line_bytes(found@[i as int])]);
                lemma_messages_of_one(line_bytes(found@[i as int]));
            }
            match &found[i] {
                Ok(text) => {
                    match CartainMessage::from_str(text.as_str()) {
                        Some(m) => {
                            out.push(m);
                            assert(views(out@) =~= views(done) + seq![m@]);
                        },
                        None => {
                            assert(messages_of(seen) + Seq::<Telemetry>::empty() =~= messages_of(
                                seen,
                            ));
                        },
                    }
                },
                Err(_) => {
                    assert(messages_of(seen) + Seq::<Telemetry>::empty() =~= messages_of(seen));
                },
            }
            i += 1;
        }
        assert(framed(found@).take(found.len() as int) =~= framed(found@));
        out
    }
}

} // verus!
