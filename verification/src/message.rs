//! Telemetry messages and the classification of a line.
//!
//! A line is recognised by its literal prefix. Lines that begin with `#`
//! carry their value in the last blank-separated token; lines that begin with
//! `*` carry it after the first blank. A decimal value is followed by its
//! unit. Whatever does not fit is no message: noise on the link is expected.

use vstd::prelude::*;
use vstd::slice::slice_subrange;
use vstd::string::StringSliceAdditionalSpecFns;
use crate::decimal::{is_decimal_literal, lemma_literal_is_solid, Decimal};
use crate::number::{
    decimal_digits, is_digit, lemma_decimal_digits, lemma_parse_decimal_digits, parse_u32,
    parse_u64, parse_unsigned, push_decimal,
};
use crate::text::{
    append, ascii, ends_with, find_first, find_last, first_index, has_prefix, has_suffix,
    is_first, is_last, last_index, lemma_first_index_unique, lemma_last_index_unique, literal,
    starts_with, SPACE,
};

verus! {

/// The six kinds of message.
#[derive(Debug, Clone, Copy, PartialEq, Eq, Structural)]
pub enum Kind {
    /// The current frequency.
    Curr,
    /// The current deviation.
    DevCurr,
    /// The accumulated deviation.
    DevAccum,
    /// The deviation in parts per billion.
    Deviation,
    /// The new value of the first converter.
    DAC1,
    /// The new value of the second converter.
    DAC2,
}

/// What a telemetry message says, as a mathematical value.
pub enum Telemetry {
    /// The current frequency in hertz.
    Curr(u64),
    /// The current deviation in hertz, as its literal.
    DevCurr(Seq<u8>),
    /// The accumulated deviation in hertz, as its literal.
    DevAccum(Seq<u8>),
    /// The deviation in parts per billion, as its literal.
    Deviation(Seq<u8>),
    /// The new value of the first converter.
    DAC1(u32),
    /// The new value of the second converter.
    DAC2(u32),
}

/// One message of the device.
#[derive(Debug, PartialEq, Eq)]
pub enum CartainMessage {
    /// The current frequency in hertz.
    Curr(u64),
    /// The current deviation in hertz.
    DevCurr(Decimal),
    /// The accumulated deviation in hertz.
    DevAccum(Decimal),
    /// The deviation in parts per billion.
    Deviation(Decimal),
    /// The new value of the first converter.
    DAC1(u32),
    /// The new value of the second converter.
    DAC2(u32),
}

impl View for CartainMessage {
    type V = Telemetry;

    open spec fn view(&self) -> Telemetry {
        match self {
            CartainMessage::Curr(v) => Telemetry::Curr(*v),
            CartainMessage::DevCurr(d) => Telemetry::DevCurr(d@),
            CartainMessage::DevAccum(d) => Telemetry::DevAccum(d@),
            CartainMessage::Deviation(d) => Telemetry::Deviation(d@),
            CartainMessage::DAC1(v) => Telemetry::DAC1(*v),
            CartainMessage::DAC2(v) => Telemetry::DAC2(*v),
        }
    }
}

/// The kind of a message.
pub open spec fn kind_of(m: Telemetry) -> Kind {
    match m {
        Telemetry::Curr(_) => Kind::Curr,
        Telemetry::DevCurr(_) => Kind::DevCurr,
        Telemetry::DevAccum(_) => Kind::DevAccum,
        Telemetry::Deviation(_) => Kind::Deviation,
        Telemetry::DAC1(_) => Kind::DAC1,
        Telemetry::DAC2(_) => Kind::DAC2,
    }
}

impl Clone for CartainMessage {
    /// A second copy of the same message.
    fn clone(&self) -> (copy: CartainMessage)
        ensures
            copy@ == self@,
    {
        match self {
            CartainMessage::Curr(v) => CartainMessage::Curr(*v),
            CartainMessage::DevCurr(d) => CartainMessage::DevCurr(d.clone()),
            CartainMessage::DevAccum(d) => CartainMessage::DevAccum(d.clone()),
            CartainMessage::Deviation(d) => CartainMessage::Deviation(d.clone()),
            CartainMessage::DAC1(v) => CartainMessage::DAC1(*v),
            CartainMessage::DAC2(v) => CartainMessage::DAC2(*v),
        }
    }
}

/// The literal prefix by which a line of each kind is known.
pub open spec fn marker(kind: Kind) -> Seq<u8> {
    match kind {
        Kind::Curr => ascii("# Curr:"@),
        Kind::DevCurr => ascii("# Deviation current:"@),
        Kind::DevAccum => ascii("# Deviation accum:"@),
        Kind::DAC1 => ascii("# New DAC1 value"@),
        Kind::DAC2 => ascii("# New DAC2 value"@),
        Kind::Deviation => ascii("*"@),
    }
}

/// The unit behind a decimal value in hertz.
pub open spec fn hertz() -> Seq<u8> {
    ascii("Hz"@)
}

/// The unit behind a decimal value in parts per billion, with the blank that
/// stands in front of it.
pub open spec fn parts_per_billion() -> Seq<u8> {
    ascii(" ppb"@)
}

/// The kind of line that `line` is by its prefix, the markers being tried
/// in a fixed order; `None` where it begins with no marker.
pub open spec fn marked(line: Seq<u8>) -> Option<Kind> {
    if has_prefix(line, marker(Kind::Curr)) {
        Some(Kind::Curr)
    } else if has_prefix(line, marker(Kind::DevCurr)) {
        Some(Kind::DevCurr)
    } else if has_prefix(line, marker(Kind::DevAccum)) {
        Some(Kind::DevAccum)
    } else if has_prefix(line, marker(Kind::DAC1)) {
        Some(Kind::DAC1)
    } else if has_prefix(line, marker(Kind::DAC2)) {
        Some(Kind::DAC2)
    } else if has_prefix(line, marker(Kind::Deviation)) {
        Some(Kind::Deviation)
    } else {
        None
    }
}

/// What follows the last blank of `line`, if it has a blank.
pub open spec fn after_last_space(line: Seq<u8>) -> Option<Seq<u8>> {
    match last_index(line, SPACE) {
        Some(i) => Some(line.skip(i + 1)),
        None => None,
    }
}

/// What follows the first blank of `line`, if it has a blank.
pub open spec fn after_first_space(line: Seq<u8>) -> Option<Seq<u8>> {
    match first_index(line, SPACE) {
        Some(i) => Some(line.skip(i + 1)),
        None => None,
    }
}

/// The unsigned integer, no larger than `max`, that a payload holds.
pub open spec fn unsigned_field(payload: Option<Seq<u8>>, max: nat) -> Option<nat> {
    match payload {
        Some(p) => parse_unsigned(p, max),
        None => None,
    }
}

/// The decimal literal that a payload holds in front of its unit.
pub open spec fn decimal_field(payload: Option<Seq<u8>>, unit: Seq<u8>) -> Option<Seq<u8>> {
    match payload {
        Some(p) => {
            let number = p.take(p.len() - unit.len());
            if has_suffix(p, unit) && is_decimal_literal(number) {
                Some(number)
            } else {
                None
            }
        },
        None => None,
    }
}

/// The message that `line` carries, or `None` where it carries none: where
/// it begins with no marker, has no blank where one is due, lacks its unit,
/// or holds no number of the kind's type.
pub open spec fn classify(line: Seq<u8>) -> Option<Telemetry> {
    match marked(line) {
        Some(Kind::Curr) => match unsigned_field(after_last_space(line), u64::MAX as nat) {
            Some(v) => Some(Telemetry::Curr(v as u64)),
            None => None,
        },
        Some(Kind::DevCurr) => match decimal_field(after_last_space(line), hertz()) {
            Some(d) => Some(Telemetry::DevCurr(d)),
            None => None,
        },
        Some(Kind::DevAccum) => match decimal_field(after_last_space(line), hertz()) {
            Some(d) => Some(Telemetry::DevAccum(d)),
            None => None,
        },
        Some(Kind::DAC1) => match unsigned_field(after_last_space(line), u32::MAX as nat) {
            Some(v) => Some(Telemetry::DAC1(v as u32)),
            None => None,
        },
        Some(Kind::DAC2) => match unsigned_field(after_last_space(line), u32::MAX as nat) {
            Some(v) => Some(Telemetry::DAC2(v as u32)),
            None => None,
        },
        Some(Kind::Deviation) => match decimal_field(
            after_first_space(line),
            parts_per_billion(),
        ) {
            Some(d) => Some(Telemetry::Deviation(d)),
            None => None,
        },
        None => None,
    }
}

/// The decimal payloads of a message are real-number literals.
pub open spec fn well_formed(m: Telemetry) -> bool {
    match m {
        Telemetry::DevCurr(d) => is_decimal_literal(d),
        Telemetry::DevAccum(d) => is_decimal_literal(d),
        Telemetry::Deviation(d) => is_decimal_literal(d),
        _ => true,
    }
}

/// The line that says `m`, without a terminator.
pub open spec fn render(m: Telemetry) -> Seq<u8> {
    marker(kind_of(m)) + seq![SPACE] + match m {
        Telemetry::Curr(v) => decimal_digits(v as nat),
        Telemetry::DevCurr(d) => d + hertz(),
        Telemetry::DevAccum(d) => d + hertz(),
        Telemetry::Deviation(d) => d + parts_per_billion(),
        Telemetry::DAC1(v) => decimal_digits(v as nat),
        Telemetry::DAC2(v) => decimal_digits(v as nat),
    }
}

/// A line that differs from `p` at one position of `p` does not start with
/// `p`.
proof fn lemma_prefix_mismatch(line: Seq<u8>, p: Seq<u8>, i: int)
    requires
        0 <= i < p.len(),
        i < line.len() ==> line[i] != p[i],
    ensures
        !has_prefix(line, p),
{
    if p.len() <= line.len() {
        assert(line.take(p.len() as int)[i] == line[i]);
    }
}

/// A line that starts with `p` holds the bytes of `p` at its start.
proof fn lemma_prefix_bytes(line: Seq<u8>, p: Seq<u8>, i: int)
    requires
        has_prefix(line, p),
        0 <= i < p.len(),
    ensures
        i < line.len(),
        line[i] == p[i],
{
    assert(line.take(p.len() as int)[i] == line[i]);
}

/// **One marker at most.** A line begins with the marker of a kind exactly
/// when it is marked as that kind: no line begins with two markers, so the
/// order in which the markers are tried does not matter.
pub proof fn lemma_markers_disjoint(line: Seq<u8>, kind: Kind)
    ensures
        has_prefix(line, marker(kind)) <==> marked(line) == Some(kind),
{
    reveal_strlit("# Curr:");
    reveal_strlit("# Deviation current:");
    reveal_strlit("# Deviation accum:");
    reveal_strlit("# New DAC1 value");
    reveal_strlit("# New DAC2 value");
    reveal_strlit("*");
    if has_prefix(line, marker(kind)) {
        // The markers differ from one another at one of these positions.
        match kind {
            Kind::Curr => {},
            Kind::DevCurr => {
                lemma_prefix_bytes(line, marker(kind), 2);
                lemma_prefix_mismatch(line, marker(Kind::Curr), 2);
            },
            Kind::DevAccum => {
                lemma_prefix_bytes(line, marker(kind), 2);
                lemma_prefix_bytes(line, marker(kind), 12);
                lemma_prefix_mismatch(line, marker(Kind::Curr), 2);
                lemma_prefix_mismatch(line, marker(Kind::DevCurr), 12);
            },
            Kind::DAC1 => {
                lemma_prefix_bytes(line, marker(kind), 2);
                lemma_prefix_mismatch(line, marker(Kind::Curr), 2);
                lemma_prefix_mismatch(line, marker(Kind::DevCurr), 2);
                lemma_prefix_mismatch(line, marker(Kind::DevAccum), 2);
            },
            Kind::DAC2 => {
                lemma_prefix_bytes(line, marker(kind), 2);
                lemma_prefix_bytes(line, marker(kind), 9);
                lemma_prefix_mismatch(line, marker(Kind::Curr), 2);
                lemma_prefix_mismatch(line, marker(Kind::DevCurr), 2);
                lemma_prefix_mismatch(line, marker(Kind::DevAccum), 2);
                lemma_prefix_mismatch(line, marker(Kind::DAC1), 9);
            },
            Kind::Deviation => {
                lemma_prefix_bytes(line, marker(kind), 0);
                lemma_prefix_mismatch(line, marker(Kind::Curr), 0);
                lemma_prefix_mismatch(line, marker(Kind::DevCurr), 0);
                lemma_prefix_mismatch(line, marker(Kind::DevAccum), 0);
                lemma_prefix_mismatch(line, marker(Kind::DAC1), 0);
                lemma_prefix_mismatch(line, marker(Kind::DAC2), 0);
            },
        }
    }
}

/// In `head`, a blank, and a `payload` without blanks, the payload is what
/// follows the last blank.
proof fn lemma_last_token(head: Seq<u8>, payload: Seq<u8>)
    requires
        forall|i: int| 0 <= i < payload.len() ==> payload[i] != SPACE,
    ensures
        after_last_space(head + seq![SPACE] + payload) == Some(payload),
{
    let line = head + seq![SPACE] + payload;
    let k = head.len() as int;
    assert(line[k] == SPACE);
    assert forall|j: int| k < j < line.len() implies line[j] != SPACE by {
        assert(line[j] == payload[j - k - 1]);
    }
    assert(is_last(line, SPACE, k));
    lemma_last_index_unique(line, SPACE, k);
    assert(line.skip(k + 1) =~= payload);
}

/// The digits of a number hold no blank.
proof fn lemma_digits_are_solid(n: nat)
    ensures
        forall|i: int| 0 <= i < decimal_digits(n).len() ==> decimal_digits(n)[i] != SPACE,
{
    lemma_decimal_digits(n);
    assert forall|i: int| 0 <= i < decimal_digits(n).len() implies decimal_digits(n)[i]
        != SPACE by {
        assert(is_digit(decimal_digits(n)[i]));
    }
}

/// A decimal literal followed by the unit of hertz holds no blank.
proof fn lemma_decimal_is_solid(d: Seq<u8>)
    requires
        is_decimal_literal(d),
    ensures
        forall|i: int| 0 <= i < (d + hertz()).len() ==> (d + hertz())[i] != SPACE,
{
    reveal_strlit("Hz");
    lemma_literal_is_solid(d);
    assert forall|i: int| 0 <= i < (d + hertz()).len() implies (d + hertz())[i] != SPACE by {
        if i < d.len() {
            assert((d + hertz())[i] == d[i]);
        } else {
            assert((d + hertz())[i] == hertz()[i - d.len()]);
        }
    }
}

/// A decimal literal followed by its unit reads back as the literal.
proof fn lemma_decimal_field(d: Seq<u8>, unit: Seq<u8>)
    requires
        is_decimal_literal(d),
    ensures
        decimal_field(Some(d + unit), unit) == Some(d),
{
    let p = d + unit;
    assert(p.skip(p.len() - unit.len()) =~= unit);
    assert(p.take(p.len() - unit.len()) =~= d);
}

/// **Round trip.** The line written for a message classifies as that
/// message, whichever of the six kinds it is and whatever value it carries.
pub proof fn lemma_classify_render(m: Telemetry)
    requires
        well_formed(m),
    ensures
        classify(render(m)) == Some(m),
{
    let line = render(m);
    let head = marker(kind_of(m));
    assert(line.take(head.len() as int) =~= head);
    lemma_markers_disjoint(line, kind_of(m));
    match m {
        Telemetry::Curr(v) => {
            lemma_digits_are_solid(v as nat);
            lemma_last_token(head, decimal_digits(v as nat));
            lemma_parse_decimal_digits(v as nat, u64::MAX as nat);
        },
        Telemetry::DevCurr(d) => {
            lemma_decimal_is_solid(d);
            lemma_last_token(head, d + hertz());
            lemma_decimal_field(d, hertz());
        },
        Telemetry::DevAccum(d) => {
            lemma_decimal_is_solid(d);
            lemma_last_token(head, d + hertz());
            lemma_decimal_field(d, hertz());
        },
        Telemetry::DAC1(v) => {
            lemma_digits_are_solid(v as nat);
            lemma_last_token(head, decimal_digits(v as nat));
            lemma_parse_decimal_digits(v as nat, u32::MAX as nat);
        },
        Telemetry::DAC2(v) => {
            lemma_digits_are_solid(v as nat);
            lemma_last_token(head, decimal_digits(v as nat));
            lemma_parse_decimal_digits(v as nat, u32::MAX as nat);
        },
        Telemetry::Deviation(d) => {
            reveal_strlit("*");
            assert(line[0] != SPACE);
            assert(line[1] == SPACE);
            assert(is_first(line, SPACE, 1));
            lemma_first_index_unique(line, SPACE, 1);
            assert(line.skip(2) =~= d + parts_per_billion());
            lemma_decimal_field(d, parts_per_billion());
        },
    }
}

/// **Noise.** A line that begins with none of the six markers carries no
/// message.
pub proof fn lemma_unmarked_line(line: Seq<u8>)
    requires
        forall|kind: Kind| !has_prefix(line, #[trigger] marker(kind)),
    ensures
        classify(line) is None,
{
    assert(!has_prefix(line, marker(Kind::Curr)));
    assert(!has_prefix(line, marker(Kind::DevCurr)));
    assert(!has_prefix(line, marker(Kind::DevAccum)));
    assert(!has_prefix(line, marker(Kind::DAC1)));
    assert(!has_prefix(line, marker(Kind::DAC2)));
    assert(!has_prefix(line, marker(Kind::Deviation)));
}

/// The marker of `kind`, as bytes.
fn marker_bytes(kind: Kind) -> (bytes: &'static [u8])
    ensures
        bytes@ == marker(kind),
{
    proof {
        reveal_strlit("# Curr:");
        reveal_strlit("# Deviation current:");
        reveal_strlit("# Deviation accum:");
        reveal_strlit("# New DAC1 value");
        reveal_strlit("# New DAC2 value");
        reveal_strlit("*");
    }
    match kind {
        Kind::Curr => literal("# Curr:"),
        Kind::DevCurr => literal("# Deviation current:"),
        Kind::DevAccum => literal("# Deviation accum:"),
        Kind::DAC1 => literal("# New DAC1 value"),
        Kind::DAC2 => literal("# New DAC2 value"),
        Kind::Deviation => literal("*"),
    }
}

/// The unit of hertz, as bytes.
fn hertz_bytes() -> (bytes: &'static [u8])
    ensures
        bytes@ == hertz(),
{
    proof {
        reveal_strlit("Hz");
    }
    literal("Hz")
}

/// The unit of parts per billion, as bytes.
fn parts_per_billion_bytes() -> (bytes: &'static [u8])
    ensures
        bytes@ == parts_per_billion(),
{
    proof {
        reveal_strlit(" ppb");
    }
    literal(" ppb")
}

/// Finds the kind of line that `line` is by its prefix.
fn find_marker(line: &[u8]) -> (r: Option<Kind>)
    ensures
        r == marked(line@),
{
    if starts_with(line, marker_bytes(Kind::Curr)) {
        Some(Kind::Curr)
    } else if starts_with(line, marker_bytes(Kind::DevCurr)) {
        Some(Kind::DevCurr)
    } else if starts_with(line, marker_bytes(Kind::DevAccum)) {
        Some(Kind::DevAccum)
    } else if starts_with(line, marker_bytes(Kind::DAC1)) {
        Some(Kind::DAC1)
    } else if starts_with(line, marker_bytes(Kind::DAC2)) {
        Some(Kind::DAC2)
    } else if starts_with(line, marker_bytes(Kind::Deviation)) {
        Some(Kind::Deviation)
    } else {
        None
    }
}

/// The part of `line` behind its last blank.
fn last_token(line: &[u8]) -> (r: Option<&[u8]>)
    ensures
        match r {
            Some(p) => after_last_space(line@) == Some(p@),
            None => after_last_space(line@) is None,
        },
{
    let end: usize = line.len();
    match find_last(line, SPACE) {
        Some(i) => Some(slice_subrange(line, i + 1, end)),
        None => None,
    }
}

/// The part of `line` behind its first blank.
fn rest_after_first_token(line: &[u8]) -> (r: Option<&[u8]>)
    ensures
        match r {
            Some(p) => after_first_space(line@) == Some(p@),
            None => after_first_space(line@) is None,
        },
{
    let end: usize = line.len();
    match find_first(line, SPACE) {
        Some(i) => Some(slice_subrange(line, i + 1, end)),
        None => None,
    }
}

/// The bytes of a payload, if there is one.
pub open spec fn payload_bytes(payload: Option<&[u8]>) -> Option<Seq<u8>> {
    match payload {
        Some(p) => Some(p@),
        None => None,
    }
}

/// Reads a payload as a decimal literal followed by `unit`.
fn read_decimal(payload: Option<&[u8]>, unit: &[u8]) -> (r: Option<Decimal>)
    ensures
        match r {
            Some(d) => decimal_field(payload_bytes(payload), unit@) == Some(d@),
            None => decimal_field(payload_bytes(payload), unit@) is None,
        },
{
    match payload {
        Some(p) => {
            if ends_with(p, unit) {
                Decimal::parse(slice_subrange(p, 0, p.len() - unit.len()))
            } else {
                None
            }
        },
        None => None,
    }
}

/// Reads a payload as a 64-bit unsigned integer.
fn read_u64(payload: Option<&[u8]>) -> (r: Option<u64>)
    ensures
        match r {
            Some(v) => unsigned_field(payload_bytes(payload), u64::MAX as nat) == Some(v as nat),
            None => unsigned_field(payload_bytes(payload), u64::MAX as nat) is None,
        },
{
    match payload {
        Some(p) => parse_u64(p),
        None => None,
    }
}

/// Reads a payload as a 32-bit unsigned integer.
fn read_u32(payload: Option<&[u8]>) -> (r: Option<u32>)
    ensures
        match r {
            Some(v) => unsigned_field(payload_bytes(payload), u32::MAX as nat) == Some(v as nat),
            None => unsigned_field(payload_bytes(payload), u32::MAX as nat) is None,
        },
{
    match payload {
        Some(p) => parse_u32(p),
        None => None,
    }
}

impl CartainMessage {
    /// The kind of this message.
    pub fn kind(&self) -> (kind: Kind)
        ensures
            kind == kind_of(self@),
    {
        match self {
            CartainMessage::Curr(_) => Kind::Curr,
            CartainMessage::DevCurr(_) => Kind::DevCurr,
            CartainMessage::DevAccum(_) => Kind::DevAccum,
            CartainMessage::Deviation(_) => Kind::Deviation,
            CartainMessage::DAC1(_) => Kind::DAC1,
            CartainMessage::DAC2(_) => Kind::DAC2,
        }
    }

    /// Classifies one line, given as its bytes.
    pub fn from_bytes(line: &[u8]) -> (r: Option<CartainMessage>)
        ensures
            match r {
                Some(m) => classify(line@) == Some(m@),
                None => classify(line@) is None,
            },
    {
        match find_marker(line) {
            Some(Kind::Curr) => match read_u64(last_token(line)) {
                Some(v) => Some(CartainMessage::Curr(v)),
                None => None,
            },
            Some(Kind::DevCurr) => match read_decimal(last_token(line), hertz_bytes()) {
                Some(d) => Some(CartainMessage::DevCurr(d)),
                None => None,
            },
            Some(Kind::DevAccum) => match read_decimal(last_token(line), hertz_bytes()) {
                Some(d) => Some(CartainMessage::DevAccum(d)),
                None => None,
            },
            Some(Kind::DAC1) => match read_u32(last_token(line)) {
                Some(v) => Some(CartainMessage::DAC1(v)),
                None => None,
            },
            Some(Kind::DAC2) => match read_u32(last_token(line)) {
                Some(v) => Some(CartainMessage::DAC2(v)),
                None => None,
            },
            Some(Kind::Deviation) => match read_decimal(
                rest_after_first_token(line),
                parts_per_billion_bytes(),
            ) {
                Some(d) => Some(CartainMessage::Deviation(d)),
                None => None,
            },
            None => None,
        }
    }

    /// Classifies one line of text.
    pub fn from_str(line: &str) -> (r: Option<CartainMessage>)
        ensures
            match r {
                Some(m) => classify(line.spec_bytes()) == Some(m@),
                None => classify(line.spec_bytes()) is None,
            },
    {
        CartainMessage::from_bytes(line.as_bytes())
    }

    /// Writes the line that says this message, without a terminator.
    pub fn to_line(&self) -> (line: Vec<u8>)
        ensures
            line@ == render(self@),
            well_formed(self@),
    {
        let mut line: Vec<u8> = Vec::new();
        append(&mut line, marker_bytes(self.kind()));
        line.push(SPACE);
        match self {
            CartainMessage::Curr(v) => {
                push_decimal(&mut line, *v);
            },
            CartainMessage::DevCurr(d) => {
                append(&mut line, d.as_bytes());
                append(&mut line, hertz_bytes());
            },
            CartainMessage::DevAccum(d) => {
                append(&mut line, d.as_bytes());
                append(&mut line, hertz_bytes());
            },
            CartainMessage::Deviation(d) => {
                append(&mut line, d.as_bytes());
                append(&mut line, parts_per_billion_bytes());
            },
            CartainMessage::DAC1(v) => {
                push_decimal(&mut line, *v as u64);
            },
            CartainMessage::DAC2(v) => {
                push_decimal(&mut line, *v as u64);
            },
        }
        assert(line@ =~= render(self@));
        line
    }
}

} // verus!
