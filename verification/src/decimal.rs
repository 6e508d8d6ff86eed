//! Decimal readings.
//!
//! The device reports deviations as decimal numbers such as `0.5` or `-1.25`.
//! A reading is kept as the literal the device sent, once it is known to be
//! in the grammar of real-number literals:
//!
//! ```text
//! Literal  ::= Sign? ( 'inf' | 'infinity' | 'nan' | Number )
//! Number   ::= ( Digit+ | Digit+ '.' Digit* | Digit* '.' Digit+ ) Exponent?
//! Exponent ::= 'e' Sign? Digit+
//! Sign     ::= [+-]
//! Digit    ::= [0-9]
//! ```
//!
//! Letters are matched without regard to case. This is the grammar that
//! Rust's conversion from text to a binary floating-point number accepts, so
//! a presentation layer can convert every reading without a failure path.

use vstd::prelude::*;
use vstd::slice::slice_to_vec;
use crate::number::{all_digits, is_digit, NINE, PLUS, ZERO};
use crate::text::{ascii, literal, CARRIAGE_RETURN, NEWLINE, SPACE};

verus! {

/// The minus sign.
pub const MINUS: u8 = 0x2D;

/// The decimal point.
pub const POINT: u8 = 0x2E;

/// The letter `e` that opens an exponent.
pub const LOWER_E: u8 = 0x65;

/// The letter `E`.
pub const UPPER_E: u8 = 0x45;

/// The first upper-case letter.
pub const UPPER_A: u8 = 0x41;

/// The last upper-case letter.
pub const UPPER_Z: u8 = 0x5A;

/// What is added to an upper-case letter to make it lower case.
pub const CASE_SHIFT: u8 = 0x20;

/// `b` is `+` or `-`.
pub open spec fn is_sign(b: u8) -> bool {
    b == PLUS || b == MINUS
}

/// `b` with an upper-case ASCII letter turned to lower case.
pub open spec fn lower(b: u8) -> u8 {
    if UPPER_A <= b <= UPPER_Z {
        (b + CASE_SHIFT) as u8
    } else {
        b
    }
}

/// `s` spells the lower-case word `word`, in any mix of cases.
pub open spec fn spells(s: Seq<u8>, word: Seq<u8>) -> bool {
    s.len() == word.len() && forall|i: int| 0 <= i < s.len() ==> lower(s[i]) == word[i]
}

/// `s` is one of the three words for a value that is not a finite number.
pub open spec fn is_special(s: Seq<u8>) -> bool {
    spells(s, ascii("inf"@)) || spells(s, ascii("infinity"@)) || spells(s, ascii("nan"@))
}

/// `s` is digits with at most one decimal point among them, and at least one
/// digit.
pub open spec fn is_mantissa(s: Seq<u8>) -> bool {
    ||| s.len() > 0 && all_digits(s)
    ||| exists|d: int|
        0 <= d < s.len() && s[d] == POINT && all_digits(s.take(d)) && all_digits(s.skip(d + 1))
            && s.len() > 1
}

/// `s` is an exponent: `e`, an optional sign, and at least one digit.
pub open spec fn is_exponent(s: Seq<u8>) -> bool {
    s.len() >= 2 && lower(s[0]) == LOWER_E && {
        let digits = if is_sign(s[1]) {
            s.skip(2)
        } else {
            s.skip(1)
        };
        digits.len() > 0 && all_digits(digits)
    }
}

/// `s` is a mantissa, optionally followed by an exponent.
pub open spec fn is_number(s: Seq<u8>) -> bool {
    exists|k: int|
        0 <= k <= s.len() && is_mantissa(s.take(k)) && (k == s.len() || is_exponent(s.skip(k)))
}

/// The literal without its optional sign.
pub open spec fn unsigned_part(s: Seq<u8>) -> Seq<u8> {
    if s.len() > 0 && is_sign(s[0]) {
        s.skip(1)
    } else {
        s
    }
}

/// `s` is a real-number literal.
pub open spec fn is_decimal_literal(s: Seq<u8>) -> bool {
    is_special(unsigned_part(s)) || is_number(unsigned_part(s))
}

/// No byte of a real-number literal is a blank or a line feed: each is a
/// digit, a sign, a decimal point or a letter.
pub proof fn lemma_literal_is_solid(s: Seq<u8>)
    requires
        is_decimal_literal(s),
    ensures
        forall|i: int|
            0 <= i < s.len() ==> s[i] != SPACE && s[i] != NEWLINE && s[i] != CARRIAGE_RETURN,
{
    reveal_strlit("inf");
    reveal_strlit("infinity");
    reveal_strlit("nan");
    let body = unsigned_part(s);
    let shift = s.len() - body.len();
    assert forall|i: int| 0 <= i < body.len() implies body[i] != SPACE && body[i] != NEWLINE
        && body[i] != CARRIAGE_RETURN by {
        if spells(body, ascii("inf"@)) {
            assert(lower(body[i]) == ascii("inf"@)[i]);
        } else if spells(body, ascii("infinity"@)) {
            assert(lower(body[i]) == ascii("infinity"@)[i]);
        } else if spells(body, ascii("nan"@)) {
            assert(lower(body[i]) == ascii("nan"@)[i]);
        } else {
            let k = choose|k: int|
                0 <= k <= body.len() && is_mantissa(body.take(k)) && (k == body.len()
                    || is_exponent(body.skip(k)));
            let m = body.take(k);
            if i < k {
                assert(m[i] == body[i]);
                if m.len() > 0 && all_digits(m) {
                    assert(is_digit(m[i]));
                } else {
                    let d = choose|d: int|
                        0 <= d < m.len() && m[d] == POINT && all_digits(m.take(d)) && all_digits(
                            m.skip(d + 1),
                        ) && m.len() > 1;
                    if i < d {
                        assert(m.take(d)[i] == m[i]);
                        assert(is_digit(m.take(d)[i]));
                    } else if i > d {
                        assert(m.skip(d + 1)[i - d - 1] == m[i]);
                        assert(is_digit(m.skip(d + 1)[i - d - 1]));
                    }
                }
            } else {
                let e = body.skip(k);
                assert(e[i - k] == body[i]);
                if i - k >= 1 {
                    if is_sign(e[1]) {
                        if i - k >= 2 {
                            assert(e.skip(2)[i - k - 2] == e[i - k]);
                            assert(is_digit(e.skip(2)[i - k - 2]));
                        }
                    } else {
                        assert(e.skip(1)[i - k - 1] == e[i - k]);
                        assert(is_digit(e.skip(1)[i - k - 1]));
                    }
                }
            }
        }
    }
    assert forall|i: int| 0 <= i < s.len() implies s[i] != SPACE && s[i] != NEWLINE && s[i]
        != CARRIAGE_RETURN by {
        if i >= shift {
            assert(body[i - shift] == s[i]);
        }
    }
}

/// `e` is where the run of digits that starts at `from` ends.
pub open spec fn ends_digit_run(s: Seq<u8>, from: int, e: int) -> bool {
    &&& from <= e <= s.len()
    &&& forall|j: int| from <= j < e ==> is_digit(#[trigger] s[j])
    &&& e < s.len() ==> !is_digit(s[e])
}

/// What a left-to-right scan of a number finds: the end of the integer
/// digits, then the end of the mantissa, then whether the rest is an
/// exponent.
spec fn scans_as_number(s: Seq<u8>, int_end: int, mantissa_end: int) -> bool {
    &&& ends_digit_run(s, 0, int_end)
    &&& if int_end < s.len() && s[int_end] == POINT {
        ends_digit_run(s, int_end + 1, mantissa_end) && mantissa_end > 1
    } else {
        mantissa_end == int_end && int_end > 0
    }
    &&& mantissa_end == s.len() || is_exponent(s.skip(mantissa_end))
}

/// A scan that succeeds has found a number.
proof fn lemma_scan_sound(s: Seq<u8>, int_end: int, mantissa_end: int)
    requires
        scans_as_number(s, int_end, mantissa_end),
    ensures
        is_number(s),
{
    let m = s.take(mantissa_end);
    if int_end < s.len() && s[int_end] == POINT {
        assert(m[int_end] == POINT);
        assert forall|j: int| 0 <= j < m.take(int_end).len() implies is_digit(
            #[trigger] m.take(int_end)[j],
        ) by {
            assert(m.take(int_end)[j] == s[j]);
        }
        assert forall|j: int| 0 <= j < m.skip(int_end + 1).len() implies is_digit(
            #[trigger] m.skip(int_end + 1)[j],
        ) by {
            assert(m.skip(int_end + 1)[j] == s[int_end + 1 + j]);
        }
        assert(is_mantissa(m));
    } else {
        assert forall|j: int| 0 <= j < m.len() implies is_digit(#[trigger] m[j]) by {
            assert(m[j] == s[j]);
        }
        assert(is_mantissa(m));
    }
}

/// The byte that opens an exponent is neither a digit nor a decimal point.
proof fn lemma_exponent_start(b: u8)
    requires
        lower(b) == LOWER_E,
    ensures
        !is_digit(b),
        b != POINT,
{
}

/// Where a text is a number, the scan finds it, at the positions that the
/// scan goes by.
proof fn lemma_scan_complete(s: Seq<u8>, int_end: int, mantissa_end: int)
    requires
        is_number(s),
        ends_digit_run(s, 0, int_end),
        int_end < s.len() && s[int_end] == POINT ==> ends_digit_run(s, int_end + 1, mantissa_end),
        !(int_end < s.len() && s[int_end] == POINT) ==> mantissa_end == int_end,
    ensures
        scans_as_number(s, int_end, mantissa_end),
{
    let k = choose|k: int|
        0 <= k <= s.len() && is_mantissa(s.take(k)) && (k == s.len() || is_exponent(s.skip(k)));
    let m = s.take(k);
    if k < s.len() {
        assert(s.skip(k)[0] == s[k]);
        lemma_exponent_start(s[k]);
    }
    if m.len() > 0 && all_digits(m) {
        // No decimal point: the integer digits run up to `k`.
        assert forall|j: int| 0 <= j < k implies is_digit(#[trigger] s[j]) by {
            assert(m[j] == s[j]);
        }
        if int_end < k {
            assert(is_digit(s[int_end]));
        }
        if k < int_end {
            assert(is_digit(s[k]));
        }
        assert(int_end == k);
    } else {
        let d = choose|d: int|
            0 <= d < m.len() && m[d] == POINT && all_digits(m.take(d)) && all_digits(
                m.skip(d + 1),
            ) && m.len() > 1;
        assert(s[d] == m[d]);
        assert forall|j: int| 0 <= j < d implies is_digit(#[trigger] s[j]) by {
            assert(m.take(d)[j] == s[j]);
        }
        if int_end < d {
            assert(is_digit(s[int_end]));
        }
        if d < int_end {
            assert(is_digit(s[d]));
        }
        assert(int_end == d);
        assert forall|j: int| d + 1 <= j < k implies is_digit(#[trigger] s[j]) by {
            assert(m.skip(d + 1)[j - d - 1] == s[j]);
        }
        if mantissa_end < k {
            assert(is_digit(s[mantissa_end]));
        }
        if k < mantissa_end {
            assert(is_digit(s[k]));
        }
        assert(mantissa_end == k);
    }
}

/// Tells whether `s`, from position `from` on, spells `word`.
fn spells_from(s: &[u8], from: usize, word: &[u8]) -> (r: bool)
    requires
        from <= s@.len(),
    ensures
        r == spells(s@.skip(from as int), word@),
{
    if s.len() - from != word.len() {
        return false;
    }
    let ghost tail = s@.skip(from as int);
    let mut i: usize = 0;
    while i < word.len()
        invariant
            from <= s.len(),
            s.len() - from == word.len(),
            tail == s@.skip(from as int),
            i <= word.len(),
            forall|j: int| 0 <= j < i ==> lower(tail[j]) == word@[j],
        decreases word.len() - i,
    {
        let b: u8 = s[from + i];
        assert(tail[i as int] == b);
        let folded: u8 = if UPPER_A <= b && b <= UPPER_Z {
            b + CASE_SHIFT
        } else {
            b
        };
        if folded != word[i] {
            return false;
        }
        i += 1;
    }
    true
}

/// Finds where the run of digits that starts at `from` ends.
fn skip_digits(s: &[u8], from: usize) -> (e: usize)
    requires
        from <= s@.len(),
    ensures
        ends_digit_run(s@, from as int, e as int),
{
    let mut e: usize = from;
    while e < s.len() && ZERO <= s[e] && s[e] <= NINE
        invariant
            from <= e <= s.len(),
            forall|j: int| from <= j < e ==> is_digit(#[trigger] s@[j]),
        decreases s.len() - e,
    {
        e += 1;
    }
    e
}

/// Tells whether `s`, from position `from` on, is an exponent.
fn exponent_from(s: &[u8], from: usize) -> (r: bool)
    requires
        from <= s@.len(),
    ensures
        r == is_exponent(s@.skip(from as int)),
{
    let ghost tail = s@.skip(from as int);
    if s.len() - from < 2 {
        return false;
    }
    let marker: u8 = s[from];
    assert(tail[0] == marker);
    assert(tail[1] == s@[from + 1]);
    if marker != LOWER_E && marker != UPPER_E {
        return false;
    }
    let sign: u8 = s[from + 1];
    let start: usize = if sign == PLUS || sign == MINUS {
        from + 2
    } else {
        from + 1
    };
    let ghost digits = s@.skip(start as int);
    assert(digits =~= if is_sign(tail[1]) {
        tail.skip(2)
    } else {
        tail.skip(1)
    });
    let e: usize = skip_digits(s, start);
    proof {
        if e == s.len() {
            assert forall|j: int| 0 <= j < digits.len() implies is_digit(#[trigger] digits[j]) by {
                assert(digits[j] == s@[start + j]);
            }
        } else {
            assert(digits[e - start] == s@[e as int]);
        }
    }
    e == s.len() && e > start
}

/// Tells whether `s`, from position `from` on, is a number.
fn number_from(s: &[u8], from: usize) -> (r: bool)
    requires
        from <= s@.len(),
    ensures
        r == is_number(s@.skip(from as int)),
{
    let ghost tail = s@.skip(from as int);
    let int_end: usize = skip_digits(s, from);
    let dotted: bool = int_end < s.len() && s[int_end] == POINT;
    let mantissa_end: usize = if dotted {
        skip_digits(s, int_end + 1)
    } else {
        int_end
    };
    let enough: bool = if dotted {
        mantissa_end - from > 1
    } else {
        int_end > from
    };
    let closed: bool = mantissa_end == s.len() || exponent_from(s, mantissa_end);
    proof {
        let ie = int_end - from;
        let me = mantissa_end - from;
        assert(ends_digit_run(tail, 0, ie)) by {
            assert forall|j: int| 0 <= j < ie implies is_digit(#[trigger] tail[j]) by {
                assert(tail[j] == s@[from + j]);
            }
            if ie < tail.len() {
                assert(tail[ie] == s@[int_end as int]);
            }
        }
        if dotted {
            assert(tail[ie] == POINT);
            assert(ends_digit_run(tail, ie + 1, me)) by {
                assert forall|j: int| ie + 1 <= j < me implies is_digit(#[trigger] tail[j]) by {
                    assert(tail[j] == s@[from + j]);
                }
                if me < tail.len() {
                    assert(tail[me] == s@[mantissa_end as int]);
                }
            }
        } else if ie < tail.len() {
            assert(tail[ie] == s@[int_end as int]);
        }
        assert(tail.skip(me) =~= s@.skip(mantissa_end as int));
        if enough && closed {
            assert(scans_as_number(tail, ie, me));
            lemma_scan_sound(tail, ie, me);
        } else if is_number(tail) {
            lemma_scan_complete(tail, ie, me);
        }
    }
    enough && closed
}

/// A decimal reading: the literal that the device sent, known to be a
/// real-number literal.
#[derive(Debug, PartialEq, Eq)]
pub struct Decimal {
    text: Vec<u8>,
}

impl View for Decimal {
    type V = Seq<u8>;

    /// The bytes of the literal.
    closed spec fn view(&self) -> Seq<u8> {
        self.text@
    }
}

impl Decimal {
    #[verifier::type_invariant]
    spec fn well_formed(&self) -> bool {
        is_decimal_literal(self.text@)
    }

    /// Keeps `s` as a reading where it is a real-number literal.
    pub fn parse(s: &[u8]) -> (r: Option<Decimal>)
        ensures
            match r {
                Some(d) => d@ == s@ && is_decimal_literal(s@),
                None => !is_decimal_literal(s@),
            },
    {
        if is_decimal(s) {
            Some(Decimal { text: slice_to_vec(s) })
        } else {
            None
        }
    }

    /// The literal, which is always in the grammar.
    pub fn as_bytes(&self) -> (bytes: &[u8])
        ensures
            bytes@ == self@,
            is_decimal_literal(bytes@),
    {
        proof {
            use_type_invariant(self);
        }
        self.text.as_slice()
    }
}

impl Clone for Decimal {
    /// A second copy of the same literal.
    fn clone(&self) -> (copy: Decimal)
        ensures
            copy@ == self@,
    {
        proof {
            use_type_invariant(self);
        }
        Decimal { text: slice_to_vec(self.text.as_slice()) }
    }
}

/// Tells whether `s` is a real-number literal.
pub fn is_decimal(s: &[u8]) -> (r: bool)
    ensures
        r == is_decimal_literal(s@),
{
    let from: usize = if s.len() > 0 && (s[0] == PLUS || s[0] == MINUS) {
        1
    } else {
        0
    };
    assert(unsigned_part(s@) =~= s@.skip(from as int));
    proof {
        reveal_strlit("inf");
        reveal_strlit("infinity");
        reveal_strlit("nan");
    }
    spells_from(s, from, literal("inf")) || spells_from(s, from, literal("infinity"))
        || spells_from(s, from, literal("nan")) || number_from(s, from)
}

} // verus!
