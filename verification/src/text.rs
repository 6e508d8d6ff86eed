//! Byte-level text primitives: prefixes, suffixes and searching for a byte.
//!
//! Every device line is ASCII in practice, and all the markers the decoder
//! looks for are ASCII, so the decoder works on bytes throughout.

use vstd::prelude::*;
use vstd::string::is_ascii_spec_bytes;

verus! {

/// Line feed, the record terminator.
pub const NEWLINE: u8 = 0x0A;

/// Carriage return, tolerated in front of a line feed.
pub const CARRIAGE_RETURN: u8 = 0x0D;

/// The blank that separates the tokens of a line.
pub const SPACE: u8 = 0x20;

/// The bytes of an ASCII text, one byte per character.
pub open spec fn ascii(text: Seq<char>) -> Seq<u8> {
    Seq::new(text.len(), |i: int| text[i] as u8)
}

/// `s` starts with `p`.
pub open spec fn has_prefix(s: Seq<u8>, p: Seq<u8>) -> bool {
    p.len() <= s.len() && s.take(p.len() as int) == p
}

/// `s` ends with `p`.
pub open spec fn has_suffix(s: Seq<u8>, p: Seq<u8>) -> bool {
    p.len() <= s.len() && s.skip(s.len() - p.len()) == p
}

/// `i` is the position of the first `b` in `s`.
pub open spec fn is_first(s: Seq<u8>, b: u8, i: int) -> bool {
    &&& 0 <= i < s.len()
    &&& s[i] == b
    &&& forall|j: int| 0 <= j < i ==> s[j] != b
}

/// `i` is the position of the last `b` in `s`.
pub open spec fn is_last(s: Seq<u8>, b: u8, i: int) -> bool {
    &&& 0 <= i < s.len()
    &&& s[i] == b
    &&& forall|j: int| i < j < s.len() ==> s[j] != b
}

/// The position of the first `b` in `s`, if `b` occurs at all.
pub open spec fn first_index(s: Seq<u8>, b: u8) -> Option<int> {
    if s.contains(b) {
        Some(choose|i: int| is_first(s, b, i))
    } else {
        None
    }
}

/// The position of the last `b` in `s`, if `b` occurs at all.
pub open spec fn last_index(s: Seq<u8>, b: u8) -> Option<int> {
    if s.contains(b) {
        Some(choose|i: int| is_last(s, b, i))
    } else {
        None
    }
}

/// A position that is first is the one `first_index` names.
pub proof fn lemma_first_index_unique(s: Seq<u8>, b: u8, i: int)
    requires
        is_first(s, b, i),
    ensures
        first_index(s, b) == Some(i),
{
    assert(s.contains(b));
    let c = choose|c: int| is_first(s, b, c);
    assert(is_first(s, b, c));
    if c < i {
        assert(s[c] != b);
    } else if i < c {
        assert(s[i] != b);
    }
}

/// A position that is last is the one `last_index` names.
pub proof fn lemma_last_index_unique(s: Seq<u8>, b: u8, i: int)
    requires
        is_last(s, b, i),
    ensures
        last_index(s, b) == Some(i),
{
    assert(s.contains(b));
    let c = choose|c: int| is_last(s, b, c);
    assert(is_last(s, b, c));
    if c < i {
        assert(s[i] != b);
    } else if i < c {
        assert(s[c] != b);
    }
}

/// What `first_index` returns is a first position, and `None` only where the
/// byte is absent.
pub proof fn lemma_first_index(s: Seq<u8>, b: u8)
    ensures
        match first_index(s, b) {
            Some(i) => is_first(s, b, i),
            None => forall|j: int| 0 <= j < s.len() ==> s[j] != b,
        },
    decreases s.len(),
{
    if s.contains(b) {
        let w = choose|w: int| 0 <= w < s.len() && s[w] == b;
        let t = s.take(w);
        lemma_first_index(t, b);
        match first_index(t, b) {
            Some(i) => {
                assert(s[i] == t[i]);
                assert forall|j: int| 0 <= j < i implies s[j] != b by {
                    assert(s[j] == t[j]);
                }
                assert(is_first(s, b, i));
            },
            None => {
                assert forall|j: int| 0 <= j < w implies s[j] != b by {
                    assert(s[j] == t[j]);
                }
                assert(is_first(s, b, w));
            },
        }
    }
}

/// What `last_index` returns is a last position, and `None` only where the
/// byte is absent.
pub proof fn lemma_last_index(s: Seq<u8>, b: u8)
    ensures
        match last_index(s, b) {
            Some(i) => is_last(s, b, i),
            None => forall|j: int| 0 <= j < s.len() ==> s[j] != b,
        },
    decreases s.len(),
{
    if s.contains(b) {
        let w = choose|w: int| 0 <= w < s.len() && s[w] == b;
        let t = s.skip(w + 1);
        lemma_last_index(t, b);
        match last_index(t, b) {
            Some(i) => {
                assert(s[w + 1 + i] == t[i]);
                assert forall|j: int| w + 1 + i < j < s.len() implies s[j] != b by {
                    assert(s[j] == t[j - w - 1]);
                }
                assert(is_last(s, b, w + 1 + i));
            },
            None => {
                assert forall|j: int| w < j < s.len() implies s[j] != b by {
                    assert(s[j] == t[j - w - 1]);
                }
                assert(is_last(s, b, w));
            },
        }
    }
}

/// The bytes of an ASCII string literal.
pub fn literal<'a>(text: &'a str) -> (bytes: &'a [u8])
    requires
        text.is_ascii(),
    ensures
        bytes@ == ascii(text@),
{
    broadcast use is_ascii_spec_bytes;

    text.as_bytes()
}

/// Tells whether `s` starts with `p`.
pub fn starts_with(s: &[u8], p: &[u8]) -> (r: bool)
    ensures
        r == has_prefix(s@, p@),
{
    if p.len() > s.len() {
        return false;
    }
    let mut i: usize = 0;
    while i < p.len()
        invariant
            i <= p.len() <= s.len(),
            forall|j: int| 0 <= j < i ==> s@[j] == p@[j],
        decreases p.len() - i,
    {
        if s[i] != p[i] {
            assert(s@.take(p@.len() as int)[i as int] != p@[i as int]);
            return false;
        }
        i += 1;
    }
    assert(s@.take(p@.len() as int) =~= p@);
    true
}

/// Tells whether `s` ends with `p`.
pub fn ends_with(s: &[u8], p: &[u8]) -> (r: bool)
    ensures
        r == has_suffix(s@, p@),
{
    if p.len() > s.len() {
        return false;
    }
    let shift: usize = s.len() - p.len();
    let mut i: usize = 0;
    while i < p.len()
        invariant
            i <= p.len() <= s.len(),
            shift == s.len() - p.len(),
            forall|j: int| 0 <= j < i ==> s@[shift + j] == p@[j],
        decreases p.len() - i,
    {
        if s[shift + i] != p[i] {
            assert(s@.skip(s@.len() - p@.len())[i as int] != p@[i as int]);
            return false;
        }
        i += 1;
    }
    assert(s@.skip(s@.len() - p@.len()) =~= p@);
    true
}

/// Finds the first `b` in `s` at or after position `from`.
pub fn find_from(s: &[u8], from: usize, b: u8) -> (r: Option<usize>)
    requires
        from <= s@.len(),
    ensures
        match r {
            Some(i) => from <= i < s@.len() && first_index(s@.skip(from as int), b) == Some(
                i - from,
            ),
            None => first_index(s@.skip(from as int), b) is None,
        },
{
    let ghost tail = s@.skip(from as int);
    let mut i: usize = from;
    while i < s.len()
        invariant
            from <= i <= s.len(),
            tail == s@.skip(from as int),
            forall|j: int| from <= j < i ==> s@[j] != b,
        decreases s.len() - i,
    {
        if s[i] == b {
            proof {
                assert forall|j: int| 0 <= j < i - from implies tail[j] != b by {
                    assert(tail[j] == s@[from + j]);
                }
                assert(tail[i - from] == s@[i as int]);
                lemma_first_index_unique(tail, b, i - from);
            }
            return Some(i);
        }
        i += 1;
    }
    proof {
        assert forall|j: int| 0 <= j < tail.len() implies tail[j] != b by {
            assert(tail[j] == s@[from + j]);
        }
    }
    None
}

/// Finds the first `b` in `s`.
pub fn find_first(s: &[u8], b: u8) -> (r: Option<usize>)
    ensures
        match r {
            Some(i) => i < s@.len() && first_index(s@, b) == Some(i as int),
            None => first_index(s@, b) is None,
        },
{
    assert(s@.skip(0) =~= s@);
    find_from(s, 0, b)
}

/// Finds the last `b` in `s`.
pub fn find_last(s: &[u8], b: u8) -> (r: Option<usize>)
    ensures
        match r {
            Some(i) => i < s@.len() && last_index(s@, b) == Some(i as int),
            None => last_index(s@, b) is None,
        },
{
    let mut i: usize = s.len();
    while i > 0
        invariant
            i <= s.len(),
            forall|j: int| i <= j < s.len() ==> s@[j] != b,
        decreases i,
    {
        i -= 1;
        if s[i] == b {
            proof {
                lemma_last_index_unique(s@, b, i as int);
            }
            return Some(i);
        }
    }
    None
}

/// Appends `bytes` to `out`.
pub fn append(out: &mut Vec<u8>, bytes: &[u8])
    ensures
        final(out)@ == old(out)@ + bytes@,
{
    out.extend_from_slice(bytes);
    assert(out@ =~= old(out)@ + bytes@);
}

} // verus!
