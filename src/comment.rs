use vstd::prelude::*;
use vstd::string::StringSliceAdditionalSpecFns;
use crate::text::{leading_ws, skip_ws, skip_ws_back, text_of, lossy_text, trim};

verus! {

/// Length of the comment marker that starts at `p` in `s`, or 0 when none
/// does: `#` is one byte long, `//`, `--` and `/*` are two.
pub open spec fn marker_len_at(s: Seq<u8>, p: int) -> int {
    if 0 <= p < s.len() && s[p] == 0x23u8 {
        1
    } else if 0 <= p && (p < s.len() && s.len() - p > 1) && ((s[p] == 0x2fu8 && (s[p + 1] == 0x2fu8 || s[p
        + 1] == 0x2au8)) || (s[p] == 0x2du8 && s[p + 1] == 0x2du8)) {
        2
    } else {
        0
    }
}

/// Offset just past the comment marker that follows the leading whitespace
/// of `s`, when there is one.
pub open spec fn comment_end(s: Seq<u8>) -> Option<int> {
    let w = leading_ws(s) as int;
    if marker_len_at(s, w) > 0 {
        Some(w + marker_len_at(s, w))
    } else {
        None
    }
}

/// Length of the marker at `p`, computed.
pub fn marker_len(s: &[u8], p: usize) -> (r: usize)
    requires
        p <= s@.len(),
    ensures
        r as int == marker_len_at(s@, p as int),
{
    if p < s.len() && s[p] == 0x23u8 {
        1
    } else if (p < s.len() && s.len() - p > 1) && ((s[p] == 0x2fu8 && (s[p + 1] == 0x2fu8 || s[p + 1] == 0x2au8)) || (
    s[p] == 0x2du8 && s[p + 1] == 0x2du8)) {
        2
    } else {
        0
    }
}

/// The comment marker that starts a line, as the line's first
/// non-whitespace bytes: returns the offset just past it.
pub fn comment_end_of(s: &[u8]) -> (r: Option<usize>)
    ensures
        r matches Some(e) ==> comment_end(s@) == Some(e as int),
        r is None ==> comment_end(s@) is None,
{
    let w = skip_ws(s, 0, s.len());
    assert(s@.subrange(0, s@.len() as int) =~= s@);
    let m = marker_len(s, w);
    if m > 0 {
        Some(w + m)
    } else {
        None
    }
}

/// When the line is a comment (whitespace, then `#`, `//`, `/*` or `--`),
/// the byte offset just past its marker.
pub fn is_line_a_comment(h: &str) -> (r: Option<usize>)
    ensures
        r matches Some(e) ==> comment_end(h.spec_bytes()) == Some(e as int),
        r is None ==> comment_end(h.spec_bytes()) is None,
{
    comment_end_of(h.as_bytes())
}

/// The text of a comment line: what follows its marker, trimmed.
pub fn extract_text_from_a_comment(h: &str) -> (r: Option<String>)
    ensures
        comment_end(h.spec_bytes()) is None ==> r is None,
        comment_end(h.spec_bytes()) matches Some(e) ==> r matches Some(t) && t@ == lossy_text(
            trim(h.spec_bytes().skip(e)),
        ),
{
    let b = h.as_bytes();
    match comment_end_of(b) {
        None => None,
        Some(e) => {
            let s = skip_ws(b, e, b.len());
            let t = skip_ws_back(b, s, b.len());
            proof {
                let rest = b@.skip(e as int);
                assert(rest =~= b@.subrange(e as int, b@.len() as int));
                let ts = rest.skip(leading_ws(rest) as int);
                assert(ts =~= b@.subrange(s as int, b@.len() as int));
                assert(trim(rest) =~= b@.subrange(s as int, t as int));
            }
            Some(text_of(&b[s..t]))
        }
    }
}

/// `s` with every leading repetition of the two-byte pattern `a b` removed.
pub open spec fn strip_pair(s: Seq<u8>, a: u8, b: u8) -> Seq<u8>
    decreases s.len(),
{
    if s.len() >= 2 && s[0] == a && s[1] == b {
        strip_pair(s.skip(2), a, b)
    } else {
        s
    }
}

/// `s` with every leading `a` removed.
pub open spec fn strip_byte(s: Seq<u8>, a: u8) -> Seq<u8>
    decreases s.len(),
{
    if s.len() >= 1 && s[0] == a {
        strip_byte(s.skip(1), a)
    } else {
        s
    }
}

/// What is left of a comment line once leading whitespace, then runs of
/// `--`, `//`, `#` and `/*` (in that order), then whitespace are removed.
pub open spec fn comment_start_trimmed(s: Seq<u8>) -> Seq<u8> {
    let t = s.skip(leading_ws(s) as int);
    let t = strip_pair(t, 0x2du8, 0x2du8);
    let t = strip_pair(t, 0x2fu8, 0x2fu8);
    let t = strip_byte(t, 0x23u8);
    let t = strip_pair(t, 0x2fu8, 0x2au8);
    t.skip(leading_ws(t) as int)
}

fn skip_pairs(s: &[u8], start: usize, a: u8, b: u8) -> (r: usize)
    requires
        start <= s@.len(),
    ensures
        start <= r <= s@.len(),
        s@.skip(r as int) == strip_pair(s@.skip(start as int), a, b),
{
    let mut i: usize = start;
    while (i < s.len() && s.len() - i > 1) && s[i] == a && s[i + 1] == b
        invariant
            start <= i <= s@.len(),
            strip_pair(s@.skip(i as int), a, b) == strip_pair(s@.skip(start as int), a, b),
        decreases s@.len() - i,
    {
        assert(s@.skip(i as int).skip(2) =~= s@.skip(i + 2));
        i = i + 2;
    }
    i
}

fn skip_bytes(s: &[u8], start: usize, a: u8) -> (r: usize)
    requires
        start <= s@.len(),
    ensures
        start <= r <= s@.len(),
        s@.skip(r as int) == strip_byte(s@.skip(start as int), a),
{
    let mut i: usize = start;
    while i < s.len() && s[i] == a
        invariant
            start <= i <= s@.len(),
            strip_byte(s@.skip(i as int), a) == strip_byte(s@.skip(start as int), a),
        decreases s@.len() - i,
    {
        assert(s@.skip(i as int).skip(1) =~= s@.skip(i + 1));
        i = i + 1;
    }
    i
}

/// Offset in `s` at which `comment_start_trimmed(s)` begins.
pub fn comment_start_offset(s: &[u8]) -> (r: usize)
    ensures
        r <= s@.len(),
        s@.skip(r as int) == comment_start_trimmed(s@),
{
    let w = skip_ws(s, 0, s.len());
    assert(s@.subrange(0, s@.len() as int) =~= s@);
    let i = skip_pairs(s, w, 0x2du8, 0x2du8);
    let i = skip_pairs(s, i, 0x2fu8, 0x2fu8);
    let i = skip_bytes(s, i, 0x23u8);
    let i = skip_pairs(s, i, 0x2fu8, 0x2au8);
    let r = skip_ws(s, i, s.len());
    assert(s@.subrange(i as int, s@.len() as int) =~= s@.skip(i as int));
    assert(s@.skip(i as int).skip(leading_ws(s@.skip(i as int)) as int) =~= s@.skip(r as int));
    r
}

/// A line with its leading whitespace and comment markers removed.
pub fn trim_comment_start(s: &str) -> (r: String)
    ensures
        r@ == lossy_text(comment_start_trimmed(s.spec_bytes())),
{
    let b = s.as_bytes();
    let i = comment_start_offset(b);
    assert(b@.subrange(i as int, b@.len() as int) =~= b@.skip(i as int));
    text_of(&b[i..b.len()])
}

/// The syntactic kinds of line comment, named by their first byte.
#[derive(Copy, Clone, Debug, PartialEq, Eq)]
pub enum Comment {
    Hash,
    Dash,
    Slash,
}

/// The first byte of a kind's marker.
pub open spec fn kind_byte(c: Comment) -> u8 {
    match c {
        Comment::Hash => 0x23u8,
        Comment::Dash => 0x2du8,
        Comment::Slash => 0x2fu8,
    }
}

/// Length of a kind's marker: `#` alone, or the byte doubled.
pub open spec fn kind_len(c: Comment) -> int {
    match c {
        Comment::Hash => 1,
        _ => 2,
    }
}

/// Whether the marker of kind `c` starts at `p` in `s`.
pub open spec fn kind_marker_at(c: Comment, s: Seq<u8>, p: int) -> bool {
    &&& 0 <= p
    &&& p + kind_len(c) <= s.len()
    &&& forall|k: int| p <= k < p + kind_len(c) ==> s[k] == kind_byte(c)
}

/// Offset just past a leading marker of kind `c`, when `s` starts with one.
pub open spec fn kind_comment_end(c: Comment, s: Seq<u8>) -> Option<int> {
    let w = leading_ws(s) as int;
    if kind_marker_at(c, s, w) {
        Some(w + kind_len(c))
    } else {
        None
    }
}

impl Comment {
    /// The kind whose marker starts with `byte`.
    pub fn from_u8_unchecked(byte: u8) -> (r: Comment)
        requires
            byte == 0x23u8 || byte == 0x2du8 || byte == 0x2fu8,
        ensures
            kind_byte(r) == byte,
    {
        if byte == 0x23u8 {
            Comment::Hash
        } else if byte == 0x2du8 {
            Comment::Dash
        } else {
            Comment::Slash
        }
    }

    pub fn marker_at(&self, s: &[u8], p: usize) -> (r: bool)
        requires
            p <= s@.len(),
        ensures
            r == kind_marker_at(*self, s@, p as int),
    {
        match self {
            Comment::Hash => p < s.len() && s[p] == 0x23u8,
            Comment::Dash => (p < s.len() && s.len() - p > 1) && s[p] == 0x2du8 && s[p + 1] == 0x2du8,
            Comment::Slash => (p < s.len() && s.len() - p > 1) && s[p] == 0x2fu8 && s[p + 1] == 0x2fu8,
        }
    }

    pub fn len(&self) -> (r: usize)
        ensures
            r as int == kind_len(*self),
    {
        match self {
            Comment::Hash => 1,
            _ => 2,
        }
    }

    /// Byte form of `is_line_a_comment`.
    pub fn comment_end_of(&self, s: &[u8]) -> (r: Option<usize>)
        ensures
            r matches Some(e) ==> kind_comment_end(*self, s@) == Some(e as int),
            r is None ==> kind_comment_end(*self, s@) is None,
    {
        let w = skip_ws(s, 0, s.len());
        assert(s@.subrange(0, s@.len() as int) =~= s@);
        if self.marker_at(s, w) {
            Some(w + self.len())
        } else {
            None
        }
    }

    /// When the line, after leading whitespace, starts with this kind's
    /// marker: the offset just past the marker.
    pub fn is_line_a_comment(&self, h: &str) -> (r: Option<usize>)
        ensures
            r matches Some(e) ==> kind_comment_end(*self, h.spec_bytes()) == Some(e as int),
            r is None ==> kind_comment_end(*self, h.spec_bytes()) is None,
    {
        self.comment_end_of(h.as_bytes())
    }
}

} // verus!
