use vstd::prelude::*;
use vstd::string::StringSliceAdditionalSpecFns;
use crate::comment::{Comment, marker_len, marker_len_at};
use crate::util::{find_bytes, find_from};
use crate::fm::FileId;
use crate::loc::Loc;
use crate::mode::{Mode, ModeValue};
use crate::purge::Purge;
use crate::tag::Tag;
use crate::todo::{
    Description, Todo, collect_description, desc_from, description_is, title_of, title_range,
    todo_head, todo_head_at, title_head, title_head_at,
};
use crate::text::{
    has_at, find_any3, is_utf8, leading_ws, line_end, lossy_text, next_line_end, parse_digits,
    digits_value, skip_ws, skip_ws_back, text_of, trailing_ws, trim_end, lemma_leading_ws,
    lemma_line_end_bounds, is_digit, leading_digits, lemma_leading_digits,
};

verus! {

/// The first index at or after `p` where a comment marker starts.
pub open spec fn first_marker_from(s: Seq<u8>, p: int) -> Option<int>
    decreases s.len() - p,
{
    if p < 0 || p >= s.len() {
        None
    } else if marker_len_at(s, p) > 0 {
        Some(p)
    } else {
        first_marker_from(s, p + 1)
    }
}

/// The shape of a line that holds a TODO: where its comment marker stands,
/// where the word `TODO` starts, whether a tag follows it, where the tag's
/// digits end, and where the text after the colon starts. Offsets are
/// relative to the line.
#[derive(Copy, Clone, Debug, PartialEq, Eq, Structural)]
pub struct LineTodo {
    pub marker: usize,
    pub marker_len: usize,
    pub content: usize,
    pub tagged: bool,
    pub digits_end: usize,
    pub text: usize,
}

/// How a line is classified: the first comment marker of the line, the
/// whitespace after it, then `TODO:` or `TODO(#<digits>):`.
pub open spec fn classify(s: Seq<u8>) -> Option<LineTodo> {
    match first_marker_from(s, 0) {
        None => None,
        Some(p) => {
            let m = marker_len_at(s, p);
            let c = p + m + leading_ws(s.skip(p + m));
            match todo_head(s, c) {
                None => None,
                Some((tagged, t)) => Some(
                    LineTodo {
                        marker: p as usize,
                        marker_len: m as usize,
                        content: c as usize,
                        tagged,
                        digits_end: if tagged {
                            (t - 2) as usize
                        } else {
                            (c + 4) as usize
                        },
                        text: t as usize,
                    },
                ),
            }
        },
    }
}

/// Finds the first comment marker of a line.
fn first_marker(s: &[u8]) -> (r: Option<usize>)
    ensures
        r matches Some(p) ==> first_marker_from(s@, 0) == Some(p as int) && p < s@.len()
            && marker_len_at(s@, p as int) > 0,
        r is None ==> first_marker_from(s@, 0) is None,
{
    let n = s.len();
    let mut i: usize = 0;
    while i < n
        invariant
            n == s@.len(),
            i <= n,
            first_marker_from(s@, i as int) == first_marker_from(s@, 0),
        decreases n - i,
    {
        let rest = &s[i..n];
        match find_any3(0x23u8, 0x2fu8, 0x2du8, rest) {
            None => {
                proof {
                    assert forall|j: int| i <= j < n implies s@[j] != 0x23u8 && s@[j] != 0x2fu8
                        && s@[j] != 0x2du8 by {
                        assert(s@[j] == rest@[j - i]);
                    }
                    lemma_no_marker(s@, i as int, n as int);
                }
                return None;
            },
            Some(rel) => {
                let k = i + rel;
                proof {
                    assert forall|j: int| i <= j < k implies s@[j] != 0x23u8 && s@[j] != 0x2fu8
                        && s@[j] != 0x2du8 by {
                        assert(s@[j] == rest@[j - i]);
                    }
                    lemma_no_marker(s@, i as int, k as int);
                }
                if marker_len(s, k) > 0 {
                    return Some(k);
                }
                i = k + 1;
            },
        }
    }
    None
}

/// A stretch without `#`, `/` or `-` holds no marker start.
proof fn lemma_no_marker(s: Seq<u8>, i: int, k: int)
    requires
        0 <= i <= k <= s.len(),
        forall|j: int| i <= j < k ==> s[j] != 0x23u8 && s[j] != 0x2fu8 && s[j] != 0x2du8,
    ensures
        first_marker_from(s, i) == first_marker_from(s, k),
    decreases k - i,
{
    if i < k {
        lemma_no_marker(s, i + 1, k);
    }
}

/// Classifies one line (its bytes, newline included).
pub fn classify_line(s: &[u8]) -> (r: Option<LineTodo>)
    ensures
        r == classify(s@),
{
    let n = s.len();
    match first_marker(s) {
        None => None,
        Some(p) => {
            let m = marker_len(s, p);
            let c = skip_ws(s, p + m, n);
            proof {
                assert(s@.skip(p + m) =~= s@.subrange(p + m, n as int));
            }
            match todo_head_at(s, c) {
                None => None,
                Some((tagged, t)) => {
                    proof {
                        lemma_leading_digits(s@.skip(c + 6));
                    }
                    Some(
                        LineTodo {
                            marker: p,
                            marker_len: m,
                            content: c,
                            tagged,
                            digits_end: if tagged {
                                t - 2
                            } else {
                                c + 4
                            },
                            text: t,
                        },
                    )
                },
            }
        },
    }
}

/// The comment kind of a line marker; `None` for the block opener `/*`.
pub open spec fn kind_of_marker(s: Seq<u8>, p: int) -> Option<Comment> {
    if s[p] == 0x23u8 {
        Some(Comment::Hash)
    } else if s[p] == 0x2du8 {
        Some(Comment::Dash)
    } else if s[p + 1] == 0x2fu8 {
        Some(Comment::Slash)
    } else {
        None
    }
}

/// Whether a closing `*/` starts at or after `k` in `s`.
pub open spec fn close_from(s: Seq<u8>, k: int) -> bool
    decreases s.len() - k,
{
    if k < 0 || k + 1 >= s.len() {
        false
    } else if s[k] == 0x2au8 && s[k + 1] == 0x2fu8 {
        true
    } else {
        close_from(s, k + 1)
    }
}

/// End of the line that closes a block comment, searching from `p`; the
/// end of `h` when no line does.
pub open spec fn close_line_end(h: Seq<u8>, p: int) -> int
    decreases h.len() - p,
{
    if p < 0 || p >= h.len() || line_end(h, p) <= p || line_end(h, p) > h.len() {
        h.len() as int
    } else if close_from(h.subrange(p, line_end(h, p)), 0) {
        line_end(h, p)
    } else {
        close_line_end(h, line_end(h, p))
    }
}

/// A TODO as found in a file, in terms of bytes: its line number, the
/// tag-insertion offset, preview, title and description texts, its issue
/// number when tagged, and the range that a purge deletes.
pub struct Found {
    pub line: int,
    pub offset: int,
    pub preview: Seq<u8>,
    pub title: Seq<u8>,
    pub description: Option<Seq<Seq<u8>>>,
    pub issue_number: int,
    pub start: int,
    pub end: int,
}

/// Description lines and the end of the comment block of a TODO whose line
/// is `h[ls..le]` with its marker at `p` (relative to the line).
pub open spec fn block_of(h: Seq<u8>, ls: int, le: int, p: int) -> (Seq<Seq<u8>>, int) {
    let s = h.subrange(ls, le);
    match kind_of_marker(s, p) {
        Some(k) => desc_from(Some(k), h, le, h.len() as int),
        None => if close_from(s, p + 2) {
            (seq![], le)
        } else {
            let limit = close_line_end(h, le);
            (desc_from(None, h, le, limit).0, limit)
        },
    }
}

/// What the TODO of the line `h[ls..]` (line number `ln`) is found to be.
pub open spec fn found_at(h: Seq<u8>, ls: int, ln: int, lt: LineTodo) -> Found {
    let le = line_end(h, ls);
    let s = h.subrange(ls, le);
    let b = block_of(h, ls, le, lt.marker as int);
    let p = lt.marker as int;
    Found {
        line: ln,
        offset: ls + lt.content + 4,
        preview: trim_end(s.skip(lt.content as int)),
        title: title_of(s.skip(lt.text as int)),
        description: if b.0.len() > 0 {
            Some(b.0)
        } else {
            None
        },
        issue_number: digits_value(s.subrange(lt.content + 6, lt.digits_end as int)) as int,
        start: ls + p - trailing_ws(s.take(p)),
        end: if p == 0 || b.1 == 0 || h[b.1 - 1] != 0x0au8 {
            b.1
        } else {
            b.1 - 1
        },
    }
}

/// How a line is classified when it is text: lines that are not valid
/// UTF-8 hold no TODO.
pub open spec fn classify_text(s: Seq<u8>) -> Option<LineTodo> {
    if vstd::utf8::valid_utf8(s) {
        classify(s)
    } else {
        None
    }
}

/// What the line that starts at `ls` adds to the findings of the mode.
pub open spec fn entry(h: Seq<u8>, ls: int, ln: int, mode: Mode) -> Seq<Found> {
    match classify_text(h.subrange(ls, line_end(h, ls))) {
        None => seq![],
        Some(lt) => {
            let f = found_at(h, ls, ln, lt);
            match mode {
                Mode::Reporting => if !lt.tagged {
                    seq![f]
                } else {
                    seq![]
                },
                Mode::Listing => seq![f],
                Mode::Purging => if lt.tagged && f.issue_number <= u64::MAX {
                    seq![f]
                } else {
                    seq![]
                },
            }
        },
    }
}

/// The findings of the lines from `p` on, the first of them numbered `ln`.
pub open spec fn scan_from(h: Seq<u8>, p: int, ln: int, mode: Mode) -> Seq<Found>
    decreases h.len() - p,
{
    if p < 0 || p >= h.len() || line_end(h, p) <= p || line_end(h, p) > h.len() {
        seq![]
    } else {
        entry(h, p, ln, mode) + scan_from(h, line_end(h, p), ln + 1, mode)
    }
}

/// The findings of a whole file.
pub open spec fn scan(h: Seq<u8>, mode: Mode) -> Seq<Found> {
    scan_from(h, 0, 1, mode)
}

/// Whether `t` is the TODO described by `f`, in file `file_id`.
pub open spec fn todo_is(t: Todo, f: Found, file_id: FileId) -> bool {
    &&& t.loc == Loc(file_id, f.line as u32)
    &&& t.tag_insertion_offset == f.offset
    &&& t.preview@ == lossy_text(f.preview)
    &&& t.title@ == lossy_text(f.title)
    &&& description_is(t.description, f.description)
}

/// Whether `p` is the purge described by `f`.
pub open spec fn purge_is(p: Purge, f: Found, file_id: FileId) -> bool {
    &&& todo_is(p.tag.todo, f, file_id)
    &&& p.tag.issue_number == f.issue_number
    &&& p.range.start == f.start
    &&& p.range.end == f.end
}

/// Whether a batch holds exactly the findings `fs`.
pub open spec fn batch_is(v: ModeValue, fs: Seq<Found>, file_id: FileId) -> bool {
    match v {
        ModeValue::Reporting(ts) => ts@.len() == fs.len() && forall|i: int|
            0 <= i < fs.len() ==> todo_is(#[trigger] ts@[i], fs[i], file_id),
        ModeValue::Listing(ts) => ts@.len() == fs.len() && forall|i: int|
            0 <= i < fs.len() ==> todo_is(#[trigger] ts@[i], fs[i], file_id),
        ModeValue::Purging(ps) => ps.file_id == file_id && ps.purges@.len() == fs.len() && forall|
            i: int,
        |
            0 <= i < fs.len() ==> purge_is(#[trigger] ps.purges@[i], fs[i], file_id),
    }
}

/// Whether a closing `*/` starts at or after `k` in `s`, computed.
fn close_in(s: &[u8], k: usize) -> (r: bool)
    requires
        k <= s@.len(),
    ensures
        r == close_from(s@, k as int),
{
    let n = s.len();
    let mut i: usize = k;
    while i < n && n - i > 1
        invariant
            n == s@.len(),
            k <= i <= n,
            close_from(s@, i as int) == close_from(s@, k as int),
        decreases n - i,
    {
        if s[i] == 0x2au8 && s[i + 1] == 0x2fu8 {
            return true;
        }
        i = i + 1;
    }
    false
}

/// End of the line that closes a block comment, searching from `p`.
fn find_close_line_end(h: &[u8], p: usize) -> (r: usize)
    requires
        p <= h@.len(),
    ensures
        r as int == close_line_end(h@, p as int),
        p <= r <= h@.len(),
{
    let n = h.len();
    let mut q: usize = p;
    while q < n
        invariant
            n == h@.len(),
            p <= q <= n,
            close_line_end(h@, q as int) == close_line_end(h@, p as int),
        decreases n - q,
    {
        let le = next_line_end(h, q);
        if close_in(&h[q..le], 0) {
            return le;
        }
        q = le;
    }
    n
}

/// Description lines and block end of a TODO line `h[ls..le]` whose marker
/// stands at `p` of the line.
fn block_at(h: &[u8], ls: usize, le: usize, p: usize) -> (r: (Vec<String>, usize))
    requires
        ls <= le <= h@.len(),
        p + 1 < le - ls,
        marker_len_at(h@.subrange(ls as int, le as int), p as int) > 0,
    ensures
        crate::todo::texts_are(r.0@, block_of(h@, ls as int, le as int, p as int).0),
        r.1 as int == block_of(h@, ls as int, le as int, p as int).1,
        le <= r.1 <= h@.len(),
{
    let n = h.len();
    let s = &h[ls..le];
    let first = s[p];
    if first == 0x23u8 {
        let r = collect_description(h, Some(Comment::Hash), le, n);
        proof { lemma_desc_bounds(Some(Comment::Hash), h@, le as int, n as int); }
        r
    } else if first == 0x2du8 {
        let r = collect_description(h, Some(Comment::Dash), le, n);
        proof { lemma_desc_bounds(Some(Comment::Dash), h@, le as int, n as int); }
        r
    } else if s[p + 1] == 0x2fu8 {
        let r = collect_description(h, Some(Comment::Slash), le, n);
        proof { lemma_desc_bounds(Some(Comment::Slash), h@, le as int, n as int); }
        r
    } else if close_in(s, p + 2) {
        (Vec::new(), le)
    } else {
        let limit = find_close_line_end(h, le);
        let (lines, _) = collect_description(h, None, le, limit);
        (lines, limit)
    }
}

/// Description ends stay within their bounds.
proof fn lemma_desc_bounds(kind: Option<Comment>, h: Seq<u8>, p: int, limit: int)
    requires
        0 <= p <= limit <= h.len(),
    ensures
        p <= desc_from(kind, h, p, limit).1 <= limit,
    decreases limit - p,
{
    if p < limit && line_end(h, p) > p {
        let le = if line_end(h, p) < limit {
            line_end(h, p)
        } else {
            limit
        };
        lemma_desc_bounds(kind, h, le, limit);
    }
}

/// Builds the TODO of the line that starts at `ls`, classified as `lt`,
/// with its issue number when it fits and the range a purge would delete.
fn todo_at(h: &[u8], ls: usize, ln: u32, file_id: FileId, lt: LineTodo) -> (r: (
    Todo,
    Option<u64>,
    usize,
    usize,
))
    requires
        ls < h@.len(),
        classify(h@.subrange(ls as int, line_end(h@, ls as int))) == Some(lt),
    ensures
        todo_is(r.0, found_at(h@, ls as int, ln as int, lt), file_id),
        lt.tagged ==> (r.1 matches Some(v) ==> v == found_at(h@, ls as int, ln as int, lt).issue_number),
        lt.tagged ==> (r.1 is None <==> found_at(h@, ls as int, ln as int, lt).issue_number > u64::MAX),
        r.2 == found_at(h@, ls as int, ln as int, lt).start,
        r.3 == found_at(h@, ls as int, ln as int, lt).end,
{
    let le = next_line_end(h, ls);
    let s = &h[ls..le];
    let ghost sv = h@.subrange(ls as int, le as int);
    assert(s@ == sv);
    proof {
        lemma_classified(sv);
    }
    let sl = s.len();
    // title and preview
    let (ta, tb) = title_range(s, lt.text);
    let pe = skip_ws_back(s, lt.content, sl);
    proof {
        assert(sv.skip(lt.content as int) =~= sv.subrange(lt.content as int, sl as int));
        assert(trim_end(sv.skip(lt.content as int)) =~= sv.subrange(lt.content as int, pe as int));
    }
    let title = text_of(&s[ta..tb]);
    let preview = text_of(&s[lt.content..pe]);
    // description and block
    let (lines, bend) = block_at(h, ls, le, lt.marker);
    let description = if lines.len() > 0 {
        Some(Description { lines })
    } else {
        None
    };
    // issue number
    let number = if lt.tagged {
        parse_digits(s, lt.content + 6, lt.digits_end)
    } else {
        None
    };
    // purge range
    let start = skip_ws_back(s, 0, lt.marker);
    proof {
        assert(sv.take(lt.marker as int) =~= sv.subrange(0, lt.marker as int));
    }
    let end = if lt.marker == 0 || bend == 0 || h[bend - 1] != 0x0au8 {
        bend
    } else {
        bend - 1
    };
    let todo = Todo {
        loc: Loc(file_id, ln),
        preview,
        title,
        tag_insertion_offset: ls + lt.content + 4,
        description,
    };
    (todo, number, ls + start, end)
}

/// What a classified line satisfies.
proof fn lemma_classified(s: Seq<u8>)
    requires
        classify(s) is Some,
        s.len() <= usize::MAX,
    ensures
        ({
            let lt = classify(s)->Some_0;
            &&& lt.marker + 1 < s.len()
            &&& marker_len_at(s, lt.marker as int) > 0
            &&& lt.content + 4 <= lt.text <= s.len()
            &&& lt.tagged ==> lt.content + 6 < lt.digits_end && lt.digits_end + 2 == lt.text
            &&& lt.tagged ==> forall|k: int| lt.content + 6 <= k < lt.digits_end ==> is_digit(#[trigger] s[k])
            &&& lt.marker <= lt.content
        }),
{
    let p = first_marker_from(s, 0)->Some_0;
    lemma_first_marker(s, 0);
    let m = marker_len_at(s, p);
    lemma_leading_ws(s.skip(p + m));
    let c = p + m + leading_ws(s.skip(p + m));
    let (tagged, t) = todo_head(s, c)->Some_0;
    assert(c + 5 <= s.len());
    if tagged {
        assert(c + 6 <= s.len());
        lemma_leading_digits(s.skip(c + 6));
        assert forall|k: int| c + 6 <= k < c + 6 + leading_digits(s.skip(c + 6)) implies is_digit(
            #[trigger] s[k],
        ) by {
            assert(s[k] == s.skip(c + 6)[k - c - 6]);
        }
    }
}

proof fn lemma_first_marker(s: Seq<u8>, i: int)
    requires
        0 <= i,
        first_marker_from(s, i) is Some,
    ensures
        i <= first_marker_from(s, i)->Some_0 < s.len(),
        marker_len_at(s, first_marker_from(s, i)->Some_0) > 0,
    decreases s.len() - i,
{
    if marker_len_at(s, i) == 0 {
        lemma_first_marker(s, i + 1);
    }
}

/// Whether the line's tag has the strict form `(#<digits>)` with a number
/// that fits a `u64`.
pub open spec fn tag_parses(s: Seq<u8>) -> bool {
    match classify(s) {
        Some(lt) => lt.tagged && digits_value(s.subrange(lt.content + 6, lt.digits_end as int))
            <= u64::MAX,
        None => false,
    }
}

/// Whether a line holds a tagged TODO (after its first marker: `TODO`,
/// optional whitespace, `(`, text, `)` and `:`) whose tag is not `(#<n>)`
/// with `n` a `u64`: a tag that purging cannot read.
pub open spec fn malformed_line(s: Seq<u8>) -> bool {
    match first_marker_from(s, 0) {
        None => false,
        Some(p) => {
            let m = marker_len_at(s, p);
            let c = p + m + leading_ws(s.skip(p + m));
            (title_head(s, c) matches Some((tagged, _)) && tagged) && !tag_parses(s)
        },
    }
}

/// Line numbers, from `ln` on, of the malformed tag lines from `p` on
/// (among the lines that are valid UTF-8).
pub open spec fn malformed_from(h: Seq<u8>, p: int, ln: int) -> Seq<int>
    decreases h.len() - p,
{
    if p < 0 || p >= h.len() || line_end(h, p) <= p || line_end(h, p) > h.len() {
        seq![]
    } else {
        let rest = malformed_from(h, line_end(h, p), ln + 1);
        if vstd::utf8::valid_utf8(h.subrange(p, line_end(h, p))) && malformed_line(
            h.subrange(p, line_end(h, p)),
        ) {
            seq![ln] + rest
        } else {
            rest
        }
    }
}

/// Number of lines from `p` on.
pub open spec fn lines_from(h: Seq<u8>, p: int) -> nat
    decreases h.len() - p,
{
    if p < 0 || p >= h.len() || line_end(h, p) <= p || line_end(h, p) > h.len() {
        0
    } else {
        1 + lines_from(h, line_end(h, p))
    }
}

/// Counts the lines of `h` (a last line without `\n` counts too).
pub fn count_lines(h: &[u8]) -> (r: usize)
    ensures
        r == lines_from(h@, 0),
{
    let n = h.len();
    let mut p: usize = 0;
    let mut c: usize = 0;
    while p < n
        invariant
            n == h@.len(),
            p <= n,
            c <= p,
            c + lines_from(h@, p as int) == lines_from(h@, 0),
        decreases n - p,
    {
        let le = next_line_end(h, p);
        p = le;
        c = c + 1;
    }
    c
}

/// Whether a line holds a malformed tag, computed.
fn line_is_malformed(s: &[u8]) -> (r: bool)
    ensures
        r == malformed_line(s@),
{
    let n = s.len();
    match first_marker(s) {
        None => false,
        Some(p) => {
            let m = marker_len(s, p);
            let c = skip_ws(s, p + m, n);
            proof {
                assert(s@.skip(p + m) =~= s@.subrange(p + m, n as int));
            }
            match title_head_at(s, c) {
                Some((true, _)) => {
                    match classify_line(s) {
                        Some(lt) => {
                            if !lt.tagged {
                                return true;
                            }
                            proof {
                                lemma_classified(s@);
                            }
                            parse_digits(s, lt.content + 6, lt.digits_end).is_none()
                        },
                        None => true,
                    }
                },
                _ => false,
            }
        },
    }
}

/// The line numbers of tagged TODOs whose tag purging cannot read: not
/// `(#<digits>)`, or a number too large for a `u64`. Purging skips them.
pub fn malformed_tags(haystack: &[u8]) -> (r: Vec<u32>)
    requires
        lines_from(haystack@, 0) < u32::MAX,
    ensures
        r@.len() == malformed_from(haystack@, 0, 1).len(),
        forall|i: int|
            0 <= i < r@.len() ==> r@[i] as int == #[trigger] malformed_from(haystack@, 0, 1)[i],
{
    let h = haystack;
    let n = h.len();
    let mut out: Vec<u32> = Vec::new();
    let mut p: usize = 0;
    let mut ln: u32 = 1;
    let ghost acc: Seq<int> = seq![];
    while p < n
        invariant
            n == h@.len(),
            lines_from(h@, 0) < u32::MAX,
            p <= n,
            ln + lines_from(h@, p as int) == 1 + lines_from(h@, 0),
            out@.len() == acc.len(),
            forall|i: int| 0 <= i < out@.len() ==> out@[i] as int == #[trigger] acc[i],
            acc + malformed_from(h@, p as int, ln as int) == malformed_from(h@, 0, 1),
        decreases n - p,
    {
        let le = next_line_end(h, p);
        let line = &h[p..le];
        if is_utf8(line) && line_is_malformed(line) {
            out.push(ln);
            proof {
                assert(acc.push(ln as int) + malformed_from(h@, le as int, ln + 1) =~= acc
                    + malformed_from(h@, p as int, ln as int));
                acc = acc.push(ln as int);
            }
        }
        p = le;
        ln = ln + 1;
    }
    assert(acc + malformed_from(h@, p as int, ln as int) =~= acc);
    out
}

/// Extensions of files that are never scanned, each between spaces.
pub const BINARY_EXTENSIONS: &'static str = " exe dll bin o so a lib elf class jar war ear apk msi iso img dmg vmdk vhd vdi rom efi sys ko bz2 xz 7z gz zip rar tar arj lz cab deb rpm pkg z lzh cpio tgz tbz2 tlz txz jpg jpeg png gif bmp tiff ico mp3 aac wav flac ogg wma m4a mp4 mkv mov avi wmv flv webm 3gp m2ts mts ts resx pdb dat dll.config exe.config pak binlog woff woff2 ttf eot db sqlite sqlitedb mdb accdb fdb ndf bak ldf mdf bcp db3 frm myd ib doc docx xls xlsx ppt pptx pdf psd ai eps indd sketch xcf raw svg otf swf fla cr2 nef dng arw orf ptx srf pef sr2 raf 3ds blend fbx obj stl dae mmd lwo c4d dxf step iges alembic usd usdaz sbsar vtf rlib rmeta d ";

/// Whether a file extension is one of `BINARY_EXTENSIONS`.
pub open spec fn binary_extension(ext: Seq<u8>) -> bool {
    (forall|k: int| 0 <= k < ext.len() ==> ext[k] != 0x20u8) && find_from(
        BINARY_EXTENSIONS.spec_bytes(),
        seq![0x20u8] + ext + seq![0x20u8],
        0,
    ) is Some
}

/// Whether a file is scanned, given its extension: files without one, or
/// with a binary one, are not.
pub fn filter(ext: Option<&[u8]>) -> (r: bool)
    ensures
        r == (ext matches Some(e) && !binary_extension(e@)),
{
    match ext {
        None => false,
        Some(e) => {
            let mut key: Vec<u8> = Vec::new();
            key.push(0x20u8);
            let mut i: usize = 0;
            while i < e.len()
                invariant
                    ext == Some(e),
                    i <= e@.len(),
                    key@ == seq![0x20u8] + e@.take(i as int),
                    forall|k: int| 0 <= k < i ==> e@[k] != 0x20u8,
                decreases e@.len() - i,
            {
                if e[i] == 0x20u8 {
                    assert(e@[i as int] == 0x20u8);
                    return true;
                }
                key.push(e[i]);
                assert(key@ =~= seq![0x20u8] + e@.take(i + 1));
                i = i + 1;
            }
            key.push(0x20u8);
            assert(e@.take(e@.len() as int) =~= e@);
            assert(key@ =~= seq![0x20u8] + e@ + seq![0x20u8]);
            let list = BINARY_EXTENSIONS.as_bytes();
            find_bytes(list, key.as_slice(), 0).is_none()
        },
    }
}

/// Scans a file's bytes line by line and collects the TODOs that the mode
/// asks for: untagged ones when reporting, tagged ones with their purge
/// ranges when purging, all of them when listing.
pub fn search(haystack: &[u8], file_id: FileId, mode: Mode) -> (r: ModeValue)
    requires
        lines_from(haystack@, 0) < u32::MAX,
    ensures
        crate::mode::value_has_mode(r, mode),
        batch_is(r, scan(haystack@, mode), file_id),
{
    let h = haystack;
    let n = h.len();
    let mut mv = ModeValue::new(mode, file_id);
    let mut p: usize = 0;
    let mut ln: u32 = 1;
    let ghost found: Seq<Found> = seq![];
    while p < n
        invariant
            n == h@.len(),
            lines_from(h@, 0) < u32::MAX,
            p <= n,
            ln + lines_from(h@, p as int) == 1 + lines_from(h@, 0),
            crate::mode::value_has_mode(mv, mode),
            batch_is(mv, found, file_id),
            found + scan_from(h@, p as int, ln as int, mode) == scan(h@, mode),
        decreases n - p,
    {
        let le = next_line_end(h, p);
        let ghost e = entry(h@, p as int, ln as int, mode);
        let ghost old_found = found;
        proof {
            assert(scan_from(h@, p as int, ln as int, mode) == e + scan_from(
                h@,
                le as int,
                ln + 1,
                mode,
            ));
            assert(found + scan_from(h@, p as int, ln as int, mode) =~= (found + e) + scan_from(
                h@,
                le as int,
                ln + 1,
                mode,
            ));
        }
        let line = &h[p..le];
        let class = if is_utf8(line) {
            classify_line(line)
        } else {
            None
        };
        match class {
            None => {
                assert(e =~= Seq::<Found>::empty());
                assert(found + e =~= found);
            },
            Some(lt) => {
                let ghost f = found_at(h@, p as int, ln as int, lt);
                match mode {
                    Mode::Reporting => {
                        if !lt.tagged {
                            let (todo, _, _, _) = todo_at(h, p, ln, file_id, lt);
                            mv.push_todo(todo);
                            proof {
                                found = found.push(f);
                                assert(old_found + e =~= found);
                            }
                        } else {
                            assert(old_found + e =~= found);
                        }
                    },
                    Mode::Listing => {
                        let (todo, _, _, _) = todo_at(h, p, ln, file_id, lt);
                        mv.push_todo(todo);
                        proof {
                            found = found.push(f);
                            assert(old_found + e =~= found);
                        }
                    },
                    Mode::Purging => {
                        if lt.tagged {
                            let (todo, number, start, end) = todo_at(h, p, ln, file_id, lt);
                            match number {
                                Some(v) => {
                                    let purge = Purge {
                                        tag: Tag { issue_number: v, todo },
                                        range: std::ops::Range { start, end },
                                    };
                                    mv.push_purge(purge);
                                    proof {
                                        found = found.push(f);
                                        assert(old_found + e =~= found);
                                    }
                                },
                                None => {
                                    assert(old_found + e =~= found);
                                },
                            }
                        } else {
                            assert(old_found + e =~= found);
                        }
                    },
                }
            },
        }
        p = le;
        ln = ln + 1;
    }
    assert(found + scan_from(h@, p as int, ln as int, mode) =~= found);
    mv
}

proof fn lemma_marker_after_ws(s: Seq<u8>, k: int)
    requires
        0 <= k <= leading_ws(s),
        leading_ws(s) < s.len(),
        marker_len_at(s, leading_ws(s) as int) > 0,
    ensures
        first_marker_from(s, k) == Some(leading_ws(s) as int),
    decreases leading_ws(s) - k,
{
    lemma_leading_ws(s);
    if k < leading_ws(s) {
        assert(s[k] != 0x23u8 && s[k] != 0x2fu8 && s[k] != 0x2du8);
        lemma_marker_after_ws(s, k + 1);
    }
}

/// Whether a line starts, after optional whitespace, with a comment marker.
pub open spec fn starts_with_marker(s: Seq<u8>) -> bool {
    leading_ws(s) < s.len() && marker_len_at(s, leading_ws(s) as int) > 0
}

/// Where the text after a line's leading marker and the whitespace after it
/// starts.
pub open spec fn content_start(s: Seq<u8>) -> int {
    let w = leading_ws(s) as int;
    let m = marker_len_at(s, w);
    w + m + leading_ws(s.skip(w + m))
}

/// Whether the text after a line's first comment marker (wherever in the
/// line it stands) and the whitespace after it does not open a TODO.
pub open spec fn no_todo_after_first_marker(s: Seq<u8>) -> bool {
    first_marker_from(s, 0) matches Some(p) && todo_head(
        s,
        p + marker_len_at(s, p) + leading_ws(s.skip(p + marker_len_at(s, p))),
    ) is None
}

/// The number in a `TODO(#<digits>):` tag whose word `TODO` starts at `c`.
pub open spec fn tag_number(s: Seq<u8>, c: int) -> nat {
    digits_value(s.subrange(c + 6, c + 6 + leading_digits(s.skip(c + 6))))
}

/// The classification law on one line (valid UTF-8) that is, after optional
/// whitespace, a comment marker, optional whitespace and `TODO:` or
/// `TODO(#<digits>):`: listing yields exactly one TODO, whose tag-insertion
/// offset is the index just after the word `TODO`; reporting yields it
/// exactly when untagged, purging exactly when tagged with a number that
/// fits a `u64`, which it carries. A line that starts with a marker followed
/// by anything else, whose first marker (wherever it stands) is not followed
/// by a TODO, that holds no marker at all, or that is not valid UTF-8,
/// yields none in any mode.
pub proof fn lemma_todo_classification(h: Seq<u8>, ls: int, ln: int, mode: Mode)
    requires
        0 <= ls < h.len() <= usize::MAX,
    ensures
        ({
            let s = h.subrange(ls, line_end(h, ls));
            let c = content_start(s);
            let listed = entry(h, ls, ln, Mode::Listing);
            let reported = entry(h, ls, ln, Mode::Reporting);
            let purged = entry(h, ls, ln, Mode::Purging);
            &&& starts_with_marker(s) && vstd::utf8::valid_utf8(s) && todo_head(s, c) is Some
                ==> {
                &&& listed.len() == 1 && listed[0].offset == ls + c + 4
                &&& has_at(h, ls + c, crate::todo::lit_todo())
                &&& !todo_head(s, c)->Some_0.0 ==> reported.len() == 1 && reported[0].offset == ls
                    + c + 4 && purged.len() == 0
                &&& todo_head(s, c)->Some_0.0 ==> reported.len() == 0
                &&& todo_head(s, c)->Some_0.0 && tag_number(s, c) <= u64::MAX ==> purged.len() == 1
                    && purged[0].offset == ls + c + 4 && purged[0].issue_number == tag_number(s, c)
                &&& todo_head(s, c)->Some_0.0 && tag_number(s, c) > u64::MAX ==> purged.len() == 0
            }
            &&& starts_with_marker(s) && todo_head(s, c) is None ==> entry(h, ls, ln, mode).len()
                == 0
            &&& !vstd::utf8::valid_utf8(s) ==> entry(h, ls, ln, mode).len() == 0
            &&& no_todo_after_first_marker(s) ==> entry(h, ls, ln, mode).len() == 0
            &&& (forall|k: int| 0 <= k < s.len() ==> marker_len_at(s, k) == 0) ==> entry(
                h,
                ls,
                ln,
                mode,
            ).len() == 0
        }),
{
    let s = h.subrange(ls, line_end(h, ls));
    let c = content_start(s);
    if starts_with_marker(s) {
        if todo_head(s, c) is Some {
            lemma_line_shape(h, ls);
        } else {
            lemma_marker_after_ws(s, 0);
        }
    }
    if forall|k: int| 0 <= k < s.len() ==> marker_len_at(s, k) == 0 {
        lemma_no_marker_at_all(s, 0);
    }
}

proof fn lemma_line_shape(h: Seq<u8>, ls: int)
    requires
        0 <= ls < h.len() <= usize::MAX,
        starts_with_marker(h.subrange(ls, line_end(h, ls))),
        todo_head(h.subrange(ls, line_end(h, ls)), content_start(h.subrange(ls, line_end(h, ls))))
            is Some,
    ensures
        ({
            let s = h.subrange(ls, line_end(h, ls));
            let c = content_start(s);
            let lt = classify(s)->Some_0;
            &&& classify(s) is Some
            &&& lt.content == c
            &&& lt.tagged == todo_head(s, c)->Some_0.0
            &&& lt.tagged ==> lt.digits_end == c + 6 + leading_digits(s.skip(c + 6))
            &&& has_at(h, ls + c, crate::todo::lit_todo())
        }),
{
    let s = h.subrange(ls, line_end(h, ls));
    lemma_line_end_bounds(h, ls);
    let c = content_start(s);
    lemma_marker_after_ws(s, 0);
    lemma_leading_ws(s);
    lemma_leading_ws(s.skip(leading_ws(s) + marker_len_at(s, leading_ws(s) as int)));
    assert(has_at(s, c, crate::todo::lit_todo())) by {
        assert(s.subrange(c, c + 4) =~= crate::todo::lit_todo());
    }
    assert(h.subrange(ls + c, ls + c + 4) =~= s.subrange(c, c + 4));
}

proof fn lemma_no_marker_at_all(s: Seq<u8>, i: int)
    requires
        0 <= i <= s.len(),
        forall|k: int| 0 <= k < s.len() ==> marker_len_at(s, k) == 0,
    ensures
        first_marker_from(s, i) is None,
    decreases s.len() - i,
{
    if i < s.len() {
        lemma_no_marker_at_all(s, i + 1);
    }
}
/// Where line `k` (counted from 0) of `h` starts; the end of `h` once past
/// the last line.
pub open spec fn line_start(h: Seq<u8>, k: nat) -> int
    decreases k,
{
    if k == 0 {
        0
    } else {
        line_end(h, line_start(h, (k - 1) as nat))
    }
}

/// The findings of the lines before line `k` (counted from 0).
pub open spec fn scan_before(h: Seq<u8>, k: nat, mode: Mode) -> Seq<Found>
    decreases k,
{
    if k == 0 {
        seq![]
    } else {
        scan_before(h, (k - 1) as nat, mode) + entry(
            h,
            line_start(h, (k - 1) as nat),
            k as int,
            mode,
        )
    }
}

proof fn lemma_entry_line(h: Seq<u8>, p: int, ln: int, mode: Mode)
    ensures
        entry(h, p, ln, mode).len() <= 1,
        forall|i: int| 0 <= i < entry(h, p, ln, mode).len() ==> (#[trigger] entry(h, p, ln, mode)[i]).line == ln,
{
}

#[verifier::spinoff_prover]
#[verifier::rlimit(60)]
proof fn lemma_scan_from_lines(h: Seq<u8>, p: int, ln: int, mode: Mode)
    ensures
        forall|i: int| 0 <= i < scan_from(h, p, ln, mode).len() ==> (#[trigger] scan_from(h, p, ln, mode)[i]).line >= ln,
    decreases h.len() - p,
{
    if !(p < 0 || p >= h.len() || line_end(h, p) <= p || line_end(h, p) > h.len()) {
        let e = entry(h, p, ln, mode);
        let rest = scan_from(h, line_end(h, p), ln + 1, mode);
        lemma_entry_line(h, p, ln, mode);
        lemma_scan_from_lines(h, line_end(h, p), ln + 1, mode);
        assert forall|i: int| 0 <= i < scan_from(h, p, ln, mode).len() implies (#[trigger] scan_from(h, p, ln, mode)[i]).line >= ln by {
            if i < e.len() {
                assert(scan_from(h, p, ln, mode)[i] == e[i]);
            } else {
                assert(scan_from(h, p, ln, mode)[i] == rest[i - e.len()]);
            }
        }
    }
}

#[verifier::spinoff_prover]
#[verifier::rlimit(60)]
proof fn lemma_scan_prefix(h: Seq<u8>, k: nat, mode: Mode)
    requires
        line_start(h, k) < h.len(),
    ensures
        scan(h, mode) == scan_before(h, k, mode) + scan_from(h, line_start(h, k), k + 1 as int, mode),
        forall|i: int| 0 <= i < scan_before(h, k, mode).len() ==> (#[trigger] scan_before(h, k, mode)[i]).line <= k,
    decreases k,
{
    if k == 0 {
        assert(scan(h, mode) =~= Seq::<Found>::empty() + scan_from(h, 0, 1, mode));
    } else {
        let j = (k - 1) as nat;
        let q = line_start(h, j);
        if q < 0 || q >= h.len() {
            assert(line_start(h, k) == line_end(h, q));
        }
        assert(0 <= q < h.len()) by {
            lemma_line_start_nonneg(h, j);
        }
        lemma_scan_prefix(h, j, mode);
        lemma_line_end_bounds(h, q);
        let a = scan_before(h, j, mode);
        let e = entry(h, q, k as int, mode);
        let rest = scan_from(h, line_start(h, k), k + 1 as int, mode);
        assert(scan_from(h, q, k as int, mode) == e + rest);
        assert(a + (e + rest) =~= (a + e) + rest);
        lemma_entry_line(h, q, k as int, mode);
        assert forall|i: int| 0 <= i < scan_before(h, k, mode).len() implies (#[trigger] scan_before(h, k, mode)[i]).line <= k by {
            if i < a.len() {
                assert(scan_before(h, k, mode)[i] == a[i]);
            } else {
                assert(scan_before(h, k, mode)[i] == e[i - a.len()]);
            }
        }
    }
}

proof fn lemma_line_start_nonneg(h: Seq<u8>, k: nat)
    ensures
        line_start(h, k) >= 0,
    decreases k,
{
    if k > 0 {
        lemma_line_start_nonneg(h, (k - 1) as nat);
        let q = line_start(h, (k - 1) as nat);
        if q < h.len() {
            lemma_line_end_bounds(h, q);
        }
    }
}

/// The findings of a whole file that carry the number of line `k + 1` are
/// exactly what that line yields on its own: so what the per-line law says
/// of a line holds of the file's findings at that line number.
#[verifier::spinoff_prover]
#[verifier::rlimit(60)]
pub proof fn lemma_line_findings(h: Seq<u8>, k: nat, mode: Mode)
    requires
        line_start(h, k) < h.len(),
    ensures
        scan(h, mode).filter(|f: Found| f.line == k + 1) == entry(h, line_start(h, k), k + 1 as int, mode),
{
    let pred = |f: Found| f.line == k + 1;
    let q = line_start(h, k);
    lemma_line_start_nonneg(h, k);
    lemma_scan_prefix(h, k, mode);
    lemma_line_end_bounds(h, q);
    let a = scan_before(h, k, mode);
    let e = entry(h, q, k + 1 as int, mode);
    let rest = scan_from(h, line_end(h, q), k + 2 as int, mode);
    assert(scan_from(h, q, k + 1 as int, mode) == e + rest);
    lemma_scan_from_lines(h, line_end(h, q), k + 2 as int, mode);
    lemma_entry_line(h, q, k + 1 as int, mode);
    Seq::<Found>::filter_distributes_over_add(a, e + rest, pred);
    Seq::<Found>::filter_distributes_over_add(e, rest, pred);
    assert(a.all(|x: Found| !pred(x))) by {
        assert forall|i: int| 0 <= i < a.len() implies !pred(#[trigger] a[i]) by {}
    }
    a.lemma_all_neg_filter_empty(pred);
    assert(rest.all(|x: Found| !pred(x))) by {
        assert forall|i: int| 0 <= i < rest.len() implies !pred(#[trigger] rest[i]) by {}
    }
    rest.lemma_all_neg_filter_empty(pred);
    if e.len() == 0 {
        e.lemma_filter_len(pred);
        assert(e.filter(pred) =~= e);
    } else {
        assert(e =~= Seq::<Found>::empty().push(e[0]));
        Seq::<Found>::empty().lemma_filter_push(e[0], pred);
        assert(Seq::<Found>::empty().filter(pred) =~= Seq::<Found>::empty()) by {
            Seq::<Found>::empty().lemma_filter_len(pred);
        }
    }
    assert(a.filter(pred) =~= Seq::<Found>::empty());
    assert(rest.filter(pred) =~= Seq::<Found>::empty());
    assert(scan(h, mode).filter(pred) =~= e.filter(pred));
}

/// The findings of a whole file that carry line number `k + 1`.
pub open spec fn line_findings(h: Seq<u8>, k: nat, mode: Mode) -> Seq<Found> {
    scan(h, mode).filter(|f: Found| f.line == k + 1)
}

/// The classification law on a whole file, for line `k + 1` (valid UTF-8)
/// that is, after optional whitespace, a comment marker, optional whitespace
/// and `TODO:` or `TODO(#<digits>):`: listing finds exactly one TODO on it,
/// with the tag-insertion offset just after its `TODO`; reporting finds it
/// exactly when untagged, purging exactly when tagged with a number that
/// fits a `u64`, which it carries. A line that starts with a marker followed
/// by anything else, whose first marker is not followed by a TODO, that
/// holds no marker, or that is not valid UTF-8 has no findings.
#[verifier::spinoff_prover]
#[verifier::rlimit(80)]
pub proof fn lemma_file_classification(h: Seq<u8>, k: nat, mode: Mode)
    requires
        line_start(h, k) < h.len() <= usize::MAX,
    ensures
        ({
            let ls = line_start(h, k);
            let s = h.subrange(ls, line_end(h, ls));
            let c = content_start(s);
            let listed = line_findings(h, k, Mode::Listing);
            let reported = line_findings(h, k, Mode::Reporting);
            let purged = line_findings(h, k, Mode::Purging);
            &&& starts_with_marker(s) && vstd::utf8::valid_utf8(s) && todo_head(s, c) is Some
                ==> {
                &&& listed.len() == 1 && listed[0].offset == ls + c + 4
                &&& has_at(h, ls + c, crate::todo::lit_todo())
                &&& !todo_head(s, c)->Some_0.0 ==> reported.len() == 1 && reported[0].offset == ls
                    + c + 4 && purged.len() == 0
                &&& todo_head(s, c)->Some_0.0 ==> reported.len() == 0
                &&& todo_head(s, c)->Some_0.0 && tag_number(s, c) <= u64::MAX ==> purged.len() == 1
                    && purged[0].offset == ls + c + 4 && purged[0].issue_number == tag_number(s, c)
                &&& todo_head(s, c)->Some_0.0 && tag_number(s, c) > u64::MAX ==> purged.len() == 0
            }
            &&& starts_with_marker(s) && todo_head(s, c) is None ==> line_findings(h, k, mode).len()
                == 0
            &&& !vstd::utf8::valid_utf8(s) ==> line_findings(h, k, mode).len() == 0
            &&& no_todo_after_first_marker(s) ==> line_findings(h, k, mode).len() == 0
            &&& (forall|j: int| 0 <= j < s.len() ==> marker_len_at(s, j) == 0) ==> line_findings(
                h,
                k,
                mode,
            ).len() == 0
        }),
{
    let ls = line_start(h, k);
    lemma_line_start_nonneg(h, k);
    lemma_line_findings(h, k, Mode::Listing);
    lemma_line_findings(h, k, Mode::Reporting);
    lemma_line_findings(h, k, Mode::Purging);
    lemma_line_findings(h, k, mode);
    assert(line_findings(h, k, Mode::Listing) == entry(h, ls, k + 1 as int, Mode::Listing));
    assert(line_findings(h, k, Mode::Reporting) == entry(h, ls, k + 1 as int, Mode::Reporting));
    assert(line_findings(h, k, Mode::Purging) == entry(h, ls, k + 1 as int, Mode::Purging));
    assert(line_findings(h, k, mode) == entry(h, ls, k + 1 as int, mode));
    lemma_todo_classification(h, ls, k + 1 as int, mode);
}

} // verus!
