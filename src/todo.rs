use vstd::prelude::*;
use vstd::string::{StringExecFns, StringSliceAdditionalSpecFns};
use crate::comment::{Comment, comment_start_offset, comment_start_trimmed, kind_comment_end};
use crate::loc::Loc;
use crate::util::{find_bytes, find_from};
use crate::text::{
    bytes_at, has_at, leading_digits, leading_ws, line_end, lossy_text, next_line_end,
    skip_digits, skip_ws, skip_ws_back, text_of, trim, trim_end,
};

verus! {

pub open spec fn lit_todo() -> Seq<u8> {
    seq![0x54u8, 0x4fu8, 0x44u8, 0x4fu8]
}

pub open spec fn lit_todo_colon() -> Seq<u8> {
    seq![0x54u8, 0x4fu8, 0x44u8, 0x4fu8, 0x3au8]
}

pub open spec fn lit_todo_paren() -> Seq<u8> {
    seq![0x54u8, 0x4fu8, 0x44u8, 0x4fu8, 0x28u8]
}

pub open spec fn lit_todo_tag_open() -> Seq<u8> {
    seq![0x54u8, 0x4fu8, 0x44u8, 0x4fu8, 0x28u8, 0x23u8]
}

pub open spec fn lit_tag_close() -> Seq<u8> {
    seq![0x29u8, 0x3au8]
}

/// The head of a TODO at `c` in `s`: whether it carries a tag, and where the
/// text after its colon starts. `TODO:` is untagged; `TODO(#<digits>):` is
/// tagged; anything else is no TODO.
pub open spec fn todo_head(s: Seq<u8>, c: int) -> Option<(bool, int)> {
    if has_at(s, c, lit_todo_colon()) {
        Some((false, c + 5))
    } else if has_at(s, c, lit_todo_tag_open()) && leading_digits(s.skip(c + 6)) > 0 && has_at(
        s,
        c + 6 + leading_digits(s.skip(c + 6)),
        lit_tag_close(),
    ) {
        Some((true, c + 8 + leading_digits(s.skip(c + 6))))
    } else {
        None
    }
}

/// The head of a TODO's text at `c` in `s`, read loosely: `TODO`, optional
/// whitespace, then either `:` (untagged) or `(` whose first `)` is followed
/// directly by `:` (tagged, whatever stands in the parentheses). Gives
/// whether it is tagged and where the text after that `:` starts.
pub open spec fn title_head(s: Seq<u8>, c: int) -> Option<(bool, int)> {
    if !has_at(s, c, lit_todo()) {
        None
    } else {
        let r = c + 4 + leading_ws(s.skip(c + 4));
        if r < s.len() && s[r] == 0x3au8 {
            Some((false, r + 1))
        } else if r < s.len() && s[r] == 0x28u8 {
            match find_from(s, seq![0x29u8], r + 1) {
                Some(k) => if k + 1 < s.len() && s[k + 1] == 0x3au8 {
                    Some((true, k + 2))
                } else {
                    None
                },
                None => None,
            }
        } else {
            None
        }
    }
}

/// The loose head of a TODO at `c`, computed.
pub fn title_head_at(s: &[u8], c: usize) -> (r: Option<(bool, usize)>)
    requires
        c <= s@.len(),
    ensures
        r matches Some(x) ==> title_head(s@, c as int) == Some((x.0, x.1 as int)),
        r is None ==> title_head(s@, c as int) is None,
{
    let todo: [u8; 4] = [0x54u8, 0x4fu8, 0x44u8, 0x4fu8];
    assert(todo@ =~= lit_todo());
    if !bytes_at(s, c, todo.as_slice()) {
        return None;
    }
    let n = s.len();
    let r = skip_ws(s, c + 4, n);
    assert(s@.skip(c + 4) =~= s@.subrange(c + 4, n as int));
    if r < n && s[r] == 0x3au8 {
        return Some((false, r + 1));
    }
    if r < n && s[r] == 0x28u8 {
        let close: [u8; 1] = [0x29u8];
        assert(close@ =~= seq![0x29u8]);
        match find_bytes(s, close.as_slice(), r + 1) {
            Some(k) => {
                if k + 1 < n && s[k + 1] == 0x3au8 {
                    return Some((true, k + 2));
                }
            },
            None => {},
        }
    }
    None
}

/// `s` without the run of closing `*/` at its end.
pub open spec fn strip_closes(s: Seq<u8>) -> Seq<u8>
    decreases s.len(),
{
    if s.len() >= 2 && s[s.len() - 2] == 0x2au8 && s[s.len() - 1] == 0x2fu8 {
        strip_closes(s.take(s.len() - 2))
    } else {
        s
    }
}

/// A TODO's title from the text after its colon: trimmed, without the run
/// of closing `*/` at its end, and trimmed again.
pub open spec fn title_of(s: Seq<u8>) -> Seq<u8> {
    trim_end(strip_closes(trim(s)))
}

/// Whether a line of text opens a new TODO.
pub open spec fn starts_todo(t: Seq<u8>) -> bool {
    has_at(t, 0, lit_todo_colon()) || has_at(t, 0, lit_todo_paren())
}

/// `t` without a final `\n`.
pub open spec fn drop_newline(t: Seq<u8>) -> Seq<u8> {
    if t.len() > 0 && t.last() == 0x0au8 {
        t.drop_last()
    } else {
        t
    }
}

/// The description text of one line: for a line comment kind, when the
/// line starts with the kind's marker, the line without its leading
/// whitespace, runs of comment markers and the whitespace after them, and
/// without its final newline (no text when the line has no such marker);
/// inside a block comment, the trimmed line without closing `*/`s.
pub open spec fn desc_text(kind: Option<Comment>, line: Seq<u8>) -> Option<Seq<u8>> {
    match kind {
        Some(c) => match kind_comment_end(c, line) {
            Some(_) => Some(drop_newline(comment_start_trimmed(line))),
            None => None,
        },
        None => Some(title_of(line)),
    }
}

/// The description lines that start at `p` in `h`, and where they end:
/// consecutive lines before `limit` with a non-empty text that opens no new
/// TODO.
pub open spec fn desc_from(kind: Option<Comment>, h: Seq<u8>, p: int, limit: int) -> (
    Seq<Seq<u8>>,
    int,
)
    decreases limit - p,
{
    if p < 0 || p >= limit || limit > h.len() || line_end(h, p) <= p {
        (seq![], p)
    } else {
        let le = if line_end(h, p) < limit {
            line_end(h, p)
        } else {
            limit
        };
        match desc_text(kind, h.subrange(p, le)) {
            None => (seq![], p),
            Some(t) => if t.len() == 0 || starts_todo(t) {
                (seq![], p)
            } else {
                let rest = desc_from(kind, h, le, limit);
                (seq![t].add(rest.0), rest.1)
            },
        }
    }
}

/// The lines of `h`, each without its `\n`.
pub open spec fn lines_of(h: Seq<u8>, p: int) -> Seq<Seq<u8>>
    decreases h.len() - p,
{
    if p < 0 || p >= h.len() || line_end(h, p) <= p || line_end(h, p) > h.len() {
        seq![]
    } else {
        seq![h.subrange(p, line_end(h, p))].add(lines_of(h, line_end(h, p)))
    }
}

/// The text lines under a TODO.
#[derive(Debug)]
pub struct Description {
    pub lines: Vec<String>,
}

/// A description laid out for the terminal, each line indented.
pub struct DisplayDescription {
    pub lines: Vec<String>,
    pub line_start_offset: usize,
}

/// Whether the strings hold the given texts, one for one.
pub open spec fn texts_are(v: Seq<String>, t: Seq<Seq<u8>>) -> bool {
    v.len() == t.len() && forall|i: int| 0 <= i < v.len() ==> #[trigger] v[i]@ == lossy_text(t[i])
}

impl Description {
    /// One line of description per line of `s`, each trimmed.
    pub fn from_str(s: &str) -> (r: Description)
        ensures
            r.lines@.len() == lines_of(s.spec_bytes(), 0).len(),
            forall|i: int|
                0 <= i < r.lines@.len() ==> #[trigger] r.lines@[i]@ == lossy_text(
                    trim(lines_of(s.spec_bytes(), 0)[i]),
                ),
    {
        let h = s.as_bytes();
        let mut lines: Vec<String> = Vec::new();
        let mut p: usize = 0;
        while p < h.len()
            invariant
                p <= h@.len(),
                lines@.len() + lines_of(h@, p as int).len() == lines_of(h@, 0).len(),
                forall|i: int|
                    0 <= i < lines@.len() ==> #[trigger] lines@[i]@ == lossy_text(
                        trim(lines_of(h@, 0)[i]),
                    ),
                forall|i: int|
                    0 <= i < lines_of(h@, p as int).len() ==> lines_of(h@, 0)[lines@.len() + i]
                        == #[trigger] lines_of(h@, p as int)[i],
            decreases h@.len() - p,
        {
            let le = next_line_end(h, p);
            let a = skip_ws(h, p, le);
            let b = skip_ws_back(h, a, le);
            proof {
                let line = h@.subrange(p as int, le as int);
                assert(line.skip(leading_ws(line) as int) =~= h@.subrange(a as int, le as int));
                assert(trim(line) =~= h@.subrange(a as int, b as int));
                assert(lines_of(h@, p as int)[0] == line);
                assert forall|i: int|
                    0 <= i < lines_of(h@, le as int).len() implies lines_of(h@, 0)[lines@.len() + 1
                    + i] == #[trigger] lines_of(h@, le as int)[i] by {
                    assert(lines_of(h@, p as int)[i + 1] == lines_of(h@, le as int)[i]);
                }
            }
            lines.push(text_of(&h[a..b]));
            p = le;
        }
        Description { lines }
    }

    /// The description indented by `line_start_offset` spaces.
    pub fn display(&self, line_start_offset: usize) -> (r: DisplayDescription)
        ensures
            r.line_start_offset == line_start_offset,
            r.lines@.len() == self.lines@.len(),
            forall|i: int| 0 <= i < r.lines@.len() ==> #[trigger] r.lines@[i]@ == self.lines@[i]@,
    {
        let mut lines: Vec<String> = Vec::new();
        let mut i: usize = 0;
        while i < self.lines.len()
            invariant
                i <= self.lines@.len(),
                lines@.len() == i,
                forall|k: int| 0 <= k < i ==> #[trigger] lines@[k]@ == self.lines@[k]@,
            decreases self.lines@.len() - i,
        {
            lines.push(self.lines[i].clone());
            i = i + 1;
        }
        DisplayDescription { lines, line_start_offset }
    }
}

/// A TODO annotation found in a file.
#[derive(Debug)]
pub struct Todo {
    pub loc: Loc,
    pub preview: String,
    pub title: String,
    pub tag_insertion_offset: usize,
    pub description: Option<Description>,
}

/// Whether `d` holds the texts `t`.
pub open spec fn description_is(d: Option<Description>, t: Option<Seq<Seq<u8>>>) -> bool {
    match (d, t) {
        (None, None) => true,
        (Some(d), Some(t)) => texts_are(d.lines@, t),
        _ => false,
    }
}

/// The head of a TODO at `c`, computed.
pub fn todo_head_at(s: &[u8], c: usize) -> (r: Option<(bool, usize)>)
    requires
        c <= s@.len(),
    ensures
        r matches Some(x) ==> todo_head(s@, c as int) == Some((x.0, x.1 as int)),
        r is None ==> todo_head(s@, c as int) is None,
{
    let colon: [u8; 5] = [0x54u8, 0x4fu8, 0x44u8, 0x4fu8, 0x3au8];
    let open: [u8; 6] = [0x54u8, 0x4fu8, 0x44u8, 0x4fu8, 0x28u8, 0x23u8];
    let close: [u8; 2] = [0x29u8, 0x3au8];
    let n = s.len();
    assert(colon@ =~= lit_todo_colon());
    assert(open@ =~= lit_todo_tag_open());
    assert(close@ =~= lit_tag_close());
    if bytes_at(s, c, colon.as_slice()) {
        return Some((false, c + 5));
    }
    if !bytes_at(s, c, open.as_slice()) {
        return None;
    }
    let d = skip_digits(s, c + 6);
    if d == c + 6 {
        return None;
    }
    if bytes_at(s, d, close.as_slice()) {
        Some((true, d + 2))
    } else {
        None
    }
}

/// The title that follows index `t` of `s`, as a range of `s`.
pub fn title_range(s: &[u8], t: usize) -> (r: (usize, usize))
    requires
        t <= s@.len(),
    ensures
        t <= r.0 <= r.1 <= s@.len(),
        s@.subrange(r.0 as int, r.1 as int) == title_of(s@.skip(t as int)),
{
    let n = s.len();
    let a = skip_ws(s, t, n);
    let b = skip_ws_back(s, a, n);
    proof {
        let x = s@.skip(t as int);
        assert(x =~= s@.subrange(t as int, s@.len() as int));
        assert(x.skip(leading_ws(x) as int) =~= s@.subrange(a as int, s@.len() as int));
        assert(trim(x) =~= s@.subrange(a as int, b as int));
    }
    let mut c = b;
    while c - a >= 2 && s[c - 2] == 0x2au8 && s[c - 1] == 0x2fu8
        invariant
            a <= c <= b <= n,
            n == s@.len(),
            strip_closes(s@.subrange(a as int, c as int)) == strip_closes(s@.subrange(
                a as int,
                b as int,
            )),
        decreases c - a,
    {
        assert(s@.subrange(a as int, c as int).take(c - a - 2) =~= s@.subrange(a as int, c - 2));
        c = c - 2;
    }
    let e = skip_ws_back(s, a, c);
    proof {
        assert(strip_closes(s@.subrange(a as int, c as int)) == s@.subrange(a as int, c as int));
        assert(trim_end(s@.subrange(a as int, c as int)) =~= s@.subrange(a as int, e as int));
    }
    (a, e)
}

impl Todo {
    /// The title of a TODO comment line, and whether it carries a tag: after
    /// the comment markers, `TODO`, optional whitespace, then `:`, or a
    /// parenthesised tag (any text up to the first `)`) and `:`. The title is
    /// the text after that colon, trimmed and without a closing `*/`. A line
    /// whose text opens no TODO gives its whole text as the title.
    pub fn extract_todo_title(h: &str) -> (r: (String, bool))
        ensures
            ({
                let b = h.spec_bytes();
                let c = b.len() - comment_start_trimmed(b).len();
                match title_head(b, c) {
                    Some((tagged, t)) => r.0@ == lossy_text(title_of(b.skip(t))) && r.1
                        == tagged,
                    None => r.0@ == lossy_text(title_of(comment_start_trimmed(b))) && !r.1,
                }
            }),
    {
        let b = h.as_bytes();
        let c = comment_start_offset(b);
        match title_head_at(b, c) {
            Some((tagged, t)) => {
                let (x, y) = title_range(b, t);
                (text_of(&b[x..y]), tagged)
            },
            None => {
                let (x, y) = title_range(b, c);
                (text_of(&b[x..y]), false)
            },
        }
    }

    /// The body text that goes with the issue: the description lines joined
    /// by newlines.
    pub fn issue_body(&self) -> (r: Option<String>)
        ensures
            self.description is None ==> r is None,
            self.description matches Some(d) ==> (r matches Some(b) && b@ == joined(
                d.lines@.map_values(|l: String| l@),
            )),
    {
        match &self.description {
            None => None,
            Some(d) => {
                let ghost texts = d.lines@.map_values(|l: String| l@);
                let mut out = String::new();
                let mut i: usize = 0;
                while i < d.lines.len()
                    invariant
                        i <= d.lines@.len(),
                        texts == d.lines@.map_values(|l: String| l@),
                        out@ == joined(texts.take(i as int)),
                    decreases d.lines@.len() - i,
                {
                    if i > 0 {
                        out = out.concat("\n");
                    }
                    out = out.concat(d.lines[i].as_str());
                    proof {
                        assert(texts.take(i + 1).drop_last() =~= texts.take(i as int));
                        assert(texts.take(i + 1).last() == d.lines@[i as int]@);
                    }
                    i = i + 1;
                }
                assert(texts.take(d.lines@.len() as int) =~= texts);
                Some(out)
            },
        }
    }
}

/// Lines joined by newlines.
pub open spec fn joined(lines: Seq<Seq<char>>) -> Seq<char>
    decreases lines.len(),
{
    if lines.len() == 0 {
        seq![]
    } else if lines.len() == 1 {
        lines[0]
    } else {
        joined(lines.drop_last()) + "\n"@ + lines.last()
    }
}

/// The description lines under a TODO, collected from `h[0..limit]`.
pub fn collect_description(h: &[u8], kind: Option<Comment>, start: usize, limit: usize) -> (r: (
    Vec<String>,
    usize,
))
    requires
        start <= limit <= h@.len(),
    ensures
        texts_are(r.0@, desc_from(kind, h@, start as int, limit as int).0),
        r.1 as int == desc_from(kind, h@, start as int, limit as int).1,
{
    let mut lines: Vec<String> = Vec::new();
    let mut p: usize = start;
    let ghost texts: Seq<Seq<u8>> = seq![];
    while p < limit
        invariant
            p <= limit <= h@.len(),
            texts_are(lines@, texts),
            desc_from(kind, h@, start as int, limit as int) == (texts.add(
                desc_from(kind, h@, p as int, limit as int).0,
            ), desc_from(kind, h@, p as int, limit as int).1),
        ensures
            p <= limit <= h@.len(),
            texts_are(lines@, texts),
            desc_from(kind, h@, start as int, limit as int) == (texts.add(
                desc_from(kind, h@, p as int, limit as int).0,
            ), desc_from(kind, h@, p as int, limit as int).1),
            desc_from(kind, h@, p as int, limit as int) == (Seq::<Seq<u8>>::empty(), p as int),
        decreases limit - p,
    {
        let le0 = next_line_end(h, p);
        let le = if le0 < limit {
            le0
        } else {
            limit
        };
        let line = &h[p..le];
        let text: Option<(usize, usize)> = match kind {
            Some(c) => match c.comment_end_of(line) {
                None => None,
                Some(_) => {
                    let n = line.len();
                    let a = comment_start_offset(line);
                    let b = if n > a && line[n - 1] == 0x0au8 {
                        n - 1
                    } else {
                        n
                    };
                    proof {
                        assert(line@.skip(a as int) =~= line@.subrange(a as int, n as int));
                        assert(drop_newline(comment_start_trimmed(line@)) =~= line@.subrange(
                            a as int,
                            b as int,
                        ));
                    }
                    Some((a, b))
                },
            },
            None => {
                let (a, b) = title_range(line, 0);
                assert(line@.skip(0) =~= line@);
                Some((a, b))
            },
        };
        proof {
            assert(line@ == h@.subrange(p as int, le as int));
            match text {
                None => assert(desc_text(kind, line@) is None),
                Some((a, b)) => assert(desc_text(kind, line@) == Some(line@.subrange(a as int, b as int))),
            }
        }
        match text {
            None => {
                break ;
            },
            Some((a, b)) => {
                let tail = &line[a..b];
                let colon: [u8; 5] = [0x54u8, 0x4fu8, 0x44u8, 0x4fu8, 0x3au8];
                let paren: [u8; 5] = [0x54u8, 0x4fu8, 0x44u8, 0x4fu8, 0x28u8];
                assert(colon@ =~= lit_todo_colon());
                assert(paren@ =~= lit_todo_paren());
                if a == b || bytes_at(tail, 0, colon.as_slice()) || bytes_at(
                    tail,
                    0,
                    paren.as_slice(),
                ) {
                    break ;
                }
                let s = text_of(tail);
                proof {
                    let rest = desc_from(kind, h@, le as int, limit as int);
                    assert(seq![tail@].add(rest.0) =~= seq![tail@] + rest.0);
                    assert(texts.push(tail@).add(rest.0) =~= texts.add(seq![tail@].add(rest.0)));
                    texts = texts.push(tail@);
                }
                lines.push(s);
                p = le;
            },
        }
    }
    assert(texts.add(Seq::<Seq<u8>>::empty()) =~= texts);
    (lines, p)
}

impl Todo {
    /// The description under a TODO of the given comment kind: the
    /// consecutive comment lines at the start of `h` that carry text and open
    /// no new TODO, and the offset where they end.
    pub fn extract_todo_description(h: &[u8], comment: Comment) -> (r: Option<(Description, usize)>)
        ensures
            ({
                let d = desc_from(Some(comment), h@, 0, h@.len() as int);
                &&& d.0.len() == 0 ==> r is None
                &&& d.0.len() > 0 ==> (r matches Some(x) && texts_are(x.0.lines@, d.0) && x.1 as int
                    == d.1)
            }),
    {
        let (lines, end) = collect_description(h, Some(comment), 0, h.len());
        if lines.len() == 0 {
            None
        } else {
            Some((Description { lines }, end))
        }
    }
}

} // verus!
