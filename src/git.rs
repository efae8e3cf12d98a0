use vstd::prelude::*;
use vstd::string::StringSliceAdditionalSpecFns;
use crate::text::{has_at, line_end, lossy_text, next_line_end, skip_ws, skip_ws_back, text_of, trim, leading_ws, bytes_at};
use crate::util::{find_bytes, find_from};

verus! {

/// The value of a `key = value` line: what follows the first `=`, up to a
/// second `=`, trimmed.
pub open spec fn value_of(t: Seq<u8>) -> Option<Seq<u8>> {
    match find_from(t, seq![0x3du8], 0) {
        None => None,
        Some(i) => {
            let rest = t.skip(i + 1);
            let e = match find_from(rest, seq![0x3du8], 0) {
                Some(e) => e,
                None => rest.len() as int,
            };
            Some(trim(rest.take(e)))
        },
    }
}

/// Looks through the lines of a git config from `p` on for the first line
/// that starts with `key` inside a matching section, and gives its value.
/// A line that starts with `opener` opens a section: a matching one when
/// `quoted` is `None`, else when the line holds `quoted`. With `reset`, any
/// other line that starts with `[` closes the section.
pub open spec fn section_value(
    h: Seq<u8>,
    p: int,
    inside: bool,
    opener: Seq<u8>,
    quoted: Option<Seq<u8>>,
    reset: bool,
    key: Seq<u8>,
) -> Option<Seq<u8>>
    decreases h.len() - p,
{
    if p < 0 || p >= h.len() || line_end(h, p) <= p || line_end(h, p) > h.len() {
        None
    } else {
        let le = line_end(h, p);
        let t = trim(h.subrange(p, le));
        if has_at(t, 0, opener) {
            let now = match quoted {
                Some(q) => find_from(t, q, 0) is Some,
                None => true,
            };
            section_value(h, le, now, opener, quoted, reset, key)
        } else if reset && has_at(t, 0, seq![0x5bu8]) {
            section_value(h, le, false, opener, quoted, reset, key)
        } else if inside && has_at(t, 0, key) {
            value_of(t)
        } else {
            section_value(h, le, inside, opener, quoted, reset, key)
        }
    }
}

fn value_in(t: &[u8]) -> (r: Option<(usize, usize)>)
    ensures
        value_of(t@) is None ==> r is None,
        value_of(t@) matches Some(v) ==> (r matches Some((a, b)) && a <= b <= t@.len() && t@.subrange(a as int, b as int) == v),
{
    let eq: [u8; 1] = [0x3du8];
    assert(eq@ =~= seq![0x3du8]);
    let n = t.len();
    match find_bytes(t, eq.as_slice(), 0) {
        None => None,
        Some(i) => {
            let rest = &t[i + 1..n];
            assert(rest@ =~= t@.skip(i + 1));
            let e = match find_bytes(rest, eq.as_slice(), 0) {
                Some(e) => e,
                None => rest.len(),
            };
            let a = skip_ws(rest, 0, e);
            let b = skip_ws_back(rest, a, e);
            proof {
                let x = rest@.take(e as int);
                assert(x =~= rest@.subrange(0, e as int));
                assert(x.skip(leading_ws(x) as int) =~= rest@.subrange(a as int, e as int));
                assert(trim(x) =~= rest@.subrange(a as int, b as int));
                assert(t@.subrange(i + 1 + a, i + 1 + b) =~= rest@.subrange(a as int, b as int));
            }
            Some((i + 1 + a, i + 1 + b))
        },
    }
}

/// Computes `section_value` from the start of `h`.
pub fn find_section_value(h: &[u8], opener: &[u8], quoted: Option<&[u8]>, reset: bool, key: &[u8]) -> (r: Option<String>)
    ensures
        ({
            let q = match quoted { Some(q) => Some(q@), None => None };
            &&& section_value(h@, 0, false, opener@, q, reset, key@) is None ==> r is None
            &&& section_value(h@, 0, false, opener@, q, reset, key@) matches Some(v) ==> (r matches Some(s) && s@ == lossy_text(v))
        }),
{
    let ghost q = match quoted { Some(q) => Some(q@), None => None };
    let n = h.len();
    let mut p: usize = 0;
    let mut inside = false;
    let bracket: [u8; 1] = [0x5bu8];
    assert(bracket@ =~= seq![0x5bu8]);
    while p < n
        invariant
            n == h@.len(),
            p <= n,
            bracket@ == seq![0x5bu8],
            q == match quoted { Some(q) => Some(q@), None => None::<Seq<u8>> },
            section_value(h@, p as int, inside, opener@, q, reset, key@) == section_value(h@, 0, false, opener@, q, reset, key@),
        decreases n - p,
    {
        let le = next_line_end(h, p);
        let a = skip_ws(h, p, le);
        let b = skip_ws_back(h, a, le);
        let t = &h[a..b];
        proof {
            let line = h@.subrange(p as int, le as int);
            assert(line.skip(leading_ws(line) as int) =~= h@.subrange(a as int, le as int));
            assert(trim(line) =~= t@);
        }
        if bytes_at(t, 0, opener) {
            inside = match quoted {
                Some(qq) => find_bytes(t, qq, 0).is_some(),
                None => true,
            };
        } else if reset && bytes_at(t, 0, bracket.as_slice()) {
            inside = false;
        } else if inside && bytes_at(t, 0, key) {
            return match value_in(t) {
                None => None,
                Some((x, y)) => Some(text_of(&t[x..y])),
            };
        }
        p = le;
    }
    None
}

/// The bytes `"<name>"`.
fn quoted_name(name: &[u8]) -> (r: Vec<u8>)
    ensures
        r@ == seq![0x22u8] + name@ + seq![0x22u8],
{
    let mut v: Vec<u8> = Vec::new();
    v.push(0x22u8);
    let mut i: usize = 0;
    while i < name.len()
        invariant
            i <= name@.len(),
            v@ == seq![0x22u8] + name@.take(i as int),
        decreases name@.len() - i,
    {
        v.push(name[i]);
        assert(name@.take(i + 1) =~= name@.take(i as int).push(name@[i as int]));
        assert(v@ =~= seq![0x22u8] + name@.take(i + 1));
        i = i + 1;
    }
    v.push(0x22u8);
    assert(name@.take(name@.len() as int) =~= name@);
    assert(v@ =~= seq![0x22u8] + name@ + seq![0x22u8]);
    v
}

pub open spec fn lit_remote_open() -> Seq<u8> {
    seq![0x5bu8, 0x72u8, 0x65u8, 0x6du8, 0x6fu8, 0x74u8, 0x65u8, 0x20u8, 0x22u8]
}

pub open spec fn lit_url() -> Seq<u8> {
    seq![0x75u8, 0x72u8, 0x6cu8]
}

/// The `url` of the section `[remote "<remote>"]` of a git config.
pub fn find_remote_url(contents: &str, remote: &str) -> (r: Option<String>)
    ensures
        ({
            let v = section_value(contents.spec_bytes(), 0, false, lit_remote_open(), Some(seq![0x22u8] + remote.spec_bytes() + seq![0x22u8]), false, lit_url());
            &&& v is None ==> r is None
            &&& v matches Some(x) ==> (r matches Some(s) && s@ == lossy_text(x))
        }),
{
    let open: [u8; 9] = [0x5bu8, 0x72u8, 0x65u8, 0x6du8, 0x6fu8, 0x74u8, 0x65u8, 0x20u8, 0x22u8];
    let url: [u8; 3] = [0x75u8, 0x72u8, 0x6cu8];
    assert(open@ =~= lit_remote_open());
    assert(url@ =~= lit_url());
    let q = quoted_name(remote.as_bytes());
    find_section_value(contents.as_bytes(), open.as_slice(), Some(q.as_slice()), false, url.as_slice())
}

/// The `url` of the first remote section of a git config.
pub fn find_any_remote_url(contents: &str) -> (r: Option<String>)
    ensures
        ({
            let v = section_value(contents.spec_bytes(), 0, false, lit_remote_open(), None, false, lit_url());
            &&& v is None ==> r is None
            &&& v matches Some(x) ==> (r matches Some(s) && s@ == lossy_text(x))
        }),
{
    let open: [u8; 9] = [0x5bu8, 0x72u8, 0x65u8, 0x6du8, 0x6fu8, 0x74u8, 0x65u8, 0x20u8, 0x22u8];
    let url: [u8; 3] = [0x75u8, 0x72u8, 0x6cu8];
    assert(open@ =~= lit_remote_open());
    assert(url@ =~= lit_url());
    find_section_value(contents.as_bytes(), open.as_slice(), None, false, url.as_slice())
}

pub open spec fn lit_remote_section() -> Seq<u8> {
    seq![0x5bu8, 0x72u8, 0x65u8, 0x6du8, 0x6fu8, 0x74u8, 0x65u8, 0x5du8]
}

pub open spec fn lit_push_default() -> Seq<u8> {
    seq![0x70u8, 0x75u8, 0x73u8, 0x68u8, 0x44u8, 0x65u8, 0x66u8, 0x61u8, 0x75u8, 0x6cu8, 0x74u8]
}

/// The `pushDefault` of the `[remote]` section of a git config.
pub fn find_push_default(contents: &str) -> (r: Option<String>)
    ensures
        ({
            let v = section_value(contents.spec_bytes(), 0, false, lit_remote_section(), None, true, lit_push_default());
            &&& v is None ==> r is None
            &&& v matches Some(x) ==> (r matches Some(s) && s@ == lossy_text(x))
        }),
{
    let open: [u8; 8] = [0x5bu8, 0x72u8, 0x65u8, 0x6du8, 0x6fu8, 0x74u8, 0x65u8, 0x5du8];
    let key: [u8; 11] = [0x70u8, 0x75u8, 0x73u8, 0x68u8, 0x44u8, 0x65u8, 0x66u8, 0x61u8, 0x75u8, 0x6cu8, 0x74u8];
    assert(open@ =~= lit_remote_section());
    assert(key@ =~= lit_push_default());
    find_section_value(contents.as_bytes(), open.as_slice(), None, true, key.as_slice())
}

pub open spec fn lit_head_ref() -> Seq<u8> {
    seq![0x72u8, 0x65u8, 0x66u8, 0x3au8, 0x20u8, 0x72u8, 0x65u8, 0x66u8, 0x73u8, 0x2fu8, 0x68u8,
        0x65u8, 0x61u8, 0x64u8, 0x73u8, 0x2fu8]
}

pub open spec fn lit_branch_open() -> Seq<u8> {
    seq![0x5bu8, 0x62u8, 0x72u8, 0x61u8, 0x6eu8, 0x63u8, 0x68u8, 0x20u8]
}

pub open spec fn lit_remote_key() -> Seq<u8> {
    seq![0x72u8, 0x65u8, 0x6du8, 0x6fu8, 0x74u8, 0x65u8]
}

/// The branch that `.git/HEAD` names, when it is `ref: refs/heads/<name>`.
pub open spec fn head_branch(head: Seq<u8>) -> Option<Seq<u8>> {
    if has_at(head, 0, lit_head_ref()) {
        Some(trim(head.skip(16)))
    } else {
        None
    }
}

/// The `remote` of the current branch's section, given the contents of
/// `.git/HEAD` and of the git config.
pub fn find_current_branch_remote(head: &str, contents: &str) -> (r: Option<String>)
    ensures
        head_branch(head.spec_bytes()) is None ==> r is None,
        head_branch(head.spec_bytes()) matches Some(name) ==> ({
            let v = section_value(contents.spec_bytes(), 0, false, lit_branch_open() + seq![0x22u8] + name + seq![0x22u8, 0x5du8], None, true, lit_remote_key());
            &&& v is None ==> r is None
            &&& v matches Some(x) ==> (r matches Some(s) && s@ == lossy_text(x))
        }),
{
    let hb = head.as_bytes();
    let prefix: [u8; 16] = [0x72u8, 0x65u8, 0x66u8, 0x3au8, 0x20u8, 0x72u8, 0x65u8, 0x66u8, 0x73u8, 0x2fu8, 0x68u8,
        0x65u8, 0x61u8, 0x64u8, 0x73u8, 0x2fu8];
    assert(prefix@ =~= lit_head_ref());
    if !bytes_at(hb, 0, prefix.as_slice()) {
        return None;
    }
    let n = hb.len();
    let a = skip_ws(hb, 16, n);
    let b = skip_ws_back(hb, a, n);
    proof {
        let x = hb@.skip(16);
        assert(x =~= hb@.subrange(16, n as int));
        assert(x.skip(leading_ws(x) as int) =~= hb@.subrange(a as int, n as int));
        assert(trim(x) =~= hb@.subrange(a as int, b as int));
    }
    let mut open: Vec<u8> = Vec::new();
    open.push(0x5bu8);
    open.push(0x62u8);
    open.push(0x72u8);
    open.push(0x61u8);
    open.push(0x6eu8);
    open.push(0x63u8);
    open.push(0x68u8);
    open.push(0x20u8);
    open.push(0x22u8);
    let ghost start = open@;
    let mut i: usize = a;
    while i < b
        invariant
            a <= i <= b <= hb@.len(),
            open@ == start + hb@.subrange(a as int, i as int),
        decreases b - i,
    {
        open.push(hb[i]);
        assert(open@ =~= start + hb@.subrange(a as int, i + 1));
        i = i + 1;
    }
    open.push(0x22u8);
    open.push(0x5du8);
    assert(open@ =~= lit_branch_open() + seq![0x22u8] + hb@.subrange(a as int, b as int) + seq![0x22u8, 0x5du8]);
    let key: [u8; 6] = [0x72u8, 0x65u8, 0x6du8, 0x6fu8, 0x74u8, 0x65u8];
    assert(key@ =~= lit_remote_key());
    find_section_value(contents.as_bytes(), open.as_slice(), None, true, key.as_slice())
}

/// The `url` of the section `[remote "<remote>"]`, as bytes.
pub open spec fn remote_url_at(c: Seq<u8>, remote: Seq<u8>) -> Option<Seq<u8>> {
    section_value(c, 0, false, lit_remote_open(), Some(seq![0x22u8] + remote + seq![0x22u8]), false, lit_url())
}

/// Text in its UTF-8 bytes.
pub open spec fn utf8(t: Seq<char>) -> Seq<u8> {
    vstd::utf8::encode_utf8(t)
}

/// The remote URL that a git config gives for `remote`: that remote's
/// `url`; else the `url` of the `pushDefault` remote; else the `url` of the
/// current branch's remote (when `.git/HEAD` names a branch); else the
/// `url` of the first remote.
pub open spec fn origin_url(c: Seq<u8>, remote: Seq<u8>, head: Option<Seq<u8>>) -> Option<Seq<u8>> {
    let pd = section_value(c, 0, false, lit_remote_section(), None, true, lit_push_default());
    let br = match head {
        Some(h) => match head_branch(h) {
            Some(name) => section_value(c, 0, false, lit_branch_open() + seq![0x22u8] + name + seq![0x22u8, 0x5du8], None, true, lit_remote_key()),
            None => None,
        },
        None => None,
    };
    if remote_url_at(c, remote) is Some {
        remote_url_at(c, remote)
    } else if pd is Some && remote_url_at(c, utf8(lossy_text(pd->Some_0))) is Some {
        remote_url_at(c, utf8(lossy_text(pd->Some_0)))
    } else if br is Some && remote_url_at(c, utf8(lossy_text(br->Some_0))) is Some {
        remote_url_at(c, utf8(lossy_text(br->Some_0)))
    } else {
        section_value(c, 0, false, lit_remote_open(), None, false, lit_url())
    }
}

/// The URL of the remote to use, from the contents of the git config and
/// of `.git/HEAD` (when it could be read).
pub fn git_remote_url(contents: &str, remote: &str, head: Option<&str>) -> (r: Option<String>)
    ensures
        ({
            let h = match head { Some(h) => Some(h.spec_bytes()), None => None };
            let v = origin_url(contents.spec_bytes(), remote.spec_bytes(), h);
            &&& v is None ==> r is None
            &&& v matches Some(x) ==> (r matches Some(s) && s@ == lossy_text(x))
        }),
{
    if let Some(url) = find_remote_url(contents, remote) {
        return Some(url);
    }
    if let Some(pd) = find_push_default(contents) {
        if let Some(url) = find_remote_url(contents, pd.as_str()) {
            return Some(url);
        }
    }
    if let Some(h) = head {
        if let Some(br) = find_current_branch_remote(h, contents) {
            if let Some(url) = find_remote_url(contents, br.as_str()) {
                return Some(url);
            }
        }
    }
    find_any_remote_url(contents)
}

} // verus!
