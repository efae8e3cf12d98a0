use vstd::prelude::*;
use vstd::string::StringSliceAdditionalSpecFns;
use crate::text::{bytes_at, decimal, has_at, lossy_text, push_decimal, text_of};

verus! {

/// Thread counts for the scanner pool and the bound on concurrent requests,
/// from the number of CPUs: one or two threads (two from eight CPUs up) are
/// kept for asynchronous work and one for blocking work; the scanner gets
/// the rest, at least one; requests may run eight per asynchronous thread.
pub fn balance_concurrency(cpu_count: usize) -> (r: (usize, usize))
    ensures
        ({
            let reserved_for_async: int = if cpu_count >= 8 {
                2
            } else {
                1
            };
            let rest = cpu_count - reserved_for_async - 1;
            &&& r.0 == if rest >= 1 {
                rest
            } else {
                1
            }
            &&& r.1 == reserved_for_async * 8
        }),
{
    let cpu_count = if cpu_count < 2 {
        2
    } else {
        cpu_count
    };
    let reserved_for_async: usize = if cpu_count >= 8 {
        2
    } else {
        1
    };
    let reserved_for_blocking: usize = 1;
    let reserved_total = reserved_for_async + reserved_for_blocking;
    let rayon_threads = if cpu_count > reserved_total && cpu_count - reserved_total >= 1 {
        cpu_count - reserved_total
    } else {
        1
    };
    (rayon_threads, reserved_for_async * 8)
}

/// How many files may have requests in flight at once when each file runs
/// up to `inner` requests at a time, so that no more than `max_requests`
/// requests are in flight together (at least one file, though).
pub fn file_concurrency(max_requests: usize, inner: usize) -> (r: usize)
    requires
        inner > 0,
    ensures
        r >= 1,
        r == if max_requests / inner >= 1 {
            max_requests / inner
        } else {
            1
        },
        max_requests >= inner ==> r * inner <= max_requests,
{
    let q = max_requests / inner;
    proof {
        assert(q * inner <= max_requests) by (nonlinear_arith)
            requires
                q == max_requests / inner,
                inner > 0,
        ;
    }
    if q >= 1 {
        q
    } else {
        1
    }
}

/// How many blocking insert or purge tasks may run at once.
pub fn inserter_concurrency(cpu_count: usize) -> (r: usize)
    ensures
        r == if cpu_count < 4 {
            cpu_count
        } else {
            4
        },
{
    if cpu_count < 4 {
        cpu_count
    } else {
        4
    }
}

/// The first index at or after `from` where `lit` stands in `s`.
pub open spec fn find_from(s: Seq<u8>, lit: Seq<u8>, from: int) -> Option<int>
    decreases s.len() + 1 - from,
{
    if from < 0 || from + lit.len() > s.len() {
        None
    } else if has_at(s, from, lit) {
        Some(from)
    } else {
        find_from(s, lit, from + 1)
    }
}

/// Finds `lit` in `s` from `from` on.
pub fn find_bytes(s: &[u8], lit: &[u8], from: usize) -> (r: Option<usize>)
    requires
        from <= s@.len(),
    ensures
        r matches Some(i) ==> find_from(s@, lit@, from as int) == Some(i as int) && i + lit@.len()
            <= s@.len(),
        r is None ==> find_from(s@, lit@, from as int) is None,
{
    let n = s.len();
    if lit.len() == 0 {
        assert(s@.subrange(from as int, from as int) =~= lit@);
        return Some(from);
    }
    let mut i: usize = from;
    while i < n && lit.len() <= n - i
        invariant
            n == s@.len(),
            from <= i,
            find_from(s@, lit@, i as int) == find_from(s@, lit@, from as int),
        decreases n + 1 - i,
    {
        if bytes_at(s, i, lit) {
            return Some(i);
        }
        i = i + 1;
    }
    None
}

pub open spec fn lit_github_slash() -> Seq<u8> {
    "github.com/"@.map_values(|c: char| c as u8)
}

pub open spec fn lit_github_colon() -> Seq<u8> {
    "github.com:"@.map_values(|c: char| c as u8)
}

/// Whether `s` ends in `.git`, in any case.
pub open spec fn ends_with_git(s: Seq<u8>) -> bool {
    &&& s.len() >= 4
    &&& s[s.len() - 4] == 0x2eu8
    &&& (s[s.len() - 3] == 0x67u8 || s[s.len() - 3] == 0x47u8)
    &&& (s[s.len() - 2] == 0x69u8 || s[s.len() - 2] == 0x49u8)
    &&& (s[s.len() - 1] == 0x74u8 || s[s.len() - 1] == 0x54u8)
}

/// The owner and repository that a remote URL names, as bytes: after
/// `github.com/` (or else `github.com:`), up to the next `/`, and the rest
/// without a `.git` suffix that follows a name.
pub open spec fn owner_repo(url: Seq<u8>) -> Option<(Seq<u8>, Seq<u8>)> {
    let pivot = match find_from(url, lit_github_slash(), 0) {
        Some(p) => Some(p),
        None => find_from(url, lit_github_colon(), 0),
    };
    match pivot {
        None => None,
        Some(p) => {
            let rest = url.skip(p + 11);
            match find_from(rest, seq![0x2fu8], 0) {
                None => None,
                Some(k) => {
                    let repo = rest.skip(k + 1);
                    let repo = if ends_with_git(repo) && repo.len() > 4 && repo[repo.len() - 5]
                        != 0x2fu8 {
                        repo.take(repo.len() - 4)
                    } else {
                        repo
                    };
                    Some((rest.take(k), repo))
                },
            }
        },
    }
}

/// The owner and repository of a GitHub remote URL.
pub fn parse_owner_repo(url: &str) -> (r: Option<(String, String)>)
    ensures
        owner_repo(url.spec_bytes()) is None ==> r is None,
        owner_repo(url.spec_bytes()) matches Some((o, p)) ==> (r matches Some((a, b)) && a@
            == lossy_text(o) && b@ == lossy_text(p)),
{
    let u = url.as_bytes();
    let slash: [u8; 11] = [
        0x67u8, 0x69u8, 0x74u8, 0x68u8, 0x75u8, 0x62u8, 0x2eu8, 0x63u8, 0x6fu8, 0x6du8, 0x2fu8,
    ];
    let colon: [u8; 11] = [
        0x67u8, 0x69u8, 0x74u8, 0x68u8, 0x75u8, 0x62u8, 0x2eu8, 0x63u8, 0x6fu8, 0x6du8, 0x3au8,
    ];
    proof {
        reveal_strlit("github.com/");
        reveal_strlit("github.com:");
        assert(slash@ =~= lit_github_slash());
        assert(colon@ =~= lit_github_colon());
    }
    let pivot = match find_bytes(u, slash.as_slice(), 0) {
        Some(p) => Some(p),
        None => find_bytes(u, colon.as_slice(), 0),
    };
    let p = match pivot {
        None => {
            return None;
        },
        Some(p) => p,
    };
    let n = u.len();
    let rest = &u[p + 11..n];
    assert(rest@ =~= u@.skip(p + 11));
    let sep: [u8; 1] = [0x2fu8];
    assert(sep@ =~= seq![0x2fu8]);
    let k = match find_bytes(rest, sep.as_slice(), 0) {
        None => {
            return None;
        },
        Some(k) => k,
    };
    let m = rest.len();
    let owner = &rest[0..k];
    assert(owner@ =~= rest@.take(k as int));
    let mut e = m;
    if m - (k + 1) > 4 && rest[m - 4] == 0x2eu8 && (rest[m - 3] == 0x67u8 || rest[m - 3] == 0x47u8)
        && (rest[m - 2] == 0x69u8 || rest[m - 2] == 0x49u8) && (rest[m - 1] == 0x74u8 || rest[m
        - 1] == 0x54u8) && rest[m - 5] != 0x2fu8 {
        e = m - 4;
    }
    let repo = &rest[k + 1..e];
    proof {
        let full = rest@.skip(k + 1);
        if e == m {
            assert(repo@ =~= full);
        } else {
            assert(repo@ =~= full.take(full.len() - 4));
        }
    }
    Some((text_of(owner), text_of(repo)))
}

/// The index of the last `/` in `s` before `end`.
pub open spec fn last_slash_before(s: Seq<u8>, end: int) -> Option<int>
    decreases end,
{
    if end <= 0 || end > s.len() {
        None
    } else if s[end - 1] == 0x2fu8 {
        Some(end - 1)
    } else {
        last_slash_before(s, end - 1)
    }
}

pub open spec fn dots() -> Seq<u8> {
    seq![0x2eu8, 0x2eu8, 0x2eu8]
}

/// A path shortened to fit, with its line number, in `max_len` bytes: kept
/// whole when it fits; else `...` and the longest tail of whole components
/// that fits, `.../<tail>`; when even the file name does not fit, `...` and
/// the end of the file name (of the path, when it has no `/`).
pub open spec fn truncated(path: Seq<u8>, line: nat, max_len: int) -> Seq<u8> {
    let lnl = decimal(line).len() + 1;
    let available = if max_len > lnl {
        max_len - lnl
    } else {
        0
    };
    let a3 = if available > 3 {
        available - 3
    } else {
        0
    };
    if path.len() <= available {
        path
    } else {
        match last_slash_before(path, path.len() as int) {
            None => dots() + path.skip(path.len() - a3),
            Some(ls) => {
                let f = path.skip(ls + 1);
                if f.len() + 1 > a3 {
                    dots() + f.skip(
                        f.len() - if a3 < f.len() {
                            a3
                        } else {
                            f.len() as int
                        },
                    )
                } else {
                    let j = find_from(path, seq![0x2fu8], path.len() - a3)->Some_0;
                    dots() + seq![0x2fu8] + path.skip(j + 1)
                }
            },
        }
    }
}

proof fn lemma_decimal_len(n: nat)
    ensures
        decimal(n).len() <= 1 + n / 10,
    decreases n,
{
    if n >= 10 {
        lemma_decimal_len(n / 10);
        let m = n / 10;
        assert(m / 10 + 1 <= m) by (nonlinear_arith)
            requires
                m >= 1,
        ;
    }
}

fn last_slash(s: &[u8]) -> (r: Option<usize>)
    ensures
        r matches Some(i) ==> last_slash_before(s@, s@.len() as int) == Some(i as int) && i
            < s@.len() && s@[i as int] == 0x2fu8,
        r is None ==> last_slash_before(s@, s@.len() as int) is None,
{
    let mut e = s.len();
    while e > 0
        invariant
            e <= s@.len(),
            last_slash_before(s@, e as int) == last_slash_before(s@, s@.len() as int),
        decreases e,
    {
        if s[e - 1] == 0x2fu8 {
            return Some(e - 1);
        }
        e = e - 1;
    }
    None
}

proof fn lemma_slash_after(s: Seq<u8>, from: int, ls: int)
    requires
        0 <= from <= ls < s.len(),
        s[ls] == 0x2fu8,
    ensures
        find_from(s, seq![0x2fu8], from) matches Some(j) && from <= j <= ls && s[j] == 0x2fu8,
    decreases ls - from,
{
    if s[from] == 0x2fu8 {
        assert(s.subrange(from, from + 1) =~= seq![0x2fu8]);
    } else {
        assert(!has_at(s, from, seq![0x2fu8])) by {
            assert(s.subrange(from, from + 1)[0] == s[from]);
        }
        lemma_slash_after(s, from + 1, ls);
    }
}

/// Shortens a path for display beside its line number within `max_len`
/// bytes.
pub fn truncate_path(path: &str, line_number: u32, max_len: usize) -> (r: String)
    ensures
        r@ == lossy_text(truncated(path.spec_bytes(), line_number as nat, max_len as int)),
{
    let p = path.as_bytes();
    let n = p.len();
    let mut digits: Vec<u8> = Vec::new();
    push_decimal(&mut digits, line_number as u64);
    proof {
        lemma_decimal_len(line_number as nat);
    }
    let lnl = digits.len() + 1;
    let available = if max_len > lnl {
        max_len - lnl
    } else {
        0
    };
    let a3 = if available > 3 {
        available - 3
    } else {
        0
    };
    if n <= available {
        return text_of(p);
    }
    let mut out: Vec<u8> = Vec::new();
    out.push(0x2eu8);
    out.push(0x2eu8);
    out.push(0x2eu8);
    let ghost d = out@;
    assert(d =~= dots());
    let from = match last_slash(p) {
        None => n - a3,
        Some(ls) => {
            let flen = n - ls - 1;
            if flen + 1 > a3 {
                if a3 < flen {
                    n - a3
                } else {
                    ls + 1
                }
            } else {
                proof {
                    lemma_slash_after(p@, n - a3, ls as int);
                }
                let sep: [u8; 1] = [0x2fu8];
                assert(sep@ =~= seq![0x2fu8]);
                let j = find_bytes(p, sep.as_slice(), n - a3);
                let j = match j {
                    Some(j) => j,
                    None => ls,
                };
                out.push(0x2fu8);
                j + 1
            }
        },
    };
    let mut i: usize = from;
    let ghost mid = out@;
    while i < n
        invariant
            from <= i <= n,
            n == p@.len(),
            out@ == mid + p@.subrange(from as int, i as int),
        decreases n - i,
    {
        out.push(p[i]);
        assert(out@ =~= mid + p@.subrange(from as int, i + 1));
        i = i + 1;
    }
    proof {
        let want = truncated(p@, line_number as nat, max_len as int);
        assert(p@.subrange(from as int, n as int) =~= p@.skip(from as int));
        match last_slash_before(p@, n as int) {
            None => {
                assert(out@ =~= want);
            },
            Some(ls) => {
                let f = p@.skip(ls + 1);
                if f.len() + 1 > a3 {
                    assert(f.skip(f.len() - if a3 < f.len() {
                        a3 as int
                    } else {
                        f.len() as int
                    }) =~= p@.skip(from as int));
                }
                assert(out@ =~= want);
            },
        }
    }
    text_of(out.as_slice())
}

} // verus!
