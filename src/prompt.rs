use vstd::prelude::*;
use vstd::string::StringSliceAdditionalSpecFns;
use crate::mode::ModeValue;
use crate::text::{
    digits_value, has_at, leading_digits, leading_ws, lemma_leading_digits,
    parse_digits, skip_digits, skip_ws, skip_ws_back, trim,
};
use crate::util::{find_bytes, find_from};

verus! {

/// One file's findings, handed to the user for selection.
pub struct Prompt {
    pub mode_value: ModeValue,
}

/// What the user asked for at the selection prompt.
#[derive(Debug, PartialEq, Eq)]
pub enum Command {
    /// Skip this file.
    Skip,
    /// Show the help text.
    Help,
    /// Take every item.
    All,
    /// Edit the title and/or description of the item at `index` (0-based).
    Edit { index: usize, title: bool, description: bool },
    /// An edit named an item that does not exist.
    InvalidIndex,
    /// Take the items at these indices (0-based, ascending, distinct).
    Select(Vec<usize>),
}

/// Whether `t` is the one-letter key `lower`, in either case.
pub open spec fn is_key(t: Seq<u8>, lower: u8) -> bool {
    t.len() == 1 && (t[0] == lower || t[0] == (lower - 32) as u8)
}

/// The edits that the flags after an item number ask for: `t` (title),
/// `d` (description), `td` or `dt` (both).
pub open spec fn edit_flags(f: Seq<u8>) -> Option<(bool, bool)> {
    if f == seq![0x74u8] {
        Some((true, false))
    } else if f == seq![0x64u8] {
        Some((false, true))
    } else if f == seq![0x74u8, 0x64u8] || f == seq![0x64u8, 0x74u8] {
        Some((true, true))
    } else {
        None
    }
}

/// The edit flags of a trimmed input whose first `d` bytes are digits.
pub open spec fn flags_after(t: Seq<u8>, d: int) -> Option<(bool, bool)> {
    edit_flags(trim(t.skip(d)))
}

/// The number that an entry spells, when it is an optional `+` and a
/// non-empty run of digits.
pub open spec fn entry_value(seg: Seq<u8>) -> Option<nat> {
    let d = if seg.len() > 0 && seg[0] == 0x2bu8 {
        seg.skip(1)
    } else {
        seg
    };
    if d.len() > 0 && leading_digits(d) == d.len() {
        Some(digits_value(d))
    } else {
        None
    }
}

/// End of the comma-separated entry that starts at `p`.
pub open spec fn entry_end(t: Seq<u8>, p: int) -> int {
    match find_from(t, seq![0x2cu8], p) {
        Some(e) => e,
        None => t.len() as int,
    }
}

/// The 0-based indices below `count` that the entries from `p` on name.
pub open spec fn picked(t: Seq<u8>, p: int, count: int) -> Set<int>
    decreases t.len() + 1 - p,
{
    if p < 0 || p > t.len() {
        Set::empty()
    } else {
        let e = entry_end(t, p);
        let here = match entry_value(trim(t.subrange(p, e))) {
            Some(v) => if 1 <= v <= count {
                set![v - 1]
            } else {
                Set::empty()
            },
            None => Set::empty(),
        };
        if e < t.len() && e >= p {
            here.union(picked(t, e + 1, count))
        } else {
            here
        }
    }
}

/// The command that a trimmed input `t` stands for, given `count` items.
pub open spec fn command_of(t: Seq<u8>, count: int) -> Command {
    let d = leading_digits(t) as int;
    let v = digits_value(t.take(d));
    let flags = flags_after(t, d);
    if is_key(t, 0x73u8) {
        Command::Skip
    } else if is_key(t, 0x68u8) {
        Command::Help
    } else if is_key(t, 0x61u8) {
        Command::All
    } else if 0 < d < t.len() && v <= usize::MAX && flags is Some {
        if 1 <= v <= count {
            Command::Edit {
                index: (v - 1) as usize,
                title: flags->Some_0.0,
                description: flags->Some_0.1,
            }
        } else {
            Command::InvalidIndex
        }
    } else {
        Command::Skip
    }
}

/// Whether `c` is the command that the trimmed input `t` stands for.
pub open spec fn command_is(c: Command, t: Seq<u8>, count: int) -> bool {
    let d = leading_digits(t) as int;
    let v = digits_value(t.take(d));
    let edit = 0 < d < t.len() && v <= usize::MAX && flags_after(t, d) is Some;
    if is_key(t, 0x73u8) || is_key(t, 0x68u8) || is_key(t, 0x61u8) || edit {
        c == command_of(t, count)
    } else {
        let s = picked(t, 0, count);
        match c {
            Command::Skip => s.is_empty(),
            Command::Select(v) => !s.is_empty() && (forall|i: int, j: int|
                0 <= i < j < v@.len() ==> v@[i] < v@[j]) && (forall|i: int|
                0 <= i < count ==> (s.contains(i) <==> v@.contains(i as usize))) && (forall|
                i: int,
            | 0 <= i < v@.len() ==> v@[i] < count),
            _ => false,
        }
    }
}

/// The edit flags of `t[a..b]` once trimmed, computed.
fn flags_in(t: &[u8], a: usize, b: usize) -> (r: Option<(bool, bool)>)
    requires
        a <= b <= t@.len(),
    ensures
        r == edit_flags(trim(t@.subrange(a as int, b as int))),
{
    let x = skip_ws(t, a, b);
    let y = skip_ws_back(t, x, b);
    let ghost seg = t@.subrange(a as int, b as int);
    let ghost f = t@.subrange(x as int, y as int);
    proof {
        assert(seg.skip(leading_ws(seg) as int) =~= t@.subrange(x as int, b as int));
        assert(trim(seg) =~= f);
    }
    let n = y - x;
    let ghost l1 = seq![0x74u8];
    let ghost l2 = seq![0x64u8];
    let ghost l3 = seq![0x74u8, 0x64u8];
    let ghost l4 = seq![0x64u8, 0x74u8];
    proof {
        assert(f.len() == n);
        assert(l1[0] == 0x74u8 && l2[0] == 0x64u8 && l3[0] == 0x74u8 && l4[0] == 0x64u8);
        assert(l1 != l2 && l3 != l4);
        if n >= 1 {
            assert(f[0] == t@[x as int]);
        }
        if n >= 2 {
            assert(f[1] == t@[x + 1]);
        }
    }
    if n == 1 && t[x] == 0x74u8 {
        assert(f =~= l1);
        Some((true, false))
    } else if n == 1 && t[x] == 0x64u8 {
        assert(f =~= l2);
        Some((false, true))
    } else if n == 2 && ((t[x] == 0x74u8 && t[x + 1] == 0x64u8) || (t[x] == 0x64u8 && t[x + 1]
        == 0x74u8)) {
        proof {
            if t[x as int] == 0x74u8 {
                assert(f =~= l3);
            } else {
                assert(f =~= l4);
            }
        }
        Some((true, true))
    } else {
        proof {
            assert(f != l1 && f != l2 && f != l3 && f != l4);
        }
        None
    }
}

/// The value of an entry, computed, with `None` also when it does not fit.
fn entry_number(t: &[u8], a: usize, b: usize) -> (r: Option<usize>)
    requires
        a <= b <= t@.len(),
    ensures
        r matches Some(v) ==> entry_value(trim(t@.subrange(a as int, b as int))) == Some(
            v as nat,
        ),
        r is None ==> entry_value(trim(t@.subrange(a as int, b as int))) is None || entry_value(
            trim(t@.subrange(a as int, b as int)),
        )->Some_0 > usize::MAX,
{
    let x = skip_ws(t, a, b);
    let y = skip_ws_back(t, x, b);
    let ghost seg = t@.subrange(a as int, b as int);
    proof {
        assert(seg.skip(leading_ws(seg) as int) =~= t@.subrange(x as int, b as int));
        assert(trim(seg) =~= t@.subrange(x as int, y as int));
    }
    if x == y {
        return None;
    }
    let x2 = if t[x] == 0x2bu8 {
        x + 1
    } else {
        x
    };
    proof {
        let tr = t@.subrange(x as int, y as int);
        if t[x as int] == 0x2bu8 {
            assert(tr[0] == t@[x as int]);
            assert(tr.skip(1) =~= t@.subrange(x2 as int, y as int));
        } else {
            assert(tr[0] == t@[x as int]);
            assert(tr =~= t@.subrange(x2 as int, y as int));
        }
    }
    if x2 == y {
        return None;
    }
    let part = &t[x2..y];
    let e = skip_digits(part, 0);
    assert(part@.skip(0) =~= part@);
    if e != part.len() {
        return None;
    }
    proof {
        lemma_leading_digits(part@);
    }
    assert(part@.subrange(0, e as int) =~= part@);
    match parse_digits(part, 0, e) {
        None => None,
        Some(v) => {
            if v as u128 > usize::MAX as u128 {
                None
            } else {
                Some(v as usize)
            }
        },
    }
}

/// The indices that the comma-separated entries of `t` name, ascending.
fn selection(t: &[u8], count: usize) -> (r: Vec<usize>)
    ensures
        forall|i: int, j: int| 0 <= i < j < r@.len() ==> r@[i] < r@[j],
        forall|i: int| 0 <= i < r@.len() ==> r@[i] < count,
        forall|i: int| 0 <= i < count ==> (picked(t@, 0, count as int).contains(i) <==> r@.contains(i as usize)),
{
    let mut chosen: Vec<bool> = Vec::new();
    let mut c: usize = 0;
    while c < count
        invariant
            c <= count,
            chosen@.len() == c,
            forall|i: int| 0 <= i < c ==> !chosen@[i],
        decreases count - c,
    {
        chosen.push(false);
        c = c + 1;
    }
    let n = t.len();
    let mut p: usize = 0;
    let ghost acc: Set<int> = Set::empty();
    let comma: [u8; 1] = [0x2cu8];
    assert(comma@ =~= seq![0x2cu8]);
    loop
        invariant
            n == t@.len(),
            p <= n,
            chosen@.len() == count,
            comma@ == seq![0x2cu8],
            acc.union(picked(t@, p as int, count as int)) == picked(t@, 0, count as int),
            forall|i: int| 0 <= i < count ==> (chosen@[i] <==> acc.contains(i)),
        ensures
            chosen@.len() == count,
            forall|i: int| 0 <= i < count ==> (chosen@[i] <==> picked(t@, 0, count as int).contains(i)),
        decreases n + 1 - p,
    {
        let e = match find_bytes(t, comma.as_slice(), p) {
            Some(e) => e,
            None => n,
        };
        proof {
            if find_from(t@, seq![0x2cu8], p as int) is Some {
                lemma_find_from_ge(t@, seq![0x2cu8], p as int);
            }
        }
        let ghost here = match entry_value(trim(t@.subrange(p as int, e as int))) {
            Some(v) => if 1 <= v <= count {
                set![v - 1]
            } else {
                Set::<int>::empty()
            },
            None => Set::<int>::empty(),
        };
        match entry_number(t, p, e) {
            Some(v) => {
                if v >= 1 && v <= count {
                    chosen.set(v - 1, true);
                }
            },
            None => {},
        }
        proof {
            acc = acc.union(here);
        }
        if e >= n {
            proof {
                assert(acc =~= picked(t@, 0, count as int));
            }
            break ;
        }
        proof {
            assert(acc.union(picked(t@, e + 1, count as int)) =~= picked(t@, 0, count as int));
        }
        p = e + 1;
    }
    let mut out: Vec<usize> = Vec::new();
    let mut i: usize = 0;
    while i < count
        invariant
            i <= count,
            chosen@.len() == count,
            forall|a: int, b: int| 0 <= a < b < out@.len() ==> out@[a] < out@[b],
            forall|a: int| 0 <= a < out@.len() ==> out@[a] < i,
            forall|k: int| 0 <= k < i ==> (chosen@[k] <==> out@.contains(k as usize)),
            forall|k: int| 0 <= k < count ==> (chosen@[k] <==> picked(t@, 0, count as int).contains(k)),
        decreases count - i,
    {
        if chosen[i] {
            let ghost prev = out@;
            out.push(i);
            proof {
                assert forall|k: int| 0 <= k <= i implies (chosen@[k] <==> out@.contains(k as usize)) by {
                    if k < i {
                        if out@.contains(k as usize) {
                            let w = choose|w: int| 0 <= w < out@.len() && out@[w] == k as usize;
                            assert(w < out@.len() - 1);
                            assert(prev[w] == k as usize);
                            assert(prev.contains(k as usize));
                        }
                        if prev.contains(k as usize) {
                            let w = choose|w: int| 0 <= w < prev.len() && prev[w] == k as usize;
                            assert(out@[w] == k as usize);
                        }
                    } else {
                        assert(out@[out@.len() - 1] == i);
                    }
                }
            }
        } else {
            proof {
                assert(!out@.contains(i));
            }
        }
        i = i + 1;
    }
    out
}

proof fn lemma_find_from_ge(s: Seq<u8>, lit: Seq<u8>, from: int)
    requires
        find_from(s, lit, from) is Some,
    ensures
        from <= find_from(s, lit, from)->Some_0,
        find_from(s, lit, from)->Some_0 + lit.len() <= s.len(),
    decreases s.len() + 1 - from,
{
    if !(from < 0 || from + lit.len() > s.len()) && !has_at(s, from, lit) {
        lemma_find_from_ge(s, lit, from + 1);
    }
}

fn key_is(t: &[u8], a: usize, b: usize, lower: u8) -> (r: bool)
    requires
        a <= b <= t@.len(),
        0x61u8 <= lower <= 0x7au8,
    ensures
        r == is_key(t@.subrange(a as int, b as int), lower),
{
    b - a == 1 && (t[a] == lower || t[a] == lower - 32)
}

/// Reads the user's answer at the selection prompt for `count` items:
/// `s`, `h` or `a` (either case); `<n>` followed by `t` and/or `d` to edit
/// item `n`; otherwise comma-separated 1-based indices, of which those out
/// of range or not numbers are dropped; no index left means skip.
pub fn parse_command(cmd: &str, count: usize) -> (r: Command)
    ensures
        command_is(r, trim(cmd.spec_bytes()), count as int),
{
    let b = cmd.as_bytes();
    let n = b.len();
    let x = skip_ws(b, 0, n);
    let y = skip_ws_back(b, x, n);
    proof {
        assert(b@.subrange(0, n as int) =~= b@);
        assert(b@.skip(leading_ws(b@) as int) =~= b@.subrange(x as int, n as int));
        assert(trim(b@) =~= b@.subrange(x as int, y as int));
    }
    let t = &b[x..y];
    let m = t.len();
    if key_is(t, 0, m, 0x73u8) {
        assert(t@.subrange(0, m as int) =~= t@);
        return Command::Skip;
    }
    if key_is(t, 0, m, 0x68u8) {
        assert(t@.subrange(0, m as int) =~= t@);
        return Command::Help;
    }
    if key_is(t, 0, m, 0x61u8) {
        assert(t@.subrange(0, m as int) =~= t@);
        return Command::All;
    }
    assert(t@.subrange(0, m as int) =~= t@);
    let d = skip_digits(t, 0);
    assert(t@.skip(0) =~= t@);
    if d > 0 && d < m {
        let flags = flags_in(t, d, m);
        assert(t@.subrange(d as int, m as int) =~= t@.skip(d as int));
        if let Some((et, ed)) = flags {
            proof {
                lemma_leading_digits(t@);
            }
            match parse_digits(t, 0, d) {
                Some(v) => {
                    assert(t@.subrange(0, d as int) =~= t@.take(d as int));
                    if v as u128 <= usize::MAX as u128 {
                        let v = v as usize;
                        if v >= 1 && v <= count {
                            return Command::Edit { index: v - 1, title: et, description: ed };
                        } else {
                            return Command::InvalidIndex;
                        }
                    }
                },
                None => {
                    assert(t@.subrange(0, d as int) =~= t@.take(d as int));
                },
            }
        }
    }
    let sel = selection(t, count);
    if sel.len() == 0 {
        proof {
            assert forall|i: int| #![auto] picked(t@, 0, count as int).contains(i) implies false by {
                lemma_picked_bound(t@, 0, count as int, i);
                assert(!sel@.contains(i as usize));
            }
            assert(picked(t@, 0, count as int) =~= Set::<int>::empty());
        }
        Command::Skip
    } else {
        proof {
            assert(picked(t@, 0, count as int).contains(sel@[0] as int));
        }
        Command::Select(sel)
    }
}

proof fn lemma_picked_bound(t: Seq<u8>, p: int, count: int, i: int)
    requires
        picked(t, p, count).contains(i),
    ensures
        0 <= i < count,
    decreases t.len() + 1 - p,
{
    let e = entry_end(t, p);
    if e < t.len() && e >= p && picked(t, e + 1, count).contains(i) {
        lemma_picked_bound(t, e + 1, count, i);
    }
}

/// The items at the given ascending indices, in that order.
pub fn take_selected<T>(items: Vec<T>, indexes: &Vec<usize>) -> (r: Vec<T>)
    requires
        forall|i: int, j: int| 0 <= i < j < indexes@.len() ==> indexes@[i] < indexes@[j],
        forall|i: int| 0 <= i < indexes@.len() ==> indexes@[i] < items@.len(),
    ensures
        r@.len() == indexes@.len(),
        forall|k: int| 0 <= k < r@.len() ==> r@[k] == items@[indexes@[k] as int],
{
    let ghost orig = items@;
    let mut items = items;
    let m = indexes.len();
    let mut rev: Vec<T> = Vec::new();
    let mut k: usize = m;
    while k > 0
        invariant
            m == indexes@.len(),
            k <= m,
            forall|i: int, j: int| 0 <= i < j < indexes@.len() ==> indexes@[i] < indexes@[j],
            forall|i: int| 0 <= i < indexes@.len() ==> indexes@[i] < orig.len(),
            k > 0 ==> indexes@[k - 1] < items@.len(),
            forall|j: int|
                0 <= j < items@.len() && (k == m || j < indexes@[k as int]) ==> items@[j]
                    == orig[j],
            k < m ==> items@.len() >= indexes@[k as int],
            k == m ==> items@ == orig,
            rev@.len() == m - k,
            forall|q: int| 0 <= q < rev@.len() ==> rev@[q] == orig[indexes@[m - 1 - q] as int],
        decreases k,
    {
        let i = indexes[k - 1];
        let ghost before = items@;
        let x = items.remove(i);
        proof {
            assert(x == orig[i as int]);
        }
        rev.push(x);
        k = k - 1;
        proof {
            assert forall|j: int|
                0 <= j < items@.len() && (k == m || j < indexes@[k as int]) implies items@[j]
                == orig[j] by {
                assert(items@[j] == before[j]);
            }
            if k > 0 {
                assert(indexes@[k - 1] < indexes@[k as int]);
            }
        }
    }
    let mut out: Vec<T> = Vec::new();
    while rev.len() > 0
        invariant
            rev@.len() + out@.len() == m,
            forall|q: int| 0 <= q < rev@.len() ==> rev@[q] == orig[indexes@[m - 1 - q] as int],
            forall|q: int| 0 <= q < out@.len() ==> out@[q] == orig[indexes@[q] as int],
        decreases rev@.len(),
    {
        let x = rev.pop().unwrap();
        out.push(x);
    }
    out
}

} // verus!
