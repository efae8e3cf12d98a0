use vstd::prelude::*;
use vstd::multiset::Multiset;
use crate::fm::FileId;
use crate::tag::Tag;
use vstd::string::StringExecFns;
use crate::text::{decimal_text, move_within, number_text};

verus! {

broadcast use vstd::seq_lib::group_to_multiset_ensures;

/// A tagged TODO marked for deletion, with the byte range it covers.
#[derive(Debug)]
pub struct Purge {
    pub tag: Tag,
    pub range: std::ops::Range<usize>,
}

/// The purges of one file.
#[derive(Debug)]
pub struct Purges {
    pub file_id: FileId,
    pub purges: Vec<Purge>,
}


impl Purge {
    /// The commit message for this purge.
    pub fn commit_msg(&self) -> (r: String)
        ensures
            r@ == "Remove closed TODO(#"@ + decimal_text(self.tag.issue_number as nat) + "): "@
                + self.tag.todo.title@,
    {
        let s = String::from_str("Remove closed TODO(#");
        let n = number_text(self.tag.issue_number);
        let s = s.concat(n.as_str());
        let s = s.concat("): ");
        s.concat(self.tag.todo.title.as_str())
    }
}

/// The ranges of the purges, as pairs.
pub open spec fn ranges(v: Seq<Purge>) -> Seq<(int, int)> {
    Seq::new(v.len(), |i: int| (v[i].range.start as int, v[i].range.end as int))
}

/// Whether range `a` comes no later than range `b`: by start, then by end.
pub open spec fn range_le(a: Purge, b: Purge) -> bool {
    a.range.start < b.range.start || (a.range.start == b.range.start && a.range.end
        <= b.range.end)
}

/// Whether the purges ascend by range start, and by end among equal starts.
pub open spec fn purges_sorted(v: Seq<Purge>) -> bool {
    forall|i: int, j: int| 0 <= i < j < v.len() ==> range_le(#[trigger] v[i], #[trigger] v[j])
}

/// Whether the ranges are well formed (start no later than end), within
/// `len`, and each ends no later than the next starts.
pub open spec fn ranges_ok(rs: Seq<(int, int)>, len: int) -> bool {
    &&& forall|i: int| 0 <= i < rs.len() ==> 0 <= (#[trigger] rs[i]).0 <= rs[i].1 <= len
    &&& forall|i: int| 0 <= i < rs.len() - 1 ==> (#[trigger] rs[i]).1 <= rs[i + 1].0
}

/// Why a file's purges cannot be applied.
#[derive(Copy, Clone, Debug, PartialEq, Eq, Structural)]
pub enum PurgeError {
    /// A range starts after it ends.
    Reversed,
    /// A range ends past the end of the file.
    PastEnd,
    /// A range does not end before the next one starts.
    Overlap,
}

impl Purges {
    pub fn with_capacity(n: usize, file_id: FileId) -> (r: Purges)
        ensures
            r.file_id == file_id,
            r.purges@.len() == 0,
    {
        Purges { file_id, purges: Vec::with_capacity(n) }
    }

    pub fn is_empty(&self) -> (r: bool)
        ensures
            r == (self.purges@.len() == 0),
    {
        self.purges.len() == 0
    }

    /// Orders the purges by range start, then by range end; of equal
    /// ranges, the earlier stays first.
    pub fn sort(&mut self)
        ensures
            final(self).file_id == old(self).file_id,
            purges_sorted(final(self).purges@),
            final(self).purges@.to_multiset() == old(self).purges@.to_multiset(),
            final(self).purges@.len() == old(self).purges@.len(),
    {
        let mut rest: Vec<Purge> = Vec::new();
        std::mem::swap(&mut rest, &mut self.purges);
        let ghost v = rest@;
        let mut out: Vec<Purge> = Vec::new();
        while rest.len() > 0
            invariant
                purges_sorted(out@),
                out@.to_multiset().add(rest@.to_multiset()) == v.to_multiset(),
                out@.len() + rest@.len() == v.len(),
                forall|i: int, j: int|
                    0 <= i < out@.len() && 0 <= j < rest@.len() ==> range_le(
                        #[trigger] out@[i],
                        #[trigger] rest@[j],
                    ),
            decreases rest@.len(),
        {
            let mut m: usize = 0;
            let mut k: usize = 1;
            while k < rest.len()
                invariant
                    0 < rest@.len(),
                    m < k <= rest@.len(),
                    forall|j: int| 0 <= j < k ==> range_le(rest@[m as int], #[trigger] rest@[j]),
                decreases rest@.len() - k,
            {
                if rest[k].range.start < rest[m].range.start || (rest[k].range.start
                    == rest[m].range.start && rest[k].range.end < rest[m].range.end) {
                    m = k;
                }
                k = k + 1;
            }
            let ghost before = rest@;
            let t = rest.remove(m);
            proof {
                vstd::seq_lib::to_multiset_remove(before, m as int);
                assert(before.remove(m as int) == rest@);
                assert forall|j: int| 0 <= j < rest@.len() implies range_le(
                    t,
                    #[trigger] rest@[j],
                ) by {
                    if j < m {
                        assert(rest@[j] == before[j]);
                    } else {
                        assert(rest@[j] == before[j + 1]);
                    }
                }
                assert(out@.push(t).to_multiset() == out@.to_multiset().insert(t));
                assert(before.to_multiset() == rest@.to_multiset().insert(t)) by {
                    assert(before.to_multiset().remove(t).insert(t) =~= before.to_multiset());
                }
                assert(out@.push(t).to_multiset().add(rest@.to_multiset()) =~= out@.to_multiset().add(
                    before.to_multiset(),
                ));
            }
            out.push(t);
            proof {
                assert forall|i: int, j: int|
                    0 <= i < out@.len() && 0 <= j < rest@.len() implies range_le(
                    #[trigger] out@[i],
                    #[trigger] rest@[j],
                ) by {
                    if i < out@.len() - 1 {
                        if j < m {
                            assert(rest@[j] == before[j]);
                        } else {
                            assert(rest@[j] == before[j + 1]);
                        }
                    }
                }
            }
        }
        assert(rest@.to_multiset() =~= Multiset::empty());
        assert(out@.to_multiset().add(Multiset::empty()) =~= out@.to_multiset());
        self.purges = out;
    }

    /// Checks that the purges, in their order, can be applied to a file of
    /// `len` bytes.
    pub fn check(&self, len: usize) -> (r: Result<(), PurgeError>)
        ensures
            r is Ok <==> ranges_ok(ranges(self.purges@), len as int),
            r == Err::<(), PurgeError>(PurgeError::Reversed) <==> has_reversed(self.purges@),
            r == Err::<(), PurgeError>(PurgeError::PastEnd) <==> !has_reversed(self.purges@)
                && has_past_end(self.purges@, len as int),
            r == Err::<(), PurgeError>(PurgeError::Overlap) <==> !has_reversed(self.purges@)
                && !has_past_end(self.purges@, len as int) && has_overlap(self.purges@),
    {
        let v = &self.purges;
        let n = v.len();
        let ghost rs = ranges(v@);
        let mut i: usize = 0;
        while i < n
            invariant
                n == v@.len(),
                v@ == self.purges@,
                rs == ranges(v@),
                i <= n,
                forall|k: int| 0 <= k < i ==> (#[trigger] v@[k]).range.start <= v@[k].range.end,
            decreases n - i,
        {
            if v[i].range.start > v[i].range.end {
                assert(rs[i as int].0 > rs[i as int].1);
                assert(v@[i as int].range.start > v@[i as int].range.end);
                assert(has_reversed(v@));
                assert(!ranges_ok(rs, len as int));
                return Err(PurgeError::Reversed);
            }
            i = i + 1;
        }
        let mut i: usize = 0;
        while i < n
            invariant
                n == v@.len(),
                v@ == self.purges@,
                rs == ranges(v@),
                i <= n,
                !has_reversed(v@),
                forall|k: int| 0 <= k < i ==> (#[trigger] v@[k]).range.end <= len,
            decreases n - i,
        {
            if v[i].range.end > len {
                assert(rs[i as int].1 > len);
                assert(has_past_end(v@, len as int));
                assert(!ranges_ok(rs, len as int));
                return Err(PurgeError::PastEnd);
            }
            i = i + 1;
        }
        let mut i: usize = 0;
        while i < n && n - i > 1
            invariant
                n == v@.len(),
                v@ == self.purges@,
                rs == ranges(v@),
                i <= n,
                !has_reversed(v@),
                !has_past_end(v@, len as int),
                forall|k: int| 0 <= k < i ==> !#[trigger] overlaps_next(v@, k),
            decreases n - i,
        {
            if v[i].range.end > v[i + 1].range.start {
                assert(rs[i as int].1 > rs[i + 1].0);
                assert(overlaps_next(v@, i as int));
                assert(has_overlap(v@));
                assert(!ranges_ok(rs, len as int));
                return Err(PurgeError::Overlap);
            }
            i = i + 1;
        }
        proof {
            assert forall|k: int| 0 <= k < rs.len() implies 0 <= (#[trigger] rs[k]).0 <= rs[k].1
                <= len by {
                assert(!(v@[k].range.end > len));
                assert(!(v@[k].range.start > v@[k].range.end));
            }
            assert forall|k: int| 0 <= k < rs.len() - 1 implies (#[trigger] rs[k]).1 <= rs[k
                + 1].0 by {
                assert(!overlaps_next(v@, k));
            }
        }
        Ok(())
    }
}

/// Whether some range starts after it ends.
pub open spec fn has_reversed(v: Seq<Purge>) -> bool {
    exists|i: int| 0 <= i < v.len() && (#[trigger] v[i]).range.start > v[i].range.end
}

/// Whether some range ends past `len`.
pub open spec fn has_past_end(v: Seq<Purge>, len: int) -> bool {
    exists|i: int| 0 <= i < v.len() && (#[trigger] v[i]).range.end > len
}

/// Whether some range ends after the next one starts.
pub open spec fn has_overlap(v: Seq<Purge>) -> bool {
    exists|i: int| 0 <= i < v.len() - 1 && #[trigger] overlaps_next(v, i)
}

/// Whether range `i` ends after range `i + 1` starts.
pub open spec fn overlaps_next(v: Seq<Purge>, i: int) -> bool {
    v[i].range.end > v[i + 1].range.start
}

/// Where the kept piece after range `j - 1` ends: the start of range `j`,
/// or the end of the source after the last range.
pub open spec fn mark(len: int, rs: Seq<(int, int)>, j: int) -> int {
    if 0 <= j < rs.len() {
        rs[j].0
    } else {
        len
    }
}

/// The kept pieces of `src` that follow ranges `j`, `j + 1`, ...
pub open spec fn tail(src: Seq<u8>, rs: Seq<(int, int)>, j: int) -> Seq<u8>
    decreases rs.len() - j,
{
    if j < 0 || j >= rs.len() {
        seq![]
    } else {
        src.subrange(rs[j].1, mark(src.len() as int, rs, j + 1)) + tail(src, rs, j + 1)
    }
}

/// `src` without the ranges: the pieces between them, concatenated.
pub open spec fn purged(src: Seq<u8>, rs: Seq<(int, int)>) -> Seq<u8> {
    src.take(mark(src.len() as int, rs, 0)) + tail(src, rs, 0)
}

/// `s` without the bytes `a..b`.
pub open spec fn cut(s: Seq<u8>, a: int, b: int) -> Seq<u8> {
    s.take(a) + s.skip(b)
}

/// The last `k` ranges cut from `src` one after the other, the last range
/// first.
pub open spec fn cuts_desc(src: Seq<u8>, rs: Seq<(int, int)>, k: int) -> Seq<u8>
    decreases k,
{
    if k <= 0 {
        src
    } else {
        cut(cuts_desc(src, rs, k - 1), rs[rs.len() - k].0, rs[rs.len() - k].1)
    }
}

/// Total length of the ranges `j`, `j + 1`, ...
pub open spec fn cut_total(rs: Seq<(int, int)>, j: int) -> int
    decreases rs.len() - j,
{
    if j < 0 || j >= rs.len() {
        0
    } else {
        (rs[j].1 - rs[j].0) + cut_total(rs, j + 1)
    }
}

proof fn lemma_cut_step(src: Seq<u8>, rs: Seq<(int, int)>, j: int)
    requires
        ranges_ok(rs, src.len() as int),
        0 <= j < rs.len(),
    ensures
        cut(
            src.take(mark(src.len() as int, rs, j + 1)) + tail(src, rs, j + 1),
            rs[j].0,
            rs[j].1,
        ) == src.take(mark(src.len() as int, rs, j)) + tail(src, rs, j),
{
    let m = mark(src.len() as int, rs, j + 1);
    let (a, b) = rs[j];
    assert(b <= m);
    let x = src.take(m) + tail(src, rs, j + 1);
    assert(x.take(a) =~= src.take(a));
    assert(x.skip(b) =~= src.subrange(b, m) + tail(src, rs, j + 1));
    assert(cut(x, a, b) =~= src.take(a) + (src.subrange(b, m) + tail(src, rs, j + 1)));
}

proof fn lemma_cuts(src: Seq<u8>, rs: Seq<(int, int)>, k: int)
    requires
        ranges_ok(rs, src.len() as int),
        0 <= k <= rs.len(),
    ensures
        cuts_desc(src, rs, k) == src.take(mark(src.len() as int, rs, rs.len() - k)) + tail(
            src,
            rs,
            rs.len() - k,
        ),
    decreases k,
{
    if k == 0 {
        assert(src.take(src.len() as int) + Seq::<u8>::empty() =~= src);
    } else {
        lemma_cuts(src, rs, k - 1);
        lemma_cut_step(src, rs, rs.len() - k);
    }
}

proof fn lemma_cut_total_nonneg(rs: Seq<(int, int)>, len: int, j: int)
    requires
        ranges_ok(rs, len),
        0 <= j,
    ensures
        cut_total(rs, j) >= 0,
    decreases rs.len() - j,
{
    if j < rs.len() {
        lemma_cut_total_nonneg(rs, len, j + 1);
    }
}

proof fn lemma_tail_len(src: Seq<u8>, rs: Seq<(int, int)>, j: int)
    requires
        ranges_ok(rs, src.len() as int),
        0 <= j <= rs.len(),
    ensures
        mark(src.len() as int, rs, j) + tail(src, rs, j).len() == src.len() - cut_total(rs, j),
    decreases rs.len() - j,
{
    if j < rs.len() {
        lemma_tail_len(src, rs, j + 1);
    }
}

/// Cutting sorted, non-overlapping ranges from the last to the first leaves
/// the pieces between them, concatenated; the length shrinks by the total
/// length of the ranges.
pub proof fn lemma_purge(src: Seq<u8>, rs: Seq<(int, int)>)
    requires
        ranges_ok(rs, src.len() as int),
    ensures
        cuts_desc(src, rs, rs.len() as int) == purged(src, rs),
        purged(src, rs).len() == src.len() - cut_total(rs, 0),
{
    lemma_cuts(src, rs, rs.len() as int);
    lemma_tail_len(src, rs, 0);
    if rs.len() > 0 {
        assert(0 <= rs[0].0 <= src.len());
    }
}

/// Cuts a file's purges out of its bytes one at a time, the last range
/// first. The first `cur_len` bytes of the buffer are the source with the
/// ranges from `left` on removed.
pub struct PurgeSplicer {
    pub purges: Purges,
    pub left: usize,
    pub cur_len: usize,
    pub source: Ghost<Seq<u8>>,
}

impl PurgeSplicer {
    pub open spec fn holds(&self, buf: Seq<u8>) -> bool {
        let rs = ranges(self.purges.purges@);
        let src = self.source@;
        &&& ranges_ok(rs, src.len() as int)
        &&& self.left <= rs.len()
        &&& buf.len() == src.len()
        &&& self.cur_len == mark(src.len() as int, rs, self.left as int) + tail(
            src,
            rs,
            self.left as int,
        ).len()
        &&& buf.take(self.cur_len as int) == src.take(mark(src.len() as int, rs, self.left as int))
            + tail(src, rs, self.left as int)
    }

    /// Starts on the file's bytes, with purges that are sorted and checked.
    pub fn new(purges: Purges, buf: &[u8]) -> (r: PurgeSplicer)
        requires
            ranges_ok(ranges(purges.purges@), buf@.len() as int),
        ensures
            r.holds(buf@),
            r.purges == purges,
            r.source@ == buf@,
            r.left == purges.purges@.len(),
            r.cur_len == buf@.len(),
    {
        let left = purges.purges.len();
        let cur_len = buf.len();
        proof {
            assert(buf@.take(buf@.len() as int) + Seq::<u8>::empty() =~= buf@);
        }
        PurgeSplicer { purges, left, cur_len, source: Ghost(buf@) }
    }

    pub fn is_done(&self) -> (r: bool)
        ensures
            r == (self.left == 0),
    {
        self.left == 0
    }

    /// Cuts the last range not yet cut, and returns its index; `None` when
    /// all are cut.
    pub fn step(&mut self, buf: &mut [u8]) -> (r: Option<usize>)
        requires
            old(self).holds(old(buf)@),
        ensures
            final(self).holds(final(buf)@),
            final(self).purges == old(self).purges,
            final(self).source == old(self).source,
            old(self).left == 0 ==> r is None && final(buf)@ == old(buf)@ && final(self).left == 0,
            old(self).left > 0 ==> r == Some((old(self).left - 1) as usize) && final(self).left
                == old(self).left - 1 && final(buf)@.take(final(self).cur_len as int) == cut(
                old(buf)@.take(old(self).cur_len as int),
                ranges(old(self).purges.purges@)[old(self).left - 1].0,
                ranges(old(self).purges.purges@)[old(self).left - 1].1,
            ),
    {
        if self.left == 0 {
            return None;
        }
        let j = self.left - 1;
        let ghost rs = ranges(self.purges.purges@);
        let ghost src = self.source@;
        let ghost old_buf = buf@;
        let start = self.purges.purges[j].range.start;
        let end = self.purges.purges[j].range.end;
        proof {
            assert(rs[j as int] == (start as int, end as int));
            lemma_tail_len(src, rs, j + 1);
            lemma_cut_total_nonneg(rs, src.len() as int, j + 1);
            lemma_cut_step(src, rs, j as int);
            if j + 1 < rs.len() {
                assert(rs[j as int].1 <= rs[j + 1].0);
            }
        }
        let cur = self.cur_len;
        move_within(buf, end, cur, start);
        proof {
            let before = old_buf.take(cur as int);
            assert(buf@.take(cur - (end - start)) =~= cut(before, start as int, end as int));
            lemma_tail_len(src, rs, j as int);
        }
        self.cur_len = cur - (end - start);
        self.left = j;
        Some(j)
    }

    /// Once every range is cut, the buffer starts with the source without
    /// the ranges, as long as the source less their total length.
    pub proof fn lemma_finished(&self, buf: Seq<u8>)
        requires
            self.holds(buf),
            self.left == 0,
        ensures
            buf.take(self.cur_len as int) == purged(self.source@, ranges(self.purges.purges@)),
            self.cur_len == self.source@.len() - cut_total(ranges(self.purges.purges@), 0),
    {
        lemma_tail_len(self.source@, ranges(self.purges.purges@), 0);
    }
}

} // verus!
