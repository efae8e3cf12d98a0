use vstd::prelude::*;
use vstd::multiset::Multiset;
use crate::fm::FileId;
use crate::purge::Purges;
use vstd::string::StringExecFns;
use crate::text::{decimal, decimal_text, move_within, number_text, push_decimal};
use crate::todo::Todo;

verus! {

broadcast use vstd::seq_lib::group_to_multiset_ensures;

/// A reported TODO with the number of its issue.
#[derive(Debug)]
pub struct Tag {
    pub issue_number: u64,
    pub todo: Todo,
}

/// Work for the inserter: the pending tags of a file, or a file's purges.
pub enum InserterValue {
    Inserting(FileId),
    Purging(Purges),
}

/// The bytes of the tag for issue `n`: `(#<n>)`.
pub open spec fn tag_bytes(n: nat) -> Seq<u8> {
    seq![0x28u8, 0x23u8] + decimal(n) + seq![0x29u8]
}


impl Tag {
    /// The tag's bytes, `(#<issue number>)`.
    pub fn to_bytes(&self) -> (r: Vec<u8>)
        ensures
            r@ == tag_bytes(self.issue_number as nat),
    {
        let mut v: Vec<u8> = Vec::new();
        v.push(0x28u8);
        v.push(0x23u8);
        push_decimal(&mut v, self.issue_number);
        v.push(0x29u8);
        assert(v@ =~= tag_bytes(self.issue_number as nat));
        v
    }

    /// The commit message for the insertion of this tag.
    pub fn commit_msg(&self) -> (r: String)
        ensures
            r@ == "Add TODO(#"@ + decimal_text(self.issue_number as nat) + "): "@ + self.todo.title@,
    {
        let s = String::from_str("Add TODO(#");
        let n = number_text(self.issue_number);
        let s = s.concat(n.as_str());
        let s = s.concat("): ");
        s.concat(self.todo.title.as_str())
    }
}

/// Whether the tags are in ascending order of insertion offset.
pub open spec fn tags_sorted(v: Seq<Tag>) -> bool {
    forall|i: int, j: int|
        0 <= i < j < v.len() ==> (#[trigger] v[i]).todo.tag_insertion_offset
            <= (#[trigger] v[j]).todo.tag_insertion_offset
}

/// The tags in ascending order of insertion offset; of equal offsets, the
/// earlier stays first.
pub fn sort_tags(v: Vec<Tag>) -> (r: Vec<Tag>)
    ensures
        tags_sorted(r@),
        r@.to_multiset() == v@.to_multiset(),
        r@.len() == v@.len(),
{
    let mut rest = v;
    let mut out: Vec<Tag> = Vec::new();
    while rest.len() > 0
        invariant
            tags_sorted(out@),
            out@.to_multiset().add(rest@.to_multiset()) == v@.to_multiset(),
            out@.len() + rest@.len() == v@.len(),
            forall|i: int, j: int|
                0 <= i < out@.len() && 0 <= j < rest@.len() ==> (#[trigger] out@[i]).todo.tag_insertion_offset
                    <= (#[trigger] rest@[j]).todo.tag_insertion_offset,
        decreases rest@.len(),
    {
        let mut m: usize = 0;
        let mut k: usize = 1;
        while k < rest.len()
            invariant
                0 < rest@.len(),
                m < k <= rest@.len(),
                forall|j: int|
                    0 <= j < k ==> rest@[m as int].todo.tag_insertion_offset
                        <= (#[trigger] rest@[j]).todo.tag_insertion_offset,
            decreases rest@.len() - k,
        {
            if rest[k].todo.tag_insertion_offset < rest[m].todo.tag_insertion_offset {
                m = k;
            }
            k = k + 1;
        }
        let ghost before = rest@;
        let t = rest.remove(m);
        proof {
            vstd::seq_lib::to_multiset_remove(before, m as int);
            assert(before.remove(m as int) == rest@);
            assert forall|j: int| 0 <= j < rest@.len() implies t.todo.tag_insertion_offset
                <= (#[trigger] rest@[j]).todo.tag_insertion_offset by {
                if j < m {
                    assert(rest@[j] == before[j]);
                } else {
                    assert(rest@[j] == before[j + 1]);
                }
            }
            assert(out@.push(t).to_multiset() == out@.to_multiset().insert(t));
            assert(before.to_multiset() == rest@.to_multiset().insert(t)) by {
                assert(before.to_multiset().remove(t).insert(t) =~= before.to_multiset());
            }
            assert(out@.push(t).to_multiset().add(rest@.to_multiset()) =~= out@.to_multiset().add(
                before.to_multiset(),
            ));
        }
        out.push(t);
        proof {
            assert forall|i: int, j: int|
                0 <= i < out@.len() && 0 <= j < rest@.len() implies (#[trigger] out@[i]).todo.tag_insertion_offset
                <= (#[trigger] rest@[j]).todo.tag_insertion_offset by {
                if i < out@.len() - 1 {
                    if j < m {
                        assert(rest@[j] == before[j]);
                    } else {
                        assert(rest@[j] == before[j + 1]);
                    }
                }
            }
        }
    }
    assert(rest@.to_multiset() =~= Multiset::empty());
    assert(out@.to_multiset().add(Multiset::empty()) =~= out@.to_multiset());
    out
}

/// `s` with `b` inserted at `i`.
pub open spec fn splice_at(s: Seq<u8>, i: int, b: Seq<u8>) -> Seq<u8> {
    s.take(i) + b + s.skip(i)
}

/// Total length of the inserted byte strings.
pub open spec fn sum_len(ins: Seq<(int, Seq<u8>)>) -> int
    decreases ins.len(),
{
    if ins.len() == 0 {
        0
    } else {
        sum_len(ins.drop_last()) + ins.last().1.len()
    }
}

/// Whether the insertion offsets ascend and stay within `len`.
pub open spec fn offsets_ok(ins: Seq<(int, Seq<u8>)>, len: int) -> bool {
    &&& forall|i: int| 0 <= i < ins.len() ==> 0 <= (#[trigger] ins[i]).0 <= len
    &&& forall|i: int, j: int| 0 <= i < j < ins.len() ==> (#[trigger] ins[i]).0 <= (#[trigger] ins[j]).0
}

/// `src` with every byte string of `ins` inserted at its offset in `src`:
/// the pieces of `src` between the offsets, interleaved with the insertions.
pub open spec fn spliced(src: Seq<u8>, ins: Seq<(int, Seq<u8>)>) -> Seq<u8>
    decreases ins.len(),
{
    if ins.len() == 0 {
        src
    } else {
        spliced(src.take(ins.last().0), ins.drop_last()) + ins.last().1 + src.skip(ins.last().0)
    }
}

/// The first `k` insertions applied one after the other to `src`, each at
/// its offset moved right by what the earlier ones inserted.
pub open spec fn composed(src: Seq<u8>, ins: Seq<(int, Seq<u8>)>, k: int) -> Seq<u8>
    decreases k,
{
    if k <= 0 {
        src
    } else {
        splice_at(
            composed(src, ins, k - 1),
            ins[k - 1].0 + sum_len(ins.take(k - 1)),
            ins[k - 1].1,
        )
    }
}

proof fn lemma_offsets_prefix(ins: Seq<(int, Seq<u8>)>, len: int, k: int)
    requires
        offsets_ok(ins, len),
        0 <= k <= ins.len(),
    ensures
        offsets_ok(ins.take(k), len),
        k > 0 ==> offsets_ok(ins.take(k), ins[k - 1].0),
{
    assert forall|i: int| 0 <= i < k implies (#[trigger] ins.take(k)[i]) == ins[i] by {}
    if k > 0 {
        assert forall|i: int| 0 <= i < k implies 0 <= (#[trigger] ins.take(k)[i]).0 <= ins[k - 1].0 by {
            assert(ins.take(k)[i] == ins[i]);
        }
    }
}

/// Length of the spliced result.
pub proof fn lemma_spliced_len(src: Seq<u8>, ins: Seq<(int, Seq<u8>)>)
    requires
        offsets_ok(ins, src.len() as int),
    ensures
        spliced(src, ins).len() == src.len() + sum_len(ins),
    decreases ins.len(),
{
    if ins.len() > 0 {
        let o = ins.last().0;
        lemma_offsets_prefix(ins, src.len() as int, ins.len() - 1);
        assert(ins.drop_last() == ins.take(ins.len() - 1));
        lemma_spliced_len(src.take(o), ins.drop_last());
    }
}

/// Splicing a prefix and appending the rest of the source is splicing the
/// whole, when no offset passes the prefix.
proof fn lemma_spliced_prefix(src: Seq<u8>, ins: Seq<(int, Seq<u8>)>, m: int)
    requires
        offsets_ok(ins, m),
        0 <= m <= src.len(),
    ensures
        spliced(src, ins) == spliced(src.take(m), ins) + src.skip(m),
{
    if ins.len() == 0 {
        assert(src =~= src.take(m) + src.skip(m));
    } else {
        let o = ins.last().0;
        assert(src.take(m).take(o) =~= src.take(o));
        assert(src.take(m).skip(o) + src.skip(m) =~= src.skip(o));
        assert(spliced(src.take(m), ins) + src.skip(m) =~= spliced(src.take(o), ins.drop_last())
            + ins.last().1 + (src.take(m).skip(o) + src.skip(m)));
    }
}

proof fn lemma_sum_len_take(ins: Seq<(int, Seq<u8>)>, k: int)
    requires
        0 <= k < ins.len(),
    ensures
        sum_len(ins.take(k + 1)) == sum_len(ins.take(k)) + ins[k].1.len(),
{
    assert(ins.take(k + 1).drop_last() =~= ins.take(k));
}

proof fn lemma_sum_len_mono(ins: Seq<(int, Seq<u8>)>, k: int)
    requires
        0 <= k <= ins.len(),
    ensures
        sum_len(ins.take(k)) <= sum_len(ins),
        sum_len(ins.take(k)) >= 0,
    decreases ins.len() - k,
{
    lemma_sum_len_nonneg(ins.take(k));
    if k < ins.len() {
        lemma_sum_len_take(ins, k);
        lemma_sum_len_mono(ins, k + 1);
    } else {
        assert(ins.take(k) =~= ins);
        lemma_sum_len_nonneg(ins);
    }
}

proof fn lemma_sum_len_nonneg(ins: Seq<(int, Seq<u8>)>)
    ensures
        sum_len(ins) >= 0,
    decreases ins.len(),
{
    if ins.len() > 0 {
        lemma_sum_len_nonneg(ins.drop_last());
    }
}

/// One more insertion, at its shifted offset, extends the spliced prefix.
proof fn lemma_splice_step(src: Seq<u8>, ins: Seq<(int, Seq<u8>)>, k: int)
    requires
        offsets_ok(ins, src.len() as int),
        0 <= k < ins.len(),
    ensures
        splice_at(spliced(src, ins.take(k)), ins[k].0 + sum_len(ins.take(k)), ins[k].1)
            == spliced(src, ins.take(k + 1)),
{
    let o = ins[k].0;
    let pre = ins.take(k);
    lemma_offsets_prefix(ins, src.len() as int, k + 1);
    assert(0 <= o <= src.len());
    assert(ins.take(k + 1).drop_last() =~= pre);
    assert(ins.take(k + 1).last() == ins[k]);
    assert(offsets_ok(pre, o)) by {
        assert forall|i: int| 0 <= i < pre.len() implies 0 <= (#[trigger] pre[i]).0 <= o by {
            assert(pre[i] == ins[i]);
        }
        assert forall|i: int, j: int| 0 <= i < j < pre.len() implies (#[trigger] pre[i]).0 <= (
        #[trigger] pre[j]).0 by {
            assert(pre[i] == ins[i]);
            assert(pre[j] == ins[j]);
        }
    }
    lemma_spliced_prefix(src, pre, o);
    lemma_spliced_len(src.take(o), pre);
    let a = spliced(src.take(o), pre);
    assert((a + src.skip(o)).take(o + sum_len(pre)) =~= a);
    assert((a + src.skip(o)).skip(o + sum_len(pre)) =~= src.skip(o));
}

/// Inserting tags one by one in ascending offset order, each at its
/// offset in the source moved right by the bytes inserted before it, gives the
/// source with every tag spliced in at its offset; the length
/// grows by the total length of the tags.
pub proof fn lemma_tag_insertion(src: Seq<u8>, ins: Seq<(int, Seq<u8>)>)
    requires
        offsets_ok(ins, src.len() as int),
    ensures
        composed(src, ins, ins.len() as int) == spliced(src, ins),
        composed(src, ins, ins.len() as int).len() == src.len() + sum_len(ins),
{
    lemma_composed_prefix(src, ins, ins.len() as int);
    assert(ins.take(ins.len() as int) =~= ins);
    lemma_spliced_len(src, ins);
}

proof fn lemma_composed_prefix(src: Seq<u8>, ins: Seq<(int, Seq<u8>)>, k: int)
    requires
        offsets_ok(ins, src.len() as int),
        0 <= k <= ins.len(),
    ensures
        composed(src, ins, k) == spliced(src, ins.take(k)),
    decreases k,
{
    if k == 0 {
        assert(ins.take(0) =~= Seq::<(int, Seq<u8>)>::empty());
    } else {
        lemma_composed_prefix(src, ins, k - 1);
        lemma_splice_step(src, ins, k - 1);
    }
}

/// Total length of the tags' bytes.
pub open spec fn total_len(tags: Seq<Tag>) -> int
    decreases tags.len(),
{
    if tags.len() == 0 {
        0
    } else {
        total_len(tags.drop_last()) + tag_bytes(tags.last().issue_number as nat).len()
    }
}

proof fn lemma_total_remove(b: Seq<Tag>, i: int)
    requires
        0 <= i < b.len(),
    ensures
        total_len(b) == total_len(b.remove(i)) + tag_bytes(b[i].issue_number as nat).len(),
    decreases b.len(),
{
    if i < b.len() - 1 {
        assert(b.remove(i).drop_last() =~= b.drop_last().remove(i));
        assert(b.remove(i).last() == b.last());
        lemma_total_remove(b.drop_last(), i);
    } else {
        assert(b.remove(i) =~= b.drop_last());
    }
}

/// The total length does not depend on the order of the tags.
proof fn lemma_total_perm(a: Seq<Tag>, b: Seq<Tag>)
    requires
        a.to_multiset() == b.to_multiset(),
    ensures
        total_len(a) == total_len(b),
    decreases a.len(),
{
    broadcast use vstd::seq_lib::group_to_multiset_ensures;

    if a.len() == 0 {
        assert(b.to_multiset().len() == 0);
        assert(b.len() == 0);
    } else {
        let x = a.last();
        assert(a.to_multiset().count(x) > 0) by {
            assert(a.contains(x)) by {
                assert(a[a.len() - 1] == x);
            }
        }
        assert(b.contains(x));
        let i = choose|i: int| 0 <= i < b.len() && b[i] == x;
        vstd::seq_lib::to_multiset_remove(b, i);
        vstd::seq_lib::to_multiset_remove(a, a.len() - 1);
        assert(a.remove(a.len() - 1) =~= a.drop_last());
        lemma_total_perm(a.drop_last(), b.remove(i));
        lemma_total_remove(b, i);
    }
}

/// Tags in the order they go in, with their bytes, for a file of
/// `orig_len` bytes that grows to `new_len`.
pub struct InsertPlan {
    pub tags: Vec<Tag>,
    pub texts: Vec<Vec<u8>>,
    pub orig_len: usize,
    pub new_len: usize,
}

/// Why a file's tags cannot be inserted.
#[derive(Copy, Clone, Debug, PartialEq, Eq, Structural)]
pub enum InsertError {
    /// A tag's offset lies past the end of the file.
    OffsetPastEnd,
    /// The file would grow past what a `usize` counts.
    TooLong,
}

/// The plan's insertions: offsets and bytes.
pub open spec fn plan_ins(p: InsertPlan) -> Seq<(int, Seq<u8>)> {
    Seq::new(
        p.tags@.len(),
        |i: int| (p.tags@[i].todo.tag_insertion_offset as int, p.texts@[i]@),
    )
}

impl InsertPlan {
    pub open spec fn wf(&self) -> bool {
        &&& self.tags@.len() == self.texts@.len()
        &&& forall|i: int|
            0 <= i < self.tags@.len() ==> (#[trigger] self.texts@[i])@ == tag_bytes(
                self.tags@[i].issue_number as nat,
            )
        &&& offsets_ok(plan_ins(*self), self.orig_len as int)
        &&& self.new_len == self.orig_len + sum_len(plan_ins(*self))
    }
}

proof fn lemma_plan_sum(p: InsertPlan, k: int)
    requires
        p.tags@.len() == p.texts@.len(),
        forall|i: int|
            0 <= i < p.tags@.len() ==> (#[trigger] p.texts@[i])@ == tag_bytes(
                p.tags@[i].issue_number as nat,
            ),
        0 <= k <= p.tags@.len(),
    ensures
        sum_len(plan_ins(p).take(k)) == total_len(p.tags@.take(k)),
    decreases k,
{
    if k > 0 {
        lemma_plan_sum(p, k - 1);
        assert(plan_ins(p).take(k).drop_last() =~= plan_ins(p).take(k - 1));
        assert(p.tags@.take(k).drop_last() =~= p.tags@.take(k - 1));
    }
}

/// Orders a file's pending tags for insertion into a file of `orig_len`
/// bytes: ascending by offset, each with its bytes.
pub fn plan_insertions(tags: Vec<Tag>, orig_len: usize) -> (r: Result<InsertPlan, InsertError>)
    ensures
        r matches Ok(p) ==> p.wf() && p.orig_len == orig_len && tags_sorted(p.tags@)
            && p.tags@.to_multiset() == tags@.to_multiset() && p.new_len == orig_len + total_len(
            tags@,
        ),
        r == Err::<InsertPlan, InsertError>(InsertError::OffsetPastEnd) <==> exists|i: int|
            0 <= i < tags@.len() && (#[trigger] tags@[i]).todo.tag_insertion_offset > orig_len,
        r == Err::<InsertPlan, InsertError>(InsertError::TooLong) <==> (forall|i: int|
            0 <= i < tags@.len() ==> (#[trigger] tags@[i]).todo.tag_insertion_offset <= orig_len)
            && orig_len + total_len(tags@) > usize::MAX,
{
    let n = tags.len();
    let mut i: usize = 0;
    while i < n
        invariant
            n == tags@.len(),
            i <= n,
            forall|k: int| 0 <= k < i ==> (#[trigger] tags@[k]).todo.tag_insertion_offset <= orig_len,
        decreases n - i,
    {
        if tags[i].todo.tag_insertion_offset > orig_len {
            return Err(InsertError::OffsetPastEnd);
        }
        i = i + 1;
    }
    let mut i: usize = 0;
    let mut total: usize = 0;
    while i < n
        invariant
            n == tags@.len(),
            i <= n,
            total == total_len(tags@.take(i as int)),
            orig_len + total <= usize::MAX,
            forall|k: int| 0 <= k < n ==> (#[trigger] tags@[k]).todo.tag_insertion_offset <= orig_len,
        decreases n - i,
    {
        let len = tags[i].to_bytes().len();
        proof {
            assert(tags@.take(i + 1).drop_last() =~= tags@.take(i as int));
            lemma_total_prefix_mono(tags@, i + 1);
        }
        if len > usize::MAX - orig_len - total {
            return Err(InsertError::TooLong);
        }
        total = total + len;
        i = i + 1;
    }
    assert(tags@.take(n as int) =~= tags@);
    let ghost input = tags@;
    let sorted = sort_tags(tags);
    let mut texts: Vec<Vec<u8>> = Vec::new();
    let mut j: usize = 0;
    while j < n
        invariant
            n == sorted@.len(),
            j <= n,
            texts@.len() == j,
            forall|k: int|
                0 <= k < j ==> (#[trigger] texts@[k])@ == tag_bytes(sorted@[k].issue_number as nat),
        decreases n - j,
    {
        texts.push(sorted[j].to_bytes());
        j = j + 1;
    }
    let plan = InsertPlan { tags: sorted, texts, orig_len, new_len: orig_len + total };
    proof {
        lemma_total_perm(input, plan.tags@);
        lemma_plan_sum(plan, n as int);
        assert(plan_ins(plan).take(n as int) =~= plan_ins(plan));
        assert(plan.tags@.take(n as int) =~= plan.tags@);
        assert forall|k: int| 0 <= k < plan.tags@.len() implies plan.tags@[k].todo.tag_insertion_offset
            <= orig_len by {
            assert(plan.tags@.to_multiset().count(plan.tags@[k]) > 0);
            assert(input.contains(plan.tags@[k]));
        }
    }
    Ok(plan)
}

/// A total over a longer prefix is at least as large.
proof fn lemma_total_prefix_mono(tags: Seq<Tag>, k: int)
    requires
        0 <= k <= tags.len(),
    ensures
        total_len(tags.take(k)) <= total_len(tags),
    decreases tags.len() - k,
{
    if k < tags.len() {
        assert(tags.take(k + 1).drop_last() =~= tags.take(k));
        lemma_total_prefix_mono(tags, k + 1);
    } else {
        assert(tags.take(k) =~= tags);
    }
}

/// Inserts a plan's tags into a file's bytes one at a time. The buffer has
/// the file's final length; its first `orig_len + shift` bytes are the
/// source with the first `done` tags inserted.
pub struct TagSplicer {
    pub plan: InsertPlan,
    pub done: usize,
    pub shift: usize,
    pub source: Ghost<Seq<u8>>,
}

impl TagSplicer {
    pub open spec fn holds(&self, buf: Seq<u8>) -> bool {
        &&& self.plan.wf()
        &&& self.done <= self.plan.tags@.len()
        &&& self.shift == sum_len(plan_ins(self.plan).take(self.done as int))
        &&& buf.len() == self.plan.new_len
        &&& self.source@.len() == self.plan.orig_len
        &&& buf.take(self.plan.orig_len + self.shift) == spliced(
            self.source@,
            plan_ins(self.plan).take(self.done as int),
        )
    }

    /// Starts on a buffer that holds the source in its first `orig_len`
    /// bytes and has the final length.
    pub fn new(plan: InsertPlan, buf: &[u8]) -> (r: TagSplicer)
        requires
            plan.wf(),
            buf@.len() == plan.new_len,
        ensures
            r.holds(buf@),
            r.done == 0,
            r.plan == plan,
            r.source@ == buf@.take(plan.orig_len as int),
    {
        let ghost ins = plan_ins(plan);
        proof {
            assert(ins.take(0) =~= Seq::<(int, Seq<u8>)>::empty());
            lemma_sum_len_nonneg(ins);
            assert(buf@.take(plan.orig_len as int).len() == plan.orig_len);
        }
        TagSplicer { plan, done: 0, shift: 0, source: Ghost(buf@.take(plan.orig_len as int)) }
    }

    pub fn is_done(&self) -> (r: bool)
        ensures
            r == (self.done >= self.plan.tags@.len()),
    {
        self.done >= self.plan.tags.len()
    }

    /// Inserts the next tag at its offset moved right by the bytes inserted
    /// so far, and returns its index; `None` when all are in.
    pub fn step(&mut self, buf: &mut [u8]) -> (r: Option<usize>)
        requires
            old(self).holds(old(buf)@),
        ensures
            final(self).holds(final(buf)@),
            final(self).plan == old(self).plan,
            final(self).source == old(self).source,
            old(self).done >= old(self).plan.tags@.len() ==> r is None && final(buf)@ == old(
                buf,
            )@ && final(self).done == old(self).done,
            old(self).done < old(self).plan.tags@.len() ==> r == Some(old(self).done)
                && final(self).done == old(self).done + 1 && final(buf)@.take(
                final(self).plan.orig_len + final(self).shift,
            ) == splice_at(
                old(buf)@.take(old(self).plan.orig_len + old(self).shift),
                plan_ins(old(self).plan)[old(self).done as int].0 + old(self).shift,
                plan_ins(old(self).plan)[old(self).done as int].1,
            ),
    {
        let i = self.done;
        if i >= self.plan.tags.len() {
            return None;
        }
        let ghost ins = plan_ins(self.plan);
        let ghost old_buf = buf@;
        let o = self.plan.tags[i].todo.tag_insertion_offset;
        let len = self.plan.texts[i].len();
        let orig = self.plan.orig_len;
        proof {
            assert(ins[i as int].0 == o);
            assert(ins[i as int].1 == self.plan.texts@[i as int]@);
            lemma_sum_len_take(ins, i as int);
            lemma_sum_len_mono(ins, i + 1);
            lemma_sum_len_nonneg(ins.take(i as int));
        }
        let dst = o + self.shift;
        let used = orig + self.shift;
        let blen = buf.len();
        move_within(buf, dst, used, dst + len);
        let ghost mid = buf@;
        proof {
            assert forall|k: int| 0 <= k < dst implies mid[k] == old_buf[k] by {}
            assert forall|k: int| dst + len <= k < used + len implies mid[k] == old_buf[k - len] by {}
        }
        let mut j: usize = 0;
        while j < len
            invariant
                len == self.plan.texts@[i as int]@.len(),
                i < self.plan.texts@.len(),
                dst + len <= buf@.len(),
                blen == buf@.len(),
                buf@.len() == mid.len(),
                old_buf.len() == blen,
                dst <= used,
                used + len <= blen,
                forall|k: int| 0 <= k < dst ==> mid[k] == old_buf[k],
                forall|k: int| dst + len <= k < used + len ==> mid[k] == old_buf[k - len],
                j <= len,
                forall|k: int| 0 <= k < buf@.len() && (k < dst || k >= dst + len) ==> buf@[k] == mid[k],
                forall|k: int| dst <= k < dst + j ==> buf@[k] == self.plan.texts@[i as int]@[k - dst],
            decreases len - j,
        {
            buf[dst + j] = self.plan.texts[i][j];
            j = j + 1;
        }
        proof {
            let bytes = self.plan.texts@[i as int]@;
            let before = old_buf.take(used as int);
            let want = splice_at(before, dst as int, bytes);
            assert forall|k: int| 0 <= k < used + len implies #[trigger] buf@[k] == want[k] by {
                if k < dst {
                    assert(want[k] == before[k]);
                    assert(buf@[k] == mid[k]);
                    assert(mid[k] == old_buf[k]);
                } else if k < dst + len {
                    assert(want[k] == bytes[k - dst]);
                    assert(buf@[k] == bytes[k - dst]);
                } else {
                    assert(want[k] == before[k - len]);
                    assert(buf@[k] == mid[k]);
                    assert(mid[k] == old_buf[k - len]);
                }
            }
            assert(buf@.take(used + len) =~= want);
            lemma_splice_step(self.source@, ins, i as int);
        }
        self.shift = self.shift + len;
        self.done = i + 1;
        Some(i)
    }

    /// Once every tag is in, the buffer is the source with all tags spliced
    /// in.
    pub proof fn lemma_finished(&self, buf: Seq<u8>)
        requires
            self.holds(buf),
            self.done == self.plan.tags@.len(),
        ensures
            buf == spliced(self.source@, plan_ins(self.plan)),
    {
        assert(plan_ins(self.plan).take(self.done as int) =~= plan_ins(self.plan));
        assert(buf.take(buf.len() as int) =~= buf);
    }
}

} // verus!
