//! Edits of a text by byte span, applied from the last span to the first so
//! that no edit moves a span that is still to be applied.

use vstd::prelude::*;
use vstd::string::*;
use vstd::utf8::*;
use crate::text::{push_text, slice_text};

verus! {

/// One edit: the bytes from `start` up to `end` give way to `replacement`.
#[derive(Debug, Clone, PartialEq, Eq)]
pub struct PatchEntry {
    pub start: usize,
    pub end: usize,
    pub replacement: String,
}

/// An edit over bytes.
pub struct PatchModel {
    pub start: int,
    pub end: int,
    pub replacement: Seq<u8>,
}

impl View for PatchEntry {
    type V = PatchModel;

    open spec fn view(&self) -> PatchModel {
        PatchModel {
            start: self.start as int,
            end: self.end as int,
            replacement: encode_utf8(self.replacement@),
        }
    }
}

/// The edits of a list, in its order.
pub open spec fn patch_models(patches: Seq<PatchEntry>) -> Seq<PatchModel> {
    Seq::new(patches.len(), |i: int| patches[i]@)
}

/// `content` with one span replaced.
pub open spec fn splice(content: Seq<u8>, patch: PatchModel) -> Seq<u8> {
    content.subrange(0, patch.start) + patch.replacement + content.subrange(
        patch.end,
        content.len() as int,
    )
}

/// `content` after the edits, the last of the list applied first.
pub open spec fn patched(content: Seq<u8>, patches: Seq<PatchModel>) -> Seq<u8>
    decreases patches.len(),
{
    if patches.len() == 0 {
        content
    } else {
        patched(splice(content, patches.last()), patches.drop_last())
    }
}

/// The positions in `order` with `index` put in its place among them: behind
/// every position whose span starts no later than the span at `index`.
pub open spec fn placed(patches: Seq<PatchModel>, order: Seq<usize>, index: usize) -> Seq<usize>
    decreases order.len(),
{
    if order.len() == 0 || patches[order.last() as int].start <= patches[index as int].start {
        order.push(index)
    } else {
        placed(patches, order.drop_last(), index).push(order.last())
    }
}

/// The positions of the first `count` edits, ordered by where their spans
/// start; edits whose spans start at one offset keep the order of the list.
pub open spec fn span_order(patches: Seq<PatchModel>, count: nat) -> Seq<usize>
    decreases count,
{
    if count == 0 {
        Seq::empty()
    } else {
        placed(patches, span_order(patches, (count - 1) as nat), (count - 1) as usize)
    }
}

/// The edits ordered by where their spans start, whatever the order in which
/// they were found.
pub open spec fn in_span_order(patches: Seq<PatchModel>) -> Seq<PatchModel> {
    Seq::new(patches.len(), |i: int| patches[span_order(patches, patches.len())[i] as int])
}

/// The spans lie in a text of `len` bytes, in ascending order, and none
/// reaches into the next.
pub open spec fn spans_fit(len: int, patches: Seq<PatchModel>) -> bool {
    &&& forall|i: int|
        0 <= i < patches.len() ==> 0 <= (#[trigger] patches[i]).start <= patches[i].end <= len
    &&& forall|i: int, j: int|
        0 <= i < j < patches.len() ==> (#[trigger] patches[i]).end <= (#[trigger] patches[j]).start
}

/// Every span starts and ends between two characters of `content`.
pub open spec fn on_boundaries(content: Seq<u8>, patches: Seq<PatchModel>) -> bool {
    forall|i: int|
        0 <= i < patches.len() ==> is_char_boundary(content, (#[trigger] patches[i]).start)
            && is_char_boundary(content, patches[i].end)
}

/// The first `to` bytes of `content` with every span replaced at once: what
/// stands between two spans is kept as it is.
pub open spec fn stitched(content: Seq<u8>, patches: Seq<PatchModel>, to: int) -> Seq<u8>
    decreases patches.len(),
{
    if patches.len() == 0 {
        content.subrange(0, to)
    } else {
        stitched(content, patches.drop_last(), patches.last().start) + patches.last().replacement
            + content.subrange(patches.last().end, to)
    }
}

/// Stitching up to a later offset adds the bytes in between as they are.
pub proof fn lemma_stitched_extends(content: Seq<u8>, patches: Seq<PatchModel>, mid: int, to: int)
    requires
        spans_fit(mid, patches),
        0 <= mid <= to <= content.len(),
    ensures
        stitched(content, patches, to) == stitched(content, patches, mid) + content.subrange(
            mid,
            to,
        ),
{
    if patches.len() == 0 {
        assert(content.subrange(0, to) =~= content.subrange(0, mid) + content.subrange(mid, to));
    } else {
        let last = patches.last();
        assert(content.subrange(last.end, to) =~= content.subrange(last.end, mid)
            + content.subrange(mid, to));
        assert(stitched(content, patches, to) =~= stitched(content, patches, mid)
            + content.subrange(mid, to));
    }
}

/// Stitching the first `to` bytes reads no byte behind them.
proof fn lemma_stitched_reads_prefix(
    first: Seq<u8>,
    second: Seq<u8>,
    patches: Seq<PatchModel>,
    to: int,
)
    requires
        spans_fit(to, patches),
        0 <= to <= first.len(),
        to <= second.len(),
        first.subrange(0, to) == second.subrange(0, to),
    ensures
        stitched(first, patches, to) == stitched(second, patches, to),
    decreases patches.len(),
{
    if patches.len() > 0 {
        let last = patches.last();
        let init = patches.drop_last();
        lemma_spans_fit_init(to, patches);
        assert(first.subrange(0, last.start) =~= first.subrange(0, to).subrange(0, last.start));
        assert(second.subrange(0, last.start) =~= second.subrange(0, to).subrange(0, last.start));
        lemma_stitched_reads_prefix(first, second, init, last.start);
        assert(first.subrange(last.end, to) =~= first.subrange(0, to).subrange(last.end, to));
        assert(second.subrange(last.end, to) =~= second.subrange(0, to).subrange(last.end, to));
    }
}

/// Spans that fit in a text fit in a longer one.
pub proof fn lemma_spans_fit_wider(len: int, wider: int, patches: Seq<PatchModel>)
    requires
        spans_fit(len, patches),
        len <= wider,
    ensures
        spans_fit(wider, patches),
{
}

/// All but the last of a fitting list fit before the last span starts.
pub proof fn lemma_spans_fit_init(len: int, patches: Seq<PatchModel>)
    requires
        spans_fit(len, patches),
        patches.len() > 0,
    ensures
        spans_fit(patches.last().start, patches.drop_last()),
{
    let init = patches.drop_last();
    let last = patches.last();
    assert forall|i: int| 0 <= i < init.len() implies 0 <= (#[trigger] init[i]).start
        <= init[i].end <= last.start by {
        assert(init[i] == patches[i]);
    }
    assert forall|i: int, j: int| 0 <= i < j < init.len() implies (#[trigger] init[i]).end <= (
    #[trigger] init[j]).start by {
        assert(init[i] == patches[i]);
        assert(init[j] == patches[j]);
    }
}

/// Applying fitting edits from the last to the first replaces every span and
/// keeps every byte outside the spans: the result is the text stitched from
/// the untouched ranges and the replacements, whatever their lengths.
pub proof fn lemma_patched_is_stitched(content: Seq<u8>, patches: Seq<PatchModel>)
    requires
        spans_fit(content.len() as int, patches),
    ensures
        patched(content, patches) == stitched(content, patches, content.len() as int),
    decreases patches.len(),
{
    if patches.len() == 0 {
        assert(content.subrange(0, content.len() as int) =~= content);
    } else {
        let last = patches.last();
        let init = patches.drop_last();
        let after = splice(content, last);
        lemma_spans_fit_init(content.len() as int, patches);
        assert(spans_fit(after.len() as int, init)) by {
            assert forall|i: int| 0 <= i < init.len() implies 0 <= (#[trigger] init[i]).start
                <= init[i].end <= after.len() by {}
        }
        lemma_patched_is_stitched(after, init);
        lemma_stitched_extends(after, init, last.start, after.len() as int);
        assert(after.subrange(0, last.start) =~= content.subrange(0, last.start));
        lemma_stitched_reads_prefix(after, content, init, last.start);
        assert(after.subrange(last.start, after.len() as int) =~= last.replacement
            + content.subrange(last.end, content.len() as int));
        assert(stitched(after, init, after.len() as int) =~= stitched(
            content,
            patches,
            content.len() as int,
        ));
    }
}

/// An offset at or before an edited span is between two characters after
/// the edit if it was before.
proof fn lemma_splice_keeps_boundary(content: Seq<u8>, patch: PatchModel, k: int)
    requires
        valid_utf8(content),
        valid_utf8(patch.replacement),
        valid_utf8(splice(content, patch)),
        0 <= k <= patch.start <= patch.end <= content.len(),
        is_char_boundary(content, k),
        is_char_boundary(content, patch.end),
    ensures
        is_char_boundary(splice(content, patch), k),
{
    let after = splice(content, patch);
    if k == after.len() {
        is_char_boundary_start_end_of_seq(after);
    } else if k < patch.start {
        assert(after[k] == content[k]);
        is_char_boundary_iff_not_is_continuation_byte(content, k);
        is_char_boundary_iff_not_is_continuation_byte(after, k);
    } else if patch.replacement.len() > 0 {
        assert(after[k] == patch.replacement[0]);
        is_char_boundary_start_end_of_seq(patch.replacement);
        is_char_boundary_iff_not_is_continuation_byte(patch.replacement, 0);
        is_char_boundary_iff_not_is_continuation_byte(after, k);
    } else {
        assert(after[k] == content[patch.end]);
        is_char_boundary_iff_not_is_continuation_byte(content, patch.end);
        is_char_boundary_iff_not_is_continuation_byte(after, k);
    }
}

/// The text up to an offset `mid` that no span straddles comes out the same
/// whatever the edits behind it: the output begins with the first `mid`
/// bytes stitched from the edits before `mid` alone.
pub proof fn lemma_stitched_begins_with(
    content: Seq<u8>,
    patches: Seq<PatchModel>,
    count: int,
    mid: int,
    to: int,
)
    requires
        spans_fit(to, patches),
        0 <= mid <= to <= content.len(),
        0 <= count <= patches.len(),
        spans_fit(mid, patches.subrange(0, count)),
        forall|i: int| count <= i < patches.len() ==> mid <= (#[trigger] patches[i]).start,
    ensures
        stitched(content, patches.subrange(0, count), mid).len() <= stitched(
            content,
            patches,
            to,
        ).len(),
        stitched(content, patches, to).subrange(
            0,
            stitched(content, patches.subrange(0, count), mid).len() as int,
        ) == stitched(content, patches.subrange(0, count), mid),
    decreases patches.len() - count,
{
    let head = stitched(content, patches.subrange(0, count), mid);
    if count == patches.len() {
        assert(patches.subrange(0, count) =~= patches);
        lemma_stitched_extends(content, patches, mid, to);
        assert((head + content.subrange(mid, to)).subrange(0, head.len() as int) =~= head);
    } else {
        let last = patches.last();
        let init = patches.drop_last();
        lemma_spans_fit_init(to, patches);
        assert(init.subrange(0, count) =~= patches.subrange(0, count));
        assert forall|i: int| count <= i < init.len() implies mid <= (#[trigger] init[i]).start by {
            assert(init[i] == patches[i]);
        }
        lemma_stitched_begins_with(content, init, count, mid, last.start);
        let shorter = stitched(content, init, last.start);
        assert(shorter.subrange(0, head.len() as int) == head);
        assert((shorter + last.replacement + content.subrange(last.end, to)).subrange(
            0,
            head.len() as int,
        ) =~= shorter.subrange(0, head.len() as int));
    }
}

/// Every range of bytes that no span touches is kept as it is. The range from
/// `start` to `end` lies behind the first `count` spans and before the
/// others; in the output it stands behind the patched text before it.
pub proof fn lemma_untouched_range_is_kept(
    content: Seq<u8>,
    patches: Seq<PatchModel>,
    count: int,
    start: int,
    end: int,
)
    requires
        spans_fit(content.len() as int, patches),
        0 <= count <= patches.len(),
        0 <= start <= end <= content.len(),
        spans_fit(start, patches.subrange(0, count)),
        forall|i: int| count <= i < patches.len() ==> end <= (#[trigger] patches[i]).start,
    ensures
        ({
            let at = stitched(content, patches.subrange(0, count), start).len() as int;
            &&& at + (end - start) <= patched(content, patches).len()
            &&& patched(content, patches).subrange(at, at + (end - start)) == content.subrange(
                start,
                end,
            )
        }),
{
    let first = patches.subrange(0, count);
    lemma_patched_is_stitched(content, patches);
    lemma_spans_fit_wider(start, end, first);
    lemma_stitched_begins_with(content, patches, count, end, content.len() as int);
    lemma_stitched_extends(content, first, start, end);
    let head = stitched(content, first, start);
    let kept = content.subrange(start, end);
    let out = patched(content, patches);
    assert(stitched(content, first, end) == head + kept);
    let both = head + kept;
    assert(out.subrange(0, both.len() as int) == both);
    assert(both.len() <= out.len());
    assert forall|i: int| 0 <= i < kept.len() implies out[head.len() + i] == kept[i] by {
        assert(out.subrange(0, both.len() as int)[head.len() + i] == both[head.len() + i]);
    }
    assert(out.subrange(head.len() as int, (head.len() + kept.len()) as int) =~= kept);
}

/// `order` holds positions below `bound`, none of them twice, by ascending
/// start of their spans.
pub open spec fn ordered_positions(patches: Seq<PatchModel>, order: Seq<usize>, bound: int) -> bool {
    &&& forall|k: int| 0 <= k < order.len() ==> (#[trigger] order[k]) < bound
    &&& forall|j: int, k: int|
        0 <= j < k < order.len() ==> (#[trigger] order[j]) != (#[trigger] order[k])
    &&& forall|j: int, k: int|
        0 <= j < k < order.len() ==> patches[(#[trigger] order[j]) as int].start
            <= patches[(#[trigger] order[k]) as int].start
}

/// Every position of `order` is another than `avoid`, and its span starts at
/// `limit` at the latest.
spec fn held_below(patches: Seq<PatchModel>, order: Seq<usize>, limit: int, avoid: usize) -> bool {
    forall|k: int|
        0 <= k < order.len() ==> (#[trigger] order[k]) != avoid && patches[order[k] as int].start
            <= limit
}

proof fn lemma_placed_held_below(
    patches: Seq<PatchModel>,
    order: Seq<usize>,
    index: usize,
    limit: int,
    avoid: usize,
)
    requires
        held_below(patches, order, limit, avoid),
        index != avoid,
        patches[index as int].start <= limit,
    ensures
        held_below(patches, placed(patches, order, index), limit, avoid),
        placed(patches, order, index).len() == order.len() + 1,
    decreases order.len(),
{
    if !(order.len() == 0 || patches[order.last() as int].start <= patches[index as int].start) {
        let shorter = order.drop_last();
        assert forall|k: int| 0 <= k < shorter.len() implies (#[trigger] shorter[k]) != avoid
            && patches[shorter[k] as int].start <= limit by {
            assert(shorter[k] == order[k]);
        }
        lemma_placed_held_below(patches, shorter, index, limit, avoid);
        let inner = placed(patches, shorter, index);
        let all = inner.push(order.last());
        assert forall|k: int| 0 <= k < all.len() implies (#[trigger] all[k]) != avoid
            && patches[all[k] as int].start <= limit by {
            if k < inner.len() {
                assert(all[k] == inner[k]);
            } else {
                assert(all[k] == order[order.len() - 1]);
            }
        }
    }
}

proof fn lemma_placed_is_ordered(patches: Seq<PatchModel>, order: Seq<usize>, index: usize)
    requires
        ordered_positions(patches, order, index as int),
    ensures
        ordered_positions(patches, placed(patches, order, index), index + 1),
        placed(patches, order, index).len() == order.len() + 1,
    decreases order.len(),
{
    if order.len() == 0 || patches[order.last() as int].start <= patches[index as int].start {
        let all = order.push(index);
        assert forall|j: int, k: int| 0 <= j < k < all.len() implies (#[trigger] all[j]) != (
        #[trigger] all[k]) && patches[all[j] as int].start <= patches[all[k] as int].start by {
            assert(all[j] == order[j]);
            if k < order.len() {
                assert(all[k] == order[k]);
            } else if j < order.len() - 1 {
                assert(patches[order[j] as int].start <= patches[order[order.len() - 1] as int].start);
            }
        }
        assert forall|k: int| 0 <= k < all.len() implies (#[trigger] all[k]) < index + 1 by {
            if k < order.len() {
                assert(all[k] == order[k]);
            }
        }
    } else {
        let shorter = order.drop_last();
        let last = order.last();
        assert(last == order[order.len() - 1]);
        assert forall|k: int| 0 <= k < shorter.len() implies (#[trigger] shorter[k]) != last
            && patches[shorter[k] as int].start <= patches[last as int].start && shorter[k]
            < index by {
            assert(shorter[k] == order[k]);
        }
        assert(ordered_positions(patches, shorter, index as int)) by {
            assert forall|j: int, k: int| 0 <= j < k < shorter.len() implies (
            #[trigger] shorter[j]) != (#[trigger] shorter[k]) && patches[shorter[j] as int].start
                <= patches[shorter[k] as int].start by {
                assert(shorter[j] == order[j]);
                assert(shorter[k] == order[k]);
            }
        }
        lemma_placed_is_ordered(patches, shorter, index);
        lemma_placed_held_below(patches, shorter, index, patches[last as int].start, last);
        let inner = placed(patches, shorter, index);
        let all = inner.push(last);
        assert forall|j: int, k: int| 0 <= j < k < all.len() implies (#[trigger] all[j]) != (
        #[trigger] all[k]) && patches[all[j] as int].start <= patches[all[k] as int].start by {
            assert(all[j] == inner[j]);
            if k < inner.len() {
                assert(all[k] == inner[k]);
            }
        }
        assert forall|k: int| 0 <= k < all.len() implies (#[trigger] all[k]) < index + 1 by {
            if k < inner.len() {
                assert(all[k] == inner[k]);
            }
        }
    }
}

proof fn lemma_span_order_is_ordered(patches: Seq<PatchModel>, count: nat)
    requires
        count <= usize::MAX,
    ensures
        ordered_positions(patches, span_order(patches, count), count as int),
        span_order(patches, count).len() == count,
    decreases count,
{
    if count > 0 {
        lemma_span_order_is_ordered(patches, (count - 1) as nat);
        lemma_placed_is_ordered(
            patches,
            span_order(patches, (count - 1) as nat),
            (count - 1) as usize,
        );
    }
}

/// The edits in span order are the edits of the list, each taken once, and
/// the starts of their spans ascend: walked from the last to the first, the
/// edits come in descending order of start.
pub proof fn lemma_in_span_order_ascends(patches: Seq<PatchModel>)
    requires
        patches.len() <= usize::MAX,
    ensures
        in_span_order(patches).len() == patches.len(),
        ordered_positions(patches, span_order(patches, patches.len()), patches.len() as int),
        forall|i: int, j: int|
            0 <= i < j < patches.len() ==> (#[trigger] in_span_order(patches)[i]).start <= (
            #[trigger] in_span_order(patches)[j]).start,
{
    let order = span_order(patches, patches.len());
    lemma_span_order_is_ordered(patches, patches.len());
    assert forall|i: int, j: int| 0 <= i < j < patches.len() implies (#[trigger] in_span_order(
        patches,
    )[i]).start <= (#[trigger] in_span_order(patches)[j]).start by {
        assert(patches[order[i] as int].start <= patches[order[j] as int].start);
    }
}

proof fn lemma_placed_holds_all(patches: Seq<PatchModel>, order: Seq<usize>, index: usize)
    ensures
        placed(patches, order, index).contains(index),
        forall|m: int| 0 <= m < order.len() ==> placed(patches, order, index).contains(#[trigger] order[m]),
    decreases order.len(),
{
    if order.len() == 0 || patches[order.last() as int].start <= patches[index as int].start {
        let all = order.push(index);
        assert(all[order.len() as int] == index);
        assert forall|m: int| 0 <= m < order.len() implies all.contains(#[trigger] order[m]) by {
            assert(all[m] == order[m]);
        }
    } else {
        let shorter = order.drop_last();
        lemma_placed_holds_all(patches, shorter, index);
        let inner = placed(patches, shorter, index);
        let all = inner.push(order.last());
        let at = choose|k: int| 0 <= k < inner.len() && inner[k] == index;
        assert(all[at] == index);
        assert forall|m: int| 0 <= m < order.len() implies all.contains(#[trigger] order[m]) by {
            if m < shorter.len() {
                assert(shorter[m] == order[m]);
                let k = choose|k: int| 0 <= k < inner.len() && inner[k] == shorter[m];
                assert(all[k] == order[m]);
            } else {
                assert(all[inner.len() as int] == order[m]);
            }
        }
    }
}

proof fn lemma_span_order_holds_all(patches: Seq<PatchModel>, count: nat)
    requires
        count <= usize::MAX,
    ensures
        forall|i: int| 0 <= i < count ==> span_order(patches, count).contains(#[trigger] (i as usize)),
    decreases count,
{
    if count > 0 {
        let before = span_order(patches, (count - 1) as nat);
        let now = span_order(patches, count);
        lemma_span_order_holds_all(patches, (count - 1) as nat);
        lemma_placed_holds_all(patches, before, (count - 1) as usize);
        assert forall|i: int| 0 <= i < count implies now.contains(#[trigger] (i as usize)) by {
            if i < count - 1 {
                let m = choose|m: int| 0 <= m < before.len() && before[m] == i as usize;
                assert(now.contains(before[m]));
            }
        }
    }
}

/// No two edits of the list have spans that start at one offset.
pub open spec fn distinct_starts(patches: Seq<PatchModel>) -> bool {
    forall|i: int, j: int|
        0 <= i < j < patches.len() ==> (#[trigger] patches[i]).start != (#[trigger] patches[j]).start
}

/// The starts of the spans ascend strictly along the list.
pub open spec fn starts_ascend(patches: Seq<PatchModel>) -> bool {
    forall|i: int, j: int|
        0 <= i < j < patches.len() ==> (#[trigger] patches[i]).start < (#[trigger] patches[j]).start
}

/// Two lists whose starts ascend strictly and that hold the same edits are
/// one list.
proof fn lemma_ascending_lists_agree(first: Seq<PatchModel>, second: Seq<PatchModel>)
    requires
        first.len() == second.len(),
        starts_ascend(first),
        starts_ascend(second),
        forall|x: PatchModel| first.contains(x) <==> second.contains(x),
    ensures
        first == second,
    decreases first.len(),
{
    if first.len() == 0 {
        assert(first =~= second);
    } else {
        let n = first.len() as int;
        let a = first.last();
        let b = second.last();
        assert(first[n - 1] == a && second[n - 1] == b);
        assert(first.contains(a));
        assert(second.contains(b));
        let k = choose|k: int| 0 <= k < n && second[k] == a;
        let m = choose|m: int| 0 <= m < n && first[m] == b;
        assert(a == b) by {
            if k < n - 1 {
                assert(second[k].start < second[n - 1].start);
                if m < n - 1 {
                    assert(first[m].start < first[n - 1].start);
                }
            }
        }
        let head = first.drop_last();
        let other = second.drop_last();
        assert forall|x: PatchModel| head.contains(x) <==> other.contains(x) by {
            if head.contains(x) {
                let i = choose|i: int| 0 <= i < head.len() && head[i] == x;
                assert(first[i] == x);
                assert(first[i].start < first[n - 1].start);
                assert(first.contains(x));
                let j = choose|j: int| 0 <= j < n && second[j] == x;
                assert(other[j] == x);
            }
            if other.contains(x) {
                let i = choose|i: int| 0 <= i < other.len() && other[i] == x;
                assert(second[i] == x);
                assert(second[i].start < second[n - 1].start);
                assert(second.contains(x));
                let j = choose|j: int| 0 <= j < n && first[j] == x;
                assert(head[j] == x);
            }
        }
        assert(starts_ascend(head)) by {
            assert forall|i: int, j: int| 0 <= i < j < head.len() implies (#[trigger] head[i]).start
                < (#[trigger] head[j]).start by {
                assert(head[i] == first[i] && head[j] == first[j]);
            }
        }
        assert(starts_ascend(other)) by {
            assert forall|i: int, j: int| 0 <= i < j < other.len() implies (
            #[trigger] other[i]).start < (#[trigger] other[j]).start by {
                assert(other[i] == second[i] && other[j] == second[j]);
            }
        }
        lemma_ascending_lists_agree(head, other);
        assert(first =~= head.push(a));
        assert(second =~= other.push(b));
    }
}

/// The edits in span order are those of the list, and their starts ascend
/// strictly where no two spans start at one offset.
proof fn lemma_in_span_order_of_distinct(patches: Seq<PatchModel>)
    requires
        patches.len() <= usize::MAX,
        distinct_starts(patches),
    ensures
        in_span_order(patches).len() == patches.len(),
        starts_ascend(in_span_order(patches)),
        forall|x: PatchModel| in_span_order(patches).contains(x) <==> patches.contains(x),
{
    let order = span_order(patches, patches.len());
    let sorted = in_span_order(patches);
    lemma_span_order_is_ordered(patches, patches.len());
    lemma_span_order_holds_all(patches, patches.len());
    assert forall|i: int, j: int| 0 <= i < j < sorted.len() implies (#[trigger] sorted[i]).start < (
    #[trigger] sorted[j]).start by {
        assert(order[i] != order[j]);
        assert(patches[order[i] as int].start <= patches[order[j] as int].start);
        if order[i] < order[j] {
            assert(patches[order[i] as int].start != patches[order[j] as int].start);
        } else {
            assert(patches[order[j] as int].start != patches[order[i] as int].start);
        }
    }
    assert forall|x: PatchModel| sorted.contains(x) <==> patches.contains(x) by {
        if sorted.contains(x) {
            let k = choose|k: int| 0 <= k < sorted.len() && sorted[k] == x;
            assert(patches[order[k] as int] == x);
        }
        if patches.contains(x) {
            let i = choose|i: int| 0 <= i < patches.len() && patches[i] == x;
            assert(order.contains(i as usize));
            let k = choose|k: int| 0 <= k < order.len() && order[k] == i as usize;
            assert(sorted[k] == x);
        }
    }
}

/// The order in which the blocks are found plays no part, however many there
/// are: two lists that hold the same edits, no two of them starting at one
/// offset, come out in one span order, and so give one patched text.
pub proof fn lemma_any_discovery_order(
    content: Seq<u8>,
    found: Seq<PatchModel>,
    otherwise: Seq<PatchModel>,
)
    requires
        found.len() == otherwise.len(),
        found.len() <= usize::MAX,
        distinct_starts(found),
        distinct_starts(otherwise),
        forall|x: PatchModel| found.contains(x) <==> otherwise.contains(x),
    ensures
        in_span_order(found) == in_span_order(otherwise),
        patched(content, in_span_order(found)) == patched(content, in_span_order(otherwise)),
{
    lemma_in_span_order_of_distinct(found);
    lemma_in_span_order_of_distinct(otherwise);
    assert forall|x: PatchModel|
        in_span_order(found).contains(x) <==> in_span_order(otherwise).contains(x) by {
        assert(in_span_order(found).contains(x) <==> found.contains(x));
        assert(found.contains(x) <==> otherwise.contains(x));
        assert(in_span_order(otherwise).contains(x) <==> otherwise.contains(x));
    }
    lemma_ascending_lists_agree(in_span_order(found), in_span_order(otherwise));
}

/// A list whose spans fit is in span order as it stands.
pub proof fn lemma_fitting_list_is_ordered(len: int, patches: Seq<PatchModel>, count: nat)
    requires
        spans_fit(len, patches),
        count <= patches.len(),
        patches.len() <= usize::MAX,
    ensures
        span_order(patches, count) == Seq::new(count, |k: int| k as usize),
        count == patches.len() ==> in_span_order(patches) == patches,
    decreases count,
{
    if count > 0 {
        lemma_fitting_list_is_ordered(len, patches, (count - 1) as nat);
        let before = span_order(patches, (count - 1) as nat);
        if before.len() > 0 {
            assert(before.last() == (count - 2) as usize);
            assert(patches[count - 2].start <= patches[count - 2].end);
            assert(patches[count - 2].end <= patches[count - 1].start);
        }
        assert(span_order(patches, count) =~= Seq::new(count, |k: int| k as usize));
    }
    if count == patches.len() {
        assert(in_span_order(patches) =~= patches);
    }
}

/// Which of two blocks is found first plays no part. Of two spans that do not
/// overlap, `a` starting before `b`, the list may hold either first: the
/// edits are applied in the same order, and the text that comes out has both
/// spans replaced and every other byte in its place.
pub proof fn lemma_discovery_order_is_irrelevant(content: Seq<u8>, a: PatchModel, b: PatchModel)
    requires
        0 <= a.start <= a.end <= b.start <= b.end <= content.len(),
        a.start < b.start,
    ensures
        in_span_order(seq![a, b]) == seq![a, b],
        in_span_order(seq![b, a]) == seq![a, b],
        patched(content, in_span_order(seq![b, a])) == patched(content, in_span_order(seq![a, b])),
        patched(content, seq![a, b]) == content.subrange(0, a.start) + a.replacement
            + content.subrange(a.end, b.start) + b.replacement + content.subrange(
            b.end,
            content.len() as int,
        ),
{
    let forward = seq![a, b];
    let backward = seq![b, a];
    reveal_with_fuel(span_order, 3);
    reveal_with_fuel(placed, 3);
    assert(span_order(forward, 1) =~= seq![0usize]);
    assert(span_order(forward, 2) =~= seq![0usize, 1usize]);
    assert(span_order(backward, 1) =~= seq![0usize]);
    assert(seq![0usize].drop_last() =~= Seq::<usize>::empty());
    assert(span_order(backward, 2) =~= seq![1usize, 0usize]);
    assert(in_span_order(forward) =~= forward);
    assert(in_span_order(backward) =~= forward);
    assert(spans_fit(content.len() as int, forward));
    lemma_patched_is_stitched(content, forward);
    reveal_with_fuel(stitched, 3);
    assert(forward.drop_last() =~= seq![a]);
    assert(seq![a].drop_last() =~= Seq::<PatchModel>::empty());
    assert(stitched(content, forward, content.len() as int) =~= content.subrange(0, a.start)
        + a.replacement + content.subrange(a.end, b.start) + b.replacement + content.subrange(
        b.end,
        content.len() as int,
    ));
}

/// The positions of the edits, ordered by where their spans start.
fn ascending_order(patches: &Vec<PatchEntry>) -> (order: Vec<usize>)
    ensures
        order@ == span_order(patch_models(patches@), patches@.len()),
        order@.len() == patches@.len(),
        forall|k: int| 0 <= k < order@.len() ==> (#[trigger] order@[k]) < patches@.len(),
{
    let ghost models = patch_models(patches@);
    let mut order: Vec<usize> = Vec::new();
    let mut i: usize = 0;
    while i < patches.len()
        invariant
            i <= patches.len(),
            models == patch_models(patches@),
            order@ == span_order(models, i as nat),
            order@.len() == i,
            forall|k: int| 0 <= k < order@.len() ==> (#[trigger] order@[k]) < i,
        decreases patches.len() - i,
    {
        let start: usize = patches[i].start;
        let mut pos: usize = order.len();
        assert(order@.subrange(0, pos as int) =~= order@);
        assert(order@.subrange(pos as int, order@.len() as int) =~= Seq::<usize>::empty());
        while pos > 0 && patches[order[pos - 1]].start > start
            invariant
                pos <= order@.len(),
                i < patches.len(),
                start == patches@[i as int].start,
                models == patch_models(patches@),
                forall|k: int| 0 <= k < order@.len() ==> (#[trigger] order@[k]) < i,
                placed(models, order@, i) == placed(models, order@.subrange(0, pos as int), i)
                    + order@.subrange(pos as int, order@.len() as int),
            decreases pos,
        {
            let ghost head = order@.subrange(0, pos as int);
            assert(head.last() == order@[pos - 1]);
            assert(models[order@[pos - 1] as int] == patches@[order@[pos - 1] as int]@);
            assert(models[i as int] == patches@[i as int]@);
            assert(head.drop_last() =~= order@.subrange(0, pos - 1));
            assert(placed(models, head, i) == placed(models, head.drop_last(), i).push(
                head.last(),
            ));
            assert(placed(models, head.drop_last(), i).push(head.last()) + order@.subrange(
                pos as int,
                order@.len() as int,
            ) =~= placed(models, head.drop_last(), i) + order@.subrange(
                pos - 1,
                order@.len() as int,
            ));
            pos -= 1;
        }
        proof {
            let head = order@.subrange(0, pos as int);
            if pos > 0 {
                assert(head.last() == order@[pos - 1]);
                assert(models[order@[pos - 1] as int] == patches@[order@[pos - 1] as int]@);
                assert(models[i as int] == patches@[i as int]@);
            }
            assert(placed(models, head, i) == head.push(i));
            assert(order@.insert(pos as int, i) =~= head.push(i) + order@.subrange(
                pos as int,
                order@.len() as int,
            ));
        }
        order.insert(pos, i);
        i += 1;
    }
    order
}

/// Applies the edits to `content` and returns the patched text. The edits
/// are applied in descending order of their spans' starts, whatever the
/// order in which the list holds them: a list in ascending order is walked
/// from its last entry to its first.
pub fn apply_patches(content: &str, patches: &Vec<PatchEntry>) -> (result: String)
    requires
        spans_fit(encode_utf8(content@).len() as int, in_span_order(patch_models(patches@))),
        on_boundaries(encode_utf8(content@), patch_models(patches@)),
    ensures
        encode_utf8(result@) == patched(
            encode_utf8(content@),
            in_span_order(patch_models(patches@)),
        ),
        encode_utf8(result@) == stitched(
            encode_utf8(content@),
            in_span_order(patch_models(patches@)),
            encode_utf8(content@).len() as int,
        ),
{
    let ghost models = in_span_order(patch_models(patches@));
    let order = ascending_order(patches);
    let mut current: String = content.to_owned();
    let mut i: usize = order.len();
    proof {
        lemma_patched_is_stitched(encode_utf8(content@), models);
        assert(models.subrange(0, i as int) =~= models);
        assert forall|j: int| 0 <= j < models.len() implies is_char_boundary(
            encode_utf8(content@),
            (#[trigger] models[j]).start,
        ) && is_char_boundary(encode_utf8(content@), models[j].end) by {
            assert(models[j] == patch_models(patches@)[order@[j] as int]);
        }
    }
    while i > 0
        invariant
            i <= order@.len(),
            order@.len() == patches@.len(),
            order@ == span_order(patch_models(patches@), patches@.len()),
            forall|k: int| 0 <= k < order@.len() ==> (#[trigger] order@[k]) < patches@.len(),
            models == in_span_order(patch_models(patches@)),
            patched(encode_utf8(content@), models) == patched(
                encode_utf8(current@),
                models.subrange(0, i as int),
            ),
            spans_fit(encode_utf8(current@).len() as int, models.subrange(0, i as int)),
            on_boundaries(encode_utf8(current@), models.subrange(0, i as int)),
        decreases i,
    {
        let ghost todo = models.subrange(0, i as int);
        let ghost before = encode_utf8(current@);
        i -= 1;
        let patch = &patches[order[i]];
        let text = current.as_str();
        let len: usize = text.as_bytes().len();
        proof {
            assert(models[i as int] == patch_models(patches@)[order@[i as int] as int]);
            assert(todo.last() == patch@);
            assert(todo.drop_last() =~= models.subrange(0, i as int));
            encode_utf8_valid_utf8(current@);
            is_char_boundary_start_end_of_seq(before);
        }
        let mut next = String::new();
        assert(encode_utf8(next@) =~= Seq::<u8>::empty());
        push_text(&mut next, slice_text(text, 0, patch.start));
        push_text(&mut next, patch.replacement.as_str());
        push_text(&mut next, slice_text(text, patch.end, len));
        proof {
            let after = encode_utf8(next@);
            let rest = models.subrange(0, i as int);
            assert(after =~= splice(before, patch@));
            lemma_spans_fit_init(before.len() as int, todo);
            encode_utf8_valid_utf8(next@);
            encode_utf8_valid_utf8(patch.replacement@);
            assert forall|j: int| 0 <= j < rest.len() implies is_char_boundary(
                after,
                (#[trigger] rest[j]).start,
            ) && is_char_boundary(after, rest[j].end) by {
                assert(rest[j] == todo[j]);
                lemma_splice_keeps_boundary(before, patch@, rest[j].start);
                lemma_splice_keeps_boundary(before, patch@, rest[j].end);
            }
        }
        current = next;
    }
    current
}

} // verus!
