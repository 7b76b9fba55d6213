//! The rewriting of one chapter: every annotated fenced block gives way to
//! its HTML fragment, and nothing else changes.

use vstd::prelude::*;
use vstd::string::*;
use vstd::utf8::*;
use crate::info::lacks_marker;
use crate::patch::{
    apply_patches, lemma_fitting_list_is_ordered, lemma_spans_fit_wider,
    lemma_untouched_range_is_kept, on_boundaries, patch_models, patched, spans_fit, stitched,
    PatchEntry, PatchModel,
};
use crate::render::{annotated_block, fragment, text_result, Godbolt, RenderFailure};
use crate::scan::{
    block_models, blocks_in_order, end_of_last, event_models, lemma_first_blocks_in_order,
    lemma_located_blocks_in_order,
    locate_code_blocks, located_blocks, scan_markdown, scanned_events, sound_span, BlockModel,
    EventModel, FencedBlock, MarkdownEvent,
};
use crate::text::slice_text;

verus! {

/// The edits for the blocks of a chapter, in the order of the blocks. A block
/// that carries no annotation gives no edit. The first block whose rendering
/// cannot be wrapped fails the whole.
pub open spec fn patches_for(content: Seq<u8>, blocks: Seq<BlockModel>) -> Result<
    Seq<PatchModel>,
    RenderFailure,
>
    decreases blocks.len(),
{
    if blocks.len() == 0 {
        Ok(Seq::empty())
    } else {
        let block = blocks.last();
        match patches_for(content, blocks.drop_last()) {
            Err(e) => Err(e),
            Ok(before) => match annotated_block(
                block.info,
                content.subrange(block.start, block.end),
            ) {
                None => Ok(before),
                Some(godbolt) => match fragment(godbolt) {
                    Err(e) => Err(e),
                    Ok(html) => Ok(
                        before.push(
                            PatchModel { start: block.start, end: block.end, replacement: html },
                        ),
                    ),
                },
            },
        }
    }
}

/// The chapter `content` rewritten, given the events that the scanner
/// reported for it.
pub open spec fn rewritten(content: Seq<u8>, events: Seq<EventModel>) -> Result<
    Seq<u8>,
    RenderFailure,
> {
    match patches_for(content, located_blocks(content, events)) {
        Ok(patches) => Ok(patched(content, patches)),
        Err(e) => Err(e),
    }
}

/// The edits follow the blocks: each replaces the span of a block, they are
/// in the order of the blocks, and none reaches past the last block.
pub proof fn lemma_patches_follow_blocks(content: Seq<u8>, blocks: Seq<BlockModel>)
    requires
        blocks_in_order(content, blocks),
        patches_for(content, blocks) is Ok,
    ensures
        spans_fit(end_of_last(blocks), patches_for(content, blocks)->Ok_0),
        spans_fit(content.len() as int, patches_for(content, blocks)->Ok_0),
        on_boundaries(content, patches_for(content, blocks)->Ok_0),
        0 <= end_of_last(blocks) <= content.len(),
    decreases blocks.len(),
{
    if blocks.len() > 0 {
        let init = blocks.drop_last();
        let last = blocks.last();
        lemma_first_blocks_in_order(content, blocks, blocks.len() - 1);
        lemma_patches_follow_blocks(content, init);
        let before = patches_for(content, init)->Ok_0;
        let now = patches_for(content, blocks)->Ok_0;
        assert(end_of_last(init) <= last.start);
        assert forall|j: int| 0 <= j < now.len() implies 0 <= (#[trigger] now[j]).start
            <= now[j].end <= last.end && is_char_boundary(content, now[j].start)
            && is_char_boundary(content, now[j].end) by {
            if j < before.len() {
                assert(now[j] == before[j]);
            }
        }
        assert forall|j: int, k: int| 0 <= j < k < now.len() implies (#[trigger] now[j]).end <= (
        #[trigger] now[k]).start by {
            assert(now[j] == before[j]);
            if k < before.len() {
                assert(now[k] == before[k]);
            }
        }
    }
}

/// The edits for the first `count` blocks are the first of the edits for all
/// of them, and every later edit starts at or after the end of block
/// `count - 1`.
pub proof fn lemma_patches_of_prefix(content: Seq<u8>, blocks: Seq<BlockModel>, count: int)
    requires
        blocks_in_order(content, blocks),
        patches_for(content, blocks) is Ok,
        0 < count <= blocks.len(),
    ensures
        patches_for(content, blocks.subrange(0, count)) is Ok,
        ({
            let all = patches_for(content, blocks)->Ok_0;
            let first = patches_for(content, blocks.subrange(0, count))->Ok_0;
            &&& first.len() <= all.len()
            &&& all.subrange(0, first.len() as int) == first
            &&& forall|i: int|
                first.len() <= i < all.len() ==> blocks[count - 1].end <= (#[trigger] all[i]).start
        }),
    decreases blocks.len(),
{
    let all = patches_for(content, blocks)->Ok_0;
    if count == blocks.len() {
        assert(blocks.subrange(0, count) =~= blocks);
        assert(all.subrange(0, all.len() as int) =~= all);
    } else {
        let init = blocks.drop_last();
        lemma_first_blocks_in_order(content, blocks, blocks.len() - 1);
        lemma_patches_of_prefix(content, init, count);
        assert(init.subrange(0, count) =~= blocks.subrange(0, count));
        assert(init[count - 1] == blocks[count - 1]);
        let before = patches_for(content, init)->Ok_0;
        let first = patches_for(content, blocks.subrange(0, count))->Ok_0;
        assert(blocks[count - 1].end <= blocks[blocks.len() - 1].start);
        assert(all.subrange(0, first.len() as int) =~= before.subrange(0, first.len() as int));
        assert forall|i: int| first.len() <= i < all.len() implies blocks[count - 1].end <= (
        #[trigger] all[i]).start by {
            if i < before.len() {
                assert(all[i] == before[i]);
            }
        }
    }
}

/// A chapter in which the scanner finds no fenced code block comes back as it
/// was.
pub proof fn lemma_no_fenced_block_no_change(content: Seq<u8>, events: Seq<EventModel>)
    requires
        forall|i: int| 0 <= i < events.len() ==> (#[trigger] events[i]).fence_info is None,
    ensures
        located_blocks(content, events).len() == 0,
        rewritten(content, events) == Ok::<Seq<u8>, RenderFailure>(content),
    decreases events.len(),
{
    if events.len() > 0 {
        let init = events.drop_last();
        assert forall|i: int| 0 <= i < init.len() implies (#[trigger] init[i]).fence_info is None by {
            assert(init[i] == events[i]);
        }
        lemma_no_fenced_block_no_change(content, init);
        assert(events.last() == events[events.len() - 1]);
    }
}

/// A second run over the output of a first changes nothing, where the
/// scanner finds no fenced code block in that output. Whether it finds one
/// is the scanner's doing; the fragments themselves are HTML, not fences.
pub proof fn lemma_second_run_no_change(
    content: Seq<u8>,
    events: Seq<EventModel>,
    again: Seq<EventModel>,
)
    requires
        rewritten(content, events) is Ok,
        forall|i: int| 0 <= i < again.len() ==> (#[trigger] again[i]).fence_info is None,
    ensures
        rewritten(rewritten(content, events)->Ok_0, again) == rewritten(content, events),
{
    lemma_no_fenced_block_no_change(rewritten(content, events)->Ok_0, again);
}

/// A chapter none of whose fenced blocks carries the marker comes back as it
/// was.
pub proof fn lemma_unmarked_blocks_no_change(content: Seq<u8>, blocks: Seq<BlockModel>)
    requires
        forall|i: int| 0 <= i < blocks.len() ==> lacks_marker((#[trigger] blocks[i]).info),
    ensures
        patches_for(content, blocks) == Ok::<Seq<PatchModel>, RenderFailure>(Seq::empty()),
        patched(content, patches_for(content, blocks)->Ok_0) == content,
    decreases blocks.len(),
{
    if blocks.len() > 0 {
        let init = blocks.drop_last();
        assert forall|i: int| 0 <= i < init.len() implies lacks_marker((#[trigger] init[i]).info) by {
            assert(init[i] == blocks[i]);
        }
        lemma_unmarked_blocks_no_change(content, init);
        assert(lacks_marker(blocks[blocks.len() - 1].info));
    }
}

/// A block whose info string lacks the marker gives no edit.
proof fn lemma_unmarked_block_gives_no_edit(content: Seq<u8>, blocks: Seq<BlockModel>)
    requires
        blocks.len() > 0,
        lacks_marker(blocks.last().info),
    ensures
        patches_for(content, blocks) == patches_for(content, blocks.drop_last()),
{
}

/// A fenced block whose info string lacks the marker stands in the output
/// byte for byte. It stands there behind the rewritten text before it, whose
/// length is that of the bytes before the block with the edits of the
/// earlier blocks.
pub proof fn lemma_unmarked_block_is_kept(content: Seq<u8>, blocks: Seq<BlockModel>, k: int)
    requires
        blocks_in_order(content, blocks),
        0 <= k < blocks.len(),
        lacks_marker(blocks[k].info),
        patches_for(content, blocks) is Ok,
    ensures
        patches_for(content, blocks.subrange(0, k)) is Ok,
        ({
            let earlier = patches_for(content, blocks.subrange(0, k))->Ok_0;
            let out = patched(content, patches_for(content, blocks)->Ok_0);
            let at = stitched(content, earlier, blocks[k].start).len() as int;
            &&& at + (blocks[k].end - blocks[k].start) <= out.len()
            &&& out.subrange(at, at + (blocks[k].end - blocks[k].start)) == content.subrange(
                blocks[k].start,
                blocks[k].end,
            )
        }),
{
    let block = blocks[k];
    let all = patches_for(content, blocks)->Ok_0;
    let upto = blocks.subrange(0, k + 1);
    let before = blocks.subrange(0, k);
    lemma_patches_of_prefix(content, blocks, k + 1);
    assert(patches_for(content, upto) == patches_for(content, before)) by {
        assert(upto.drop_last() =~= before);
        assert(upto.last() == block);
        lemma_unmarked_block_gives_no_edit(content, upto);
    }
    let earlier = patches_for(content, before)->Ok_0;
    assert(spans_fit(block.start, earlier)) by {
        lemma_first_blocks_in_order(content, blocks, k);
        lemma_patches_follow_blocks(content, before);
        lemma_spans_fit_wider(end_of_last(before), block.start, earlier);
    }
    assert(spans_fit(content.len() as int, all)) by {
        lemma_patches_follow_blocks(content, blocks);
    }
    assert(0 <= block.start <= block.end <= content.len()) by {
        assert(sound_span(content, 0, block.start, block.end));
    }
    lemma_untouched_range_is_kept(content, all, earlier.len() as int, block.start, block.end);
}

/// In a chapter that is rewritten, a fenced block that the scanner found and
/// whose info string lacks the marker stands in the output byte for byte.
pub proof fn lemma_unmarked_block_of_chapter_is_kept(
    content: Seq<u8>,
    events: Seq<EventModel>,
    k: int,
)
    requires
        0 <= k < located_blocks(content, events).len(),
        lacks_marker(located_blocks(content, events)[k].info),
        rewritten(content, events) is Ok,
    ensures
        ({
            let blocks = located_blocks(content, events);
            let earlier = patches_for(content, blocks.subrange(0, k))->Ok_0;
            let at = stitched(content, earlier, blocks[k].start).len() as int;
            let out = rewritten(content, events)->Ok_0;
            &&& at + (blocks[k].end - blocks[k].start) <= out.len()
            &&& out.subrange(at, at + (blocks[k].end - blocks[k].start)) == content.subrange(
                blocks[k].start,
                blocks[k].end,
            )
        }),
{
    lemma_located_blocks_in_order(content, events);
    lemma_unmarked_block_is_kept(content, located_blocks(content, events), k);
}

/// Renders and wraps each annotated block, and returns the edits in the
/// order of the blocks. Stops at the first block that fails.
pub fn collect_patches(content: &str, blocks: &Vec<FencedBlock>) -> (r: Result<
    Vec<PatchEntry>,
    RenderFailure,
>)
    requires
        blocks_in_order(encode_utf8(content@), block_models(blocks@)),
    ensures
        match r {
            Ok(patches) => {
                &&& patches_for(encode_utf8(content@), block_models(blocks@)) == Ok::<
                    Seq<PatchModel>,
                    RenderFailure,
                >(patch_models(patches@))
                &&& spans_fit(encode_utf8(content@).len() as int, patch_models(patches@))
                &&& on_boundaries(encode_utf8(content@), patch_models(patches@))
            },
            Err(e) => patches_for(encode_utf8(content@), block_models(blocks@)) == Err::<
                Seq<PatchModel>,
                RenderFailure,
            >(e),
        },
{
    let ghost bytes = encode_utf8(content@);
    let ghost models = block_models(blocks@);
    let mut patches: Vec<PatchEntry> = Vec::new();
    let mut i: usize = 0;
    assert(patch_models(patches@) =~= Seq::<PatchModel>::empty());
    while i < blocks.len()
        invariant
            i <= blocks.len(),
            bytes == encode_utf8(content@),
            models == block_models(blocks@),
            blocks_in_order(bytes, models),
            patches_for(bytes, models.subrange(0, i as int)) == Ok::<
                Seq<PatchModel>,
                RenderFailure,
            >(patch_models(patches@)),
        decreases blocks.len() - i,
    {
        let block = &blocks[i];
        let ghost before = patch_models(patches@);
        proof {
            let upto = models.subrange(0, i + 1);
            assert(upto.drop_last() =~= models.subrange(0, i as int));
            assert(upto.last() == block@);
            assert(models[i as int] == block@);
        }
        let text = slice_text(content, block.span.start, block.span.end);
        match Godbolt::new(block.info_string.as_str(), text) {
            Some(godbolt) => {
                match godbolt.add_godbolt_pre() {
                    Ok(html) => {
                        let patch = PatchEntry {
                            start: block.span.start,
                            end: block.span.end,
                            replacement: html,
                        };
                        patches.push(patch);
                        assert(patch_models(patches@) =~= before.push(patch@));
                    },
                    Err(e) => {
                        proof {
                            lemma_failure_stays(bytes, models, i + 1);
                        }
                        return Err(e);
                    },
                }
            },
            None => {},
        }
        i += 1;
    }
    proof {
        assert(models.subrange(0, i as int) =~= models);
        lemma_patches_follow_blocks(bytes, models);
    }
    Ok(patches)
}

/// Once the blocks up to some point have failed, the whole has failed with
/// the same failure.
proof fn lemma_failure_stays(content: Seq<u8>, blocks: Seq<BlockModel>, upto: int)
    requires
        0 <= upto <= blocks.len(),
        patches_for(content, blocks.subrange(0, upto)) is Err,
    ensures
        patches_for(content, blocks) == patches_for(content, blocks.subrange(0, upto)),
    decreases blocks.len() - upto,
{
    if upto < blocks.len() {
        let next = blocks.subrange(0, upto + 1);
        assert(next.drop_last() =~= blocks.subrange(0, upto));
        lemma_failure_stays(content, blocks, upto + 1);
    } else {
        assert(blocks.subrange(0, upto) =~= blocks);
    }
}

/// Applies edits that are in ascending order already.
fn apply_in_order(content: &str, patches: &Vec<PatchEntry>) -> (result: String)
    requires
        spans_fit(encode_utf8(content@).len() as int, patch_models(patches@)),
        on_boundaries(encode_utf8(content@), patch_models(patches@)),
    ensures
        encode_utf8(result@) == patched(encode_utf8(content@), patch_models(patches@)),
{
    proof {
        assert(patch_models(patches@).len() == patches.len());
        lemma_fitting_list_is_ordered(
            encode_utf8(content@).len() as int,
            patch_models(patches@),
            patches@.len(),
        );
    }
    apply_patches(content, patches)
}

/// Rewrites a chapter, given the events that the scanner reported for it:
/// the fenced blocks are located, each annotated one is rendered and wrapped,
/// and the fragments are patched into the text.
pub fn rewrite_blocks(content: &str, events: &Vec<MarkdownEvent>) -> (r: Result<
    String,
    RenderFailure,
>)
    ensures
        text_result(r) == rewritten(encode_utf8(content@), event_models(events@)),
{
    let blocks = locate_code_blocks(content, events);
    match collect_patches(content, &blocks) {
        Ok(patches) => Ok(apply_in_order(content, &patches)),
        Err(e) => Err(e),
    }
}

/// Rewrites a chapter: every fenced code block that the scanner finds and
/// that carries the annotation is replaced by its HTML fragment. On the first
/// block whose rendering holds no code element the chapter fails and no text
/// is returned.
pub fn preprocess(content: &str) -> (r: Result<String, RenderFailure>)
    ensures
        text_result(r) == rewritten(encode_utf8(content@), scanned_events(content@)),
{
    let events = scan_markdown(content);
    rewrite_blocks(content, &events)
}

} // verus!
