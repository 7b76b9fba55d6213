//! Finding the fenced code blocks of a chapter: the markdown scanner reports
//! events with byte spans, and the blocks are the fence events whose spans are
//! sound.

use pulldown_cmark::{CodeBlockKind, Event, Options, Parser, Tag};
use vstd::prelude::*;
use vstd::string::*;
use vstd::utf8::*;

verus! {

/// One event of the markdown scanner, reduced to what this library reads: the
/// byte span in the source that it covers and, where it opens a fenced code
/// block, the info string of that block.
#[derive(Debug, Clone, PartialEq, Eq)]
pub struct MarkdownEvent {
    pub start: usize,
    pub end: usize,
    pub fence_info: Option<String>,
}

/// A scanner event over bytes.
pub struct EventModel {
    pub start: int,
    pub end: int,
    pub fence_info: Option<Seq<u8>>,
}

impl View for MarkdownEvent {
    type V = EventModel;

    open spec fn view(&self) -> EventModel {
        EventModel {
            start: self.start as int,
            end: self.end as int,
            fence_info: match self.fence_info {
                Some(info) => Some(encode_utf8(info@)),
                None => None,
            },
        }
    }
}

/// The events of a list, in its order.
pub open spec fn event_models(events: Seq<MarkdownEvent>) -> Seq<EventModel> {
    Seq::new(events.len(), |i: int| events[i]@)
}

/// The events that the scanner reports for a markdown text, in its order.
pub uninterp spec fn scanned_events(content: Seq<char>) -> Seq<EventModel>;

/// Runs `pulldown_cmark::Parser::new_ext` with no extension switched on over
/// `content` and walks its `into_offset_iter`. Each event comes back with the
/// source range that the scanner gave it; of the event itself only the info
/// string of a fenced code block's start is kept. The events are a function
/// of the text alone; nothing is claimed of the ranges.
#[verifier::external_body]
pub(crate) fn scan_markdown(content: &str) -> (events: Vec<MarkdownEvent>)
    ensures
        event_models(events@) == scanned_events(content@),
{
    let mut events = Vec::new();
    for (event, span) in Parser::new_ext(content, Options::empty()).into_offset_iter() {
        let fence_info = match event {
            Event::Start(Tag::CodeBlock(CodeBlockKind::Fenced(info))) => Some(info.to_string()),
            _ => None,
        };
        events.push(MarkdownEvent { start: span.start, end: span.end, fence_info });
    }
    events
}

/// The byte span of one fenced code block, fences included.
#[derive(Debug, Clone, Copy, PartialEq, Eq)]
pub struct CodeBlockSpan {
    pub start: usize,
    pub end: usize,
}

/// A fenced code block as the scanner found it.
#[derive(Debug, Clone, PartialEq, Eq)]
pub struct FencedBlock {
    pub span: CodeBlockSpan,
    pub info_string: String,
}

/// A fenced block over bytes.
pub struct BlockModel {
    pub start: int,
    pub end: int,
    pub info: Seq<u8>,
}

impl View for FencedBlock {
    type V = BlockModel;

    open spec fn view(&self) -> BlockModel {
        BlockModel {
            start: self.span.start as int,
            end: self.span.end as int,
            info: encode_utf8(self.info_string@),
        }
    }
}

/// The blocks of a list, in its order.
pub open spec fn block_models(blocks: Seq<FencedBlock>) -> Seq<BlockModel> {
    Seq::new(blocks.len(), |i: int| blocks[i]@)
}

/// The span from `start` to `end` can be cut out of `content` after the
/// offset `floor`: it is not empty, lies in the text at or after `floor`, and
/// starts and ends between two characters.
pub open spec fn sound_span(content: Seq<u8>, floor: int, start: int, end: int) -> bool {
    &&& floor <= start < end <= content.len()
    &&& is_char_boundary(content, start)
    &&& is_char_boundary(content, end)
}

/// Where the last of `blocks` ends; 0 for no block.
pub open spec fn end_of_last(blocks: Seq<BlockModel>) -> int {
    if blocks.len() > 0 {
        blocks.last().end
    } else {
        0
    }
}

/// The fenced code blocks among `events`, in the order of the events. An
/// event counts where it opens a fenced block and its span is sound after the
/// block found before it; any other is passed over.
pub open spec fn located_blocks(content: Seq<u8>, events: Seq<EventModel>) -> Seq<BlockModel>
    decreases events.len(),
{
    if events.len() == 0 {
        Seq::empty()
    } else {
        let before = located_blocks(content, events.drop_last());
        let event = events.last();
        if event.fence_info is Some && sound_span(
            content,
            end_of_last(before),
            event.start,
            event.end,
        ) {
            before.push(
                BlockModel { start: event.start, end: event.end, info: event.fence_info->0 },
            )
        } else {
            before
        }
    }
}

/// The blocks lie in `content` in ascending order, none is empty, none
/// reaches into the next, and each starts and ends between two characters.
pub open spec fn blocks_in_order(content: Seq<u8>, blocks: Seq<BlockModel>) -> bool {
    &&& forall|i: int|
        0 <= i < blocks.len() ==> sound_span(
            content,
            0,
            (#[trigger] blocks[i]).start,
            blocks[i].end,
        )
    &&& forall|i: int, j: int|
        0 <= i < j < blocks.len() ==> (#[trigger] blocks[i]).end <= (#[trigger] blocks[j]).start
}

/// The first blocks of a list in order are in order, and end before the next
/// block starts.
pub proof fn lemma_first_blocks_in_order(content: Seq<u8>, blocks: Seq<BlockModel>, count: int)
    requires
        blocks_in_order(content, blocks),
        0 <= count <= blocks.len(),
    ensures
        blocks_in_order(content, blocks.subrange(0, count)),
        count < blocks.len() ==> end_of_last(blocks.subrange(0, count)) <= blocks[count].start,
        0 <= end_of_last(blocks.subrange(0, count)),
{
    let first = blocks.subrange(0, count);
    assert forall|i: int| 0 <= i < first.len() implies sound_span(
        content,
        0,
        (#[trigger] first[i]).start,
        first[i].end,
    ) by {
        assert(first[i] == blocks[i]);
    }
    assert forall|i: int, j: int| 0 <= i < j < first.len() implies (#[trigger] first[i]).end <= (
    #[trigger] first[j]).start by {
        assert(first[i] == blocks[i]);
        assert(first[j] == blocks[j]);
    }
    if count > 0 {
        assert(first.last() == blocks[count - 1]);
        if count < blocks.len() {
            assert(blocks[count - 1].end <= blocks[count].start);
        }
    }
}

/// The located blocks are in order: their starts increase strictly and their
/// spans do not overlap.
pub proof fn lemma_located_blocks_in_order(content: Seq<u8>, events: Seq<EventModel>)
    ensures
        blocks_in_order(content, located_blocks(content, events)),
        0 <= end_of_last(located_blocks(content, events)) <= content.len(),
    decreases events.len(),
{
    if events.len() > 0 {
        lemma_located_blocks_in_order(content, events.drop_last());
        let before = located_blocks(content, events.drop_last());
        let blocks = located_blocks(content, events);
        if blocks.len() > before.len() {
            assert forall|i: int, j: int| 0 <= i < j < blocks.len() implies (
            #[trigger] blocks[i]).end <= (#[trigger] blocks[j]).start by {
                if j < before.len() {
                    assert(blocks[i] == before[i]);
                    assert(blocks[j] == before[j]);
                } else {
                    assert(blocks[i] == before[i]);
                    assert(before[i].end <= before.last().end) by {
                        if i < before.len() - 1 {
                            assert(before[i].end <= before[before.len() - 1].start);
                        }
                    }
                }
            }
            assert forall|i: int| 0 <= i < blocks.len() implies sound_span(
                content,
                0,
                (#[trigger] blocks[i]).start,
                blocks[i].end,
            ) by {
                if i < before.len() {
                    assert(blocks[i] == before[i]);
                }
            }
        }
    }
}

/// Picks the fenced code blocks out of the scanner's events, in source order.
/// A fence event whose span cannot be cut out of `content`, or that starts
/// before the block found last ends, is passed over.
pub fn locate_code_blocks(content: &str, events: &Vec<MarkdownEvent>) -> (blocks: Vec<FencedBlock>)
    ensures
        block_models(blocks@) == located_blocks(encode_utf8(content@), event_models(events@)),
        blocks_in_order(encode_utf8(content@), block_models(blocks@)),
{
    let len: usize = content.as_bytes().len();
    let mut blocks: Vec<FencedBlock> = Vec::new();
    let mut floor: usize = 0;
    let ghost bytes = encode_utf8(content@);
    let ghost models = event_models(events@);
    let mut i: usize = 0;
    assert(block_models(blocks@) =~= located_blocks(bytes, models.subrange(0, 0)));
    while i < events.len()
        invariant
            i <= events.len(),
            len == bytes.len(),
            bytes == encode_utf8(content@),
            models == event_models(events@),
            block_models(blocks@) == located_blocks(bytes, models.subrange(0, i as int)),
            floor == end_of_last(block_models(blocks@)),
        decreases events.len() - i,
    {
        let event = &events[i];
        let ghost before = block_models(blocks@);
        proof {
            let upto = models.subrange(0, i + 1);
            assert(upto.drop_last() =~= models.subrange(0, i as int));
            assert(upto.last() == event@);
        }
        match &event.fence_info {
            Some(info) => {
                if floor <= event.start && event.start < event.end && event.end <= len
                    && content.is_char_boundary(event.start) && content.is_char_boundary(
                    event.end,
                ) {
                    blocks.push(
                        FencedBlock {
                            span: CodeBlockSpan { start: event.start, end: event.end },
                            info_string: info.clone(),
                        },
                    );
                    floor = event.end;
                    assert(block_models(blocks@) =~= before.push(
                        BlockModel {
                            start: event.start as int,
                            end: event.end as int,
                            info: encode_utf8(info@),
                        },
                    ));
                }
            },
            None => {},
        }
        i += 1;
    }
    proof {
        assert(models.subrange(0, i as int) =~= models);
        lemma_located_blocks_in_order(bytes, models);
    }
    blocks
}

} // verus!
