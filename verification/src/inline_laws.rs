//! What an editor shows: every card on screen is either kept or removed, every
//! visible thread is placed once, and a comment stays with its lines.

use vstd::prelude::*;
#[allow(unused_imports)]
use crate::comment::{CommentAnchorView, CommentKind, CommentStatus};
#[allow(unused_imports)]
use crate::comment_store::CommentStoreView;
#[allow(unused_imports)]
use crate::ids::ThreadId;
#[allow(unused_imports)]
use crate::inline_comments;
#[allow(unused_imports)]
use crate::inline_comments::{BufferTextView, DesiredBlock, Placement, ThreadBlock};
#[allow(unused_imports)]
use crate::text;
#[allow(unused_imports)]
use crate::text_laws;
#[allow(unused_imports)]
use crate::thread::CommentThreadView;

verus! {

/// Whether a thread should have a card.
pub open spec fn is_desired(desired: Seq<DesiredBlock>, id: ThreadId) -> bool {
    exists|d: int| 0 <= d < desired.len() && (#[trigger] desired[d]).thread_id == id
}

/// Whether a position is that of the last card desired for a thread.
pub open spec fn is_last_wish(desired: Seq<DesiredBlock>, id: ThreadId, d: int) -> bool {
    &&& 0 <= d < desired.len()
    &&& desired[d].thread_id == id
    &&& forall|k: int| d < k < desired.len() ==> (#[trigger] desired[k]).thread_id != id
}

proof fn lemma_wish(desired: Seq<DesiredBlock>, id: ThreadId)
    ensures
        match inline_comments::desired_index(desired, id) {
            Some(d) => is_last_wish(desired, id, d) && is_desired(desired, id),
            None => !is_desired(desired, id),
        },
        forall|d: int| #[trigger]
            is_last_wish(desired, id, d) ==> inline_comments::desired_index(desired, id) == Some(d),
{
    inline_comments::lemma_desired_index(desired, id);
    if let Some(d) = inline_comments::desired_index(desired, id) {
        assert(desired[d].thread_id == id);
        assert forall|e: int| #[trigger] is_last_wish(desired, id, e) implies d == e by {
            if d < e {
                assert(desired[e].thread_id != id);
            } else if e < d {
                assert(desired[d].thread_id != id);
            }
        }
    } else {
        assert forall|e: int| !(#[trigger] is_last_wish(desired, id, e)) by {
            if is_last_wish(desired, id, e) {
                assert(desired[e].thread_id != id);
            }
        }
    }
}

/// The cards that are removed are those of threads that should have none, all
/// of them and in order, each by its own handle.
pub proof fn lemma_removed_are_the_undesired<B>(
    blocks: Seq<ThreadBlock<B>>,
    desired: Seq<DesiredBlock>,
)
    ensures
        inline_comments::stale_handles(blocks, desired) == blocks.filter(
            |b: ThreadBlock<B>| !is_desired(desired, b.thread_id),
        ).map_values(|b: ThreadBlock<B>| b.handle),
        forall|i: int|
            0 <= i < blocks.len() && !is_desired(desired, (#[trigger] blocks[i]).thread_id)
                ==> inline_comments::stale_handles(blocks, desired).contains(blocks[i].handle),
    decreases blocks.len(),
{
    reveal(Seq::filter);
    let gone = |b: ThreadBlock<B>| !is_desired(desired, b.thread_id);
    let handle = |b: ThreadBlock<B>| b.handle;
    let stale = inline_comments::stale_handles(blocks, desired);
    if blocks.len() == 0 {
        assert(blocks.filter(gone).map_values(handle) =~= Seq::empty());
    } else {
        let fewer = blocks.drop_last();
        let last = blocks.last();
        let before = inline_comments::stale_handles(fewer, desired);
        lemma_removed_are_the_undesired(fewer, desired);
        lemma_wish(desired, last.thread_id);
        if gone(last) {
            assert(fewer.filter(gone).push(last).map_values(handle) =~= fewer.filter(
                gone,
            ).map_values(handle).push(last.handle));
        }
        assert forall|i: int|
            0 <= i < blocks.len() && !is_desired(
                desired,
                (#[trigger] blocks[i]).thread_id,
            ) implies stale.contains(blocks[i].handle) by {
            if i < fewer.len() {
                assert(fewer[i] == blocks[i]);
                assert(before.contains(fewer[i].handle));
                let k = choose|k: int| 0 <= k < before.len() && before[k] == fewer[i].handle;
                assert(stale[k] == blocks[i].handle);
            } else {
                assert(stale[stale.len() - 1] == blocks[i].handle);
            }
        }
    }
}

/// The cards that stay are those of threads that should have one, all of them
/// and in order, each under its own handle, with the height and the anchored
/// flag of the last card desired for its thread.
pub proof fn lemma_kept_are_the_desired<B>(
    blocks: Seq<ThreadBlock<B>>,
    desired: Seq<DesiredBlock>,
)
    ensures
        ({
            let kept = inline_comments::kept_blocks(blocks, desired);
            let anchored = inline_comments::kept_anchored(blocks, desired);
            let staying = blocks.filter(|b: ThreadBlock<B>| is_desired(desired, b.thread_id));
            &&& kept.len() == staying.len()
            &&& anchored.len() == staying.len()
            &&& forall|k: int|
                0 <= k < staying.len() ==> (#[trigger] kept[k]).thread_id == staying[k].thread_id
                    && kept[k].handle == staying[k].handle
            &&& forall|k: int, d: int|
                0 <= k < staying.len() && #[trigger] is_last_wish(
                    desired,
                    (#[trigger] kept[k]).thread_id,
                    d,
                ) ==> kept[k].height == desired[d].height && anchored[k] == desired[d].anchored
        }),
    decreases blocks.len(),
{
    reveal(Seq::filter);
    let stays = |b: ThreadBlock<B>| is_desired(desired, b.thread_id);
    let staying = blocks.filter(stays);
    let kept = inline_comments::kept_blocks(blocks, desired);
    let anchored = inline_comments::kept_anchored(blocks, desired);
    if blocks.len() > 0 {
        let fewer = blocks.drop_last();
        let last = blocks.last();
        let before = inline_comments::kept_blocks(fewer, desired);
        lemma_kept_are_the_desired(fewer, desired);
        lemma_wish(desired, last.thread_id);
        assert forall|k: int| 0 <= k < staying.len() implies (#[trigger] kept[k]).thread_id
            == staying[k].thread_id && kept[k].handle == staying[k].handle by {
            if k < before.len() {
                assert(kept[k] == before[k]);
            }
        }
        assert forall|k: int, d: int|
            0 <= k < staying.len() && #[trigger] is_last_wish(
                desired,
                (#[trigger] kept[k]).thread_id,
                d,
            ) implies kept[k].height == desired[d].height && anchored[k]
            == desired[d].anchored by {
            if k < before.len() {
                assert(kept[k] == before[k]);
                assert(is_last_wish(desired, before[k].thread_id, d));
            }
        }
    }
}

/// Every card on screen is either kept or removed.
pub proof fn lemma_every_card_is_kept_or_removed<B>(
    blocks: Seq<ThreadBlock<B>>,
    desired: Seq<DesiredBlock>,
)
    ensures
        inline_comments::kept_blocks(blocks, desired).len() + inline_comments::stale_handles(
            blocks,
            desired,
        ).len() == blocks.len(),
        desired.len() == 0 ==> inline_comments::kept_blocks(blocks, desired).len() == 0
            && inline_comments::stale_handles(blocks, desired) == blocks.map_values(
            |b: ThreadBlock<B>| b.handle,
        ),
    decreases blocks.len(),
{
    let stale = inline_comments::stale_handles(blocks, desired);
    if blocks.len() > 0 {
        lemma_every_card_is_kept_or_removed(blocks.drop_last(), desired);
    }
    if desired.len() == 0 {
        assert(stale =~= blocks.map_values(|b: ThreadBlock<B>| b.handle));
    }
}

/// The cards that are resized are those of the staying ones whose height
/// changes: all of them, each once, and no other.
pub proof fn lemma_resized_are_those_that_change<B>(
    blocks: Seq<ThreadBlock<B>>,
    desired: Seq<DesiredBlock>,
)
    ensures
        ({
            let kept = inline_comments::kept_blocks(blocks, desired);
            let resized = inline_comments::resized_blocks(blocks, desired);
            let staying = blocks.filter(|b: ThreadBlock<B>| is_desired(desired, b.thread_id));
            &&& kept.len() == staying.len()
            &&& forall|r: int|
                0 <= r < resized.len() ==> 0 <= (#[trigger] resized[r]) < kept.len()
                    && kept[resized[r]].height != staying[resized[r]].height
            &&& forall|k: int|
                0 <= k < kept.len() && (#[trigger] kept[k]).height != staying[k].height
                    ==> resized.contains(k)
            &&& forall|q: int, r: int|
                0 <= q < r < resized.len() ==> (#[trigger] resized[q]) < (#[trigger] resized[r])
        }),
    decreases blocks.len(),
{
    reveal(Seq::filter);
    let stays = |b: ThreadBlock<B>| is_desired(desired, b.thread_id);
    let kept = inline_comments::kept_blocks(blocks, desired);
    let resized = inline_comments::resized_blocks(blocks, desired);
    let staying = blocks.filter(stays);
    if blocks.len() > 0 {
        let fewer = blocks.drop_last();
        let last = blocks.last();
        let kept_before = inline_comments::kept_blocks(fewer, desired);
        let before = inline_comments::resized_blocks(fewer, desired);
        lemma_resized_are_those_that_change(fewer, desired);
        lemma_wish(desired, last.thread_id);
        assert forall|r: int| 0 <= r < resized.len() implies 0 <= (#[trigger] resized[r])
            < kept.len() && kept[resized[r]].height != staying[resized[r]].height by {
            if r < before.len() {
                assert(resized[r] == before[r]);
                assert(kept[before[r]] == kept_before[before[r]]);
            }
        }
        assert forall|k: int|
            0 <= k < kept.len() && (#[trigger] kept[k]).height
                != staying[k].height implies resized.contains(k) by {
            if k < kept_before.len() {
                assert(kept[k] == kept_before[k]);
                assert(before.contains(k));
                let r = choose|r: int| 0 <= r < before.len() && before[r] == k;
                assert(resized[r] == k);
            } else {
                assert(resized[resized.len() - 1] == k);
            }
        }
        assert forall|q: int, r: int| 0 <= q < r < resized.len() implies (#[trigger] resized[q])
            < (#[trigger] resized[r]) by {
            if r < before.len() {
                assert(before[q] < before[r]);
            } else {
                assert(resized[q] == before[q]);
            }
        }
    }
}

/// The cards that are inserted are the last ones desired for threads without a
/// card: all of them, each once, and no other.
pub proof fn lemma_inserted_are_the_missing<B>(
    blocks: Seq<ThreadBlock<B>>,
    desired: Seq<DesiredBlock>,
)
    ensures
        ({
            let inserted = inline_comments::missing_blocks(blocks, desired, desired.len());
            &&& forall|k: int|
                0 <= k < inserted.len() ==> 0 <= (#[trigger] inserted[k]) < desired.len()
                    && is_last_wish(desired, desired[inserted[k]].thread_id, inserted[k])
            &&& forall|k: int, i: int|
                0 <= k < inserted.len() && 0 <= i < blocks.len() ==> desired[(
                #[trigger] inserted[k])].thread_id != (#[trigger] blocks[i]).thread_id
            &&& forall|d: int|
                0 <= d < desired.len() && #[trigger] is_last_wish(desired, desired[d].thread_id, d)
                    && (forall|i: int|
                    0 <= i < blocks.len() ==> (#[trigger] blocks[i]).thread_id
                        != desired[d].thread_id) ==> inserted.contains(d)
            &&& forall|j: int, k: int|
                0 <= j < k < inserted.len() ==> (#[trigger] inserted[j]) < (#[trigger] inserted[k])
        }),
{
    let inserted = inline_comments::missing_blocks(blocks, desired, desired.len());
    inline_comments::lemma_missing(blocks, desired, desired.len());
    assert forall|k: int| 0 <= k < inserted.len() implies 0 <= (#[trigger] inserted[k])
        < desired.len() && is_last_wish(
        desired,
        desired[inserted[k]].thread_id,
        inserted[k],
    ) by {
        assert(inline_comments::is_missing(blocks, desired, inserted[k]));
        lemma_wish(desired, desired[inserted[k]].thread_id);
    }
    assert forall|k: int, i: int|
        0 <= k < inserted.len() && 0 <= i < blocks.len() implies desired[(
    #[trigger] inserted[k])].thread_id != (#[trigger] blocks[i]).thread_id by {
        assert(inline_comments::is_missing(blocks, desired, inserted[k]));
        inline_comments::lemma_block_index(blocks, desired[inserted[k]].thread_id);
    }
    assert forall|d: int|
        0 <= d < desired.len() && #[trigger] is_last_wish(desired, desired[d].thread_id, d) && (
        forall|i: int|
            0 <= i < blocks.len() ==> (#[trigger] blocks[i]).thread_id
                != desired[d].thread_id) implies inserted.contains(d) by {
        lemma_wish(desired, desired[d].thread_id);
        inline_comments::lemma_block_index(blocks, desired[d].thread_id);
        assert(inline_comments::is_missing(blocks, desired, d));
    }
}

/// The visible threads of a list are those of the active change, all of them
/// and in order.
pub proof fn lemma_visible_are_those_of_the_change(
    threads: Seq<CommentThreadView>,
    change: Option<Seq<char>>,
)
    ensures
        inline_comments::in_scope(threads, change) == threads.filter(
            |t: CommentThreadView| t.change_id == change,
        ),
    decreases threads.len(),
{
    reveal(Seq::filter);
    if threads.len() == 0 {
        assert(threads =~= Seq::empty());
    } else {
        lemma_visible_are_those_of_the_change(threads.drop_last(), change);
    }
}

/// One more buffer adds one card for each visible thread of its file, in
/// order, and changes no other: each on the row where its anchor is resolved in
/// that buffer, with the thread's own height. A buffer without a file adds
/// none.
pub proof fn lemma_every_visible_thread_is_placed(
    store: CommentStoreView,
    change: Option<Seq<char>>,
    buffers: Seq<BufferTextView>,
    buffer: BufferTextView,
)
    requires
        inline_comments::can_place(store, change, buffers.push(buffer)),
        buffers.len() <= usize::MAX,
    ensures
        ({
            let before = inline_comments::placements_in(store, change, buffers);
            let after = inline_comments::placements_in(store, change, buffers.push(buffer));
            let visible = match buffer.file {
                Some(file) => store.threads_for_file(file).filter(
                    |t: CommentThreadView| t.change_id == change,
                ),
                None => Seq::empty(),
            };
            &&& inline_comments::placements_in(store, change, Seq::empty()).len() == 0
            &&& after.len() == before.len() + visible.len()
            &&& forall|k: int| 0 <= k < before.len() ==> #[trigger] after[k] == before[k]
            &&& forall|k: int|
                0 <= k < visible.len() ==> is_placed(
                    #[trigger] after[before.len() + k],
                    buffers.len(),
                    buffer.lines,
                    visible[k],
                )
        }),
{
    let more = buffers.push(buffer);
    let before = inline_comments::placements_in(store, change, buffers);
    let after = inline_comments::placements_in(store, change, more);
    let visible = match buffer.file {
        Some(file) => store.threads_for_file(file).filter(
            |t: CommentThreadView| t.change_id == change,
        ),
        None => Seq::empty(),
    };
    assert(more.drop_last() =~= buffers);
    assert(more.last() == buffer);
    if let Some(file) = buffer.file {
        lemma_visible_are_those_of_the_change(store.threads_for_file(file), change);
    }
    assert(inline_comments::shown_in(store, change, buffer) == visible);
    assert forall|k: int| 0 <= k < visible.len() implies is_placed(
        #[trigger] after[before.len() + k],
        buffers.len(),
        buffer.lines,
        visible[k],
    ) by {
        let last = buffers.len() as int;
        assert(more[last] == buffer);
        assert(inline_comments::is_placeable(
            more[last].lines,
            inline_comments::shown_in(store, change, more[last])[k],
        ));
        inline_comments::lemma_resolved_row(buffer.lines, visible[k].anchor);
        assert(after[before.len() + k] == inline_comments::placement_of(
            buffer.lines,
            last,
            visible[k],
        ));
    }
}

/// Whether a card is a thread's, on the row of the buffer where the thread's
/// anchor is resolved.
pub open spec fn is_placed(
    placement: Placement,
    buffer: nat,
    lines: Seq<Seq<char>>,
    thread: CommentThreadView,
) -> bool {
    &&& placement.buffer == buffer
    &&& placement.thread_id == thread.id
    &&& placement.row == inline_comments::resolved_row(lines, thread.anchor).0
    &&& placement.anchored == inline_comments::resolved_row(lines, thread.anchor).1
    &&& placement.height == inline_comments::card_height(thread)
}

/// A collapsed thread takes four rows. Any other takes room for its comments:
/// seven rows for each, and as many for an empty thread as for one comment.
pub proof fn lemma_each_comment_adds_rows(thread: CommentThreadView, more: CommentThreadView)
    ensures
        thread.collapsed ==> inline_comments::card_height(thread) == 4,
        !thread.collapsed && thread.nodes.len() <= 1 ==> inline_comments::card_height(thread) == 16,
        !thread.collapsed && !more.collapsed && thread.nodes.len() > 0 && more.nodes.len()
            == thread.nodes.len() + 1 ==> inline_comments::card_height(more)
            == inline_comments::card_height(thread) + 7,
{
}

/// A single row is compared by its own trimmed text; several rows by their
/// text as a whole, as far as the buffer has them.
pub proof fn lemma_compared_text(lines: Seq<Seq<char>>, row: int, span: int)
    requires
        0 <= row < lines.len(),
        span >= 0,
    ensures
        inline_comments::rows_at(lines, row, 0) == text::trimmed(lines[row]),
        row + span < lines.len() ==> inline_comments::rows_at(lines, row, span) == text::trimmed(
            text::joined(lines.subrange(row, row + span + 1), "\n"@),
        ),
        row + span >= lines.len() ==> inline_comments::rows_at(lines, row, span) == text::trimmed(
            text::joined(lines.skip(row), "\n"@),
        ),
{
    let one = lines.subrange(row, row + 1);
    assert(one.len() == 1 && one[0] == lines[row]);
    text_laws::lemma_joined_parts(one, one, "\n"@);
    assert(lines.subrange(row, lines.len() as int) =~= lines.skip(row));
}

/// Where a comment is shown: at the row it was stored with, or the last row of
/// a buffer that has become shorter, when nothing is to be compared or the text
/// still stands there.
pub proof fn lemma_unmoved_comment_stays(lines: Seq<Seq<char>>, anchor: CommentAnchorView)
    requires
        inline_comments::is_buffer(lines),
        anchor.start_row <= anchor.end_row,
    ensures
        ({
            let row = if anchor.start_row < lines.len() {
                anchor.start_row as int
            } else {
                lines.len() - 1
            };
            let span = anchor.end_row - anchor.start_row;
            anchor.fingerprint == Seq::<char>::empty() || inline_comments::rows_at(lines, row, span)
                == anchor.fingerprint ==> inline_comments::resolved_row(lines, anchor) == (
                row,
                true,
            )
        }),
{
}

/// Where a comment is shown whose text is no longer at its row: at the first
/// row from 80 above to 80 below on which the text stands now, and if there is
/// none, at its row, as outdated.
pub proof fn lemma_moved_comment_is_found(lines: Seq<Seq<char>>, anchor: CommentAnchorView)
    requires
        inline_comments::is_buffer(lines),
        anchor.start_row <= anchor.end_row,
        anchor.fingerprint.len() > 0,
        inline_comments::rows_at(
            lines,
            if anchor.start_row < lines.len() {
                anchor.start_row as int
            } else {
                lines.len() - 1
            },
            anchor.end_row - anchor.start_row,
        ) != anchor.fingerprint,
    ensures
        ({
            let stored = if anchor.start_row < lines.len() {
                anchor.start_row as int
            } else {
                lines.len() - 1
            };
            let span = anchor.end_row - anchor.start_row;
            let (row, anchored) = inline_comments::resolved_row(lines, anchor);
            &&& anchored ==> 0 <= row < lines.len() && anchor.start_row - 80 <= row
                <= anchor.start_row + 80 && inline_comments::rows_at(lines, row, span)
                == anchor.fingerprint
            &&& anchored ==> forall|k: int|
                0 <= k < row && anchor.start_row - 80 <= k ==> #[trigger] inline_comments::rows_at(
                    lines,
                    k,
                    span,
                ) != anchor.fingerprint
            &&& !anchored ==> row == stored && forall|k: int|
                0 <= k < lines.len() && anchor.start_row - 80 <= k <= anchor.start_row + 80
                    ==> #[trigger] inline_comments::rows_at(lines, k, span) != anchor.fingerprint
        }),
{
    inline_comments::lemma_resolved_row(lines, anchor);
}

/// Lines inserted above a comment move it down with its text, as long as they
/// are no more than 80 and the text does not stand further up too.
pub proof fn lemma_comment_moves_with_its_text(
    above: Seq<Seq<char>>,
    lines: Seq<Seq<char>>,
    anchor: CommentAnchorView,
)
    requires
        inline_comments::is_buffer(above + lines),
        anchor.start_row <= anchor.end_row < lines.len(),
        above.len() <= 80,
        anchor.fingerprint == inline_comments::rows_at(
            lines,
            anchor.start_row as int,
            anchor.end_row - anchor.start_row,
        ),
        anchor.fingerprint.len() > 0,
        forall|k: int|
            0 <= k < above.len() + anchor.start_row ==> #[trigger] inline_comments::rows_at(
                above + lines,
                k,
                anchor.end_row - anchor.start_row,
            ) != anchor.fingerprint,
    ensures
        inline_comments::resolved_row(above + lines, anchor) == (
            above.len() + anchor.start_row,
            true,
        ),
{
    let all = above + lines;
    let span = anchor.end_row - anchor.start_row;
    let at = above.len() + anchor.start_row;
    assert(all.subrange(at, at + span + 1) =~= lines.subrange(
        anchor.start_row as int,
        anchor.start_row + span + 1,
    ));
    assert(inline_comments::rows_at(all, at, span) == anchor.fingerprint);
    inline_comments::lemma_resolved_row(all, anchor);
    let (row, anchored) = inline_comments::resolved_row(all, anchor);
    if above.len() == 0 {
        assert(inline_comments::rows_at(all, anchor.start_row as int, span) == anchor.fingerprint);
    } else {
        assert(inline_comments::rows_at(all, anchor.start_row as int, span)
            != anchor.fingerprint);
        if row < at {
            assert(inline_comments::rows_at(all, row, span) != anchor.fingerprint);
        }
    }
}

/// A new thread is open, empty and expanded, a plain comment of the given file
/// and change, anchored to both ends of the range, and it remembers the text of
/// the range.
pub proof fn lemma_new_thread(
    id: ThreadId,
    change: Option<Seq<char>>,
    file: Seq<char>,
    lines: Seq<Seq<char>>,
    row: u32,
    column: u32,
    end_row: u32,
    end_column: u32,
)
    requires
        row <= end_row < lines.len(),
    ensures
        ({
            let t = inline_comments::new_thread_at(
                id,
                change,
                file,
                lines,
                row,
                column,
                end_row,
                end_column,
            );
            &&& t.id == id && t.change_id == change && t.file == file
            &&& t.anchor.start_row == row && t.anchor.start_column == column
            &&& t.anchor.end_row == end_row && t.anchor.end_column == end_column
            &&& t.anchor.fingerprint == text::trimmed(
                text::joined(lines.subrange(row as int, end_row + 1), "\n"@),
            )
            &&& t.nodes.len() == 0 && !t.collapsed
            &&& t.kind == CommentKind::Comment && t.status == CommentStatus::Open
        }),
{
}

/// A range that ends above its start is that of its first row.
pub proof fn lemma_reversed_range(lines: Seq<Seq<char>>, anchor: CommentAnchorView)
    requires
        anchor.end_row < anchor.start_row,
    ensures
        inline_comments::resolved_row(lines, anchor) == inline_comments::resolved_row(
            lines,
            CommentAnchorView { end_row: anchor.start_row, ..anchor },
        ),
{
}

/// A card can be placed in every buffer whose rows can be counted, as long as
/// its own rows can: always where the thread is collapsed, and else where seven
/// rows for each comment, and nine more, still can.
pub proof fn lemma_what_can_be_placed(lines: Seq<Seq<char>>, thread: CommentThreadView)
    requires
        1 <= lines.len() <= 0x1_0000_0000,
    ensures
        thread.collapsed ==> inline_comments::is_placeable(lines, thread),
        9 + 7 * thread.nodes.len() <= u32::MAX ==> inline_comments::is_placeable(lines, thread),
{
}

/// All cards can be placed where there is no buffer, and in one buffer more as
/// long as every thread that is shown there can be placed.
pub proof fn lemma_what_can_all_be_placed(
    store: CommentStoreView,
    change: Option<Seq<char>>,
    buffers: Seq<BufferTextView>,
    buffer: BufferTextView,
)
    requires
        inline_comments::can_place(store, change, buffers),
        forall|i: int|
            0 <= i < inline_comments::shown_in(store, change, buffer).len()
                ==> inline_comments::is_placeable(
                buffer.lines,
                #[trigger] inline_comments::shown_in(store, change, buffer)[i],
            ),
    ensures
        inline_comments::can_place(store, change, buffers.push(buffer)),
        inline_comments::can_place(store, change, Seq::empty()),
{
    let more = buffers.push(buffer);
    assert forall|b: int, i: int|
        0 <= b < more.len() && 0 <= i < inline_comments::shown_in(
            store,
            change,
            more[b],
        ).len() implies inline_comments::is_placeable(
        more[b].lines,
        #[trigger] inline_comments::shown_in(store, change, more[b])[i],
    ) by {
        if b < buffers.len() {
            assert(more[b] == buffers[b]);
            assert(inline_comments::is_placeable(
                buffers[b].lines,
                inline_comments::shown_in(store, change, buffers[b])[i],
            ));
        }
    }
}

} // verus!
