//! Keeps an editor's inline comment cards in step with the store: where a
//! thread's card stands, how high it is, and which cards have to come, go or
//! change.
//!
//! Text is handed over as the lines of a buffer. A buffer has at least one
//! line, and its rows are counted in 32 bits.

use vstd::prelude::*;
use vstd::string::*;
#[allow(unused_imports)]
use crate::comment;
use crate::comment::{
    ChangeId, CommentAnchor, CommentAnchorView, CommentKind, CommentNode, CommentStatus, RelPath,
    same_change,
};
#[allow(unused_imports)]
use crate::comment_store;
use crate::comment_store::{CommentStore, CommentStoreView};
#[allow(unused_imports)]
use crate::ids;
use crate::ids::ThreadId;
#[allow(unused_imports)]
use crate::store_laws;
#[allow(unused_imports)]
use crate::text;
#[allow(unused_imports)]
use crate::thread;
use crate::thread::{CommentThread, CommentThreadView};

verus! {

/// How far above and below its stored row a moved line is looked for.
pub const WINDOW: u32 = 80;

/// Whether lines make up a buffer.
pub open spec fn is_buffer(lines: Seq<Seq<char>>) -> bool {
    1 <= lines.len() <= u32::MAX + 1
}

/// The row that an anchor was stored with, or the last row of a buffer that
/// has become shorter.
pub open spec fn stored_row(lines: Seq<Seq<char>>, anchor: CommentAnchorView) -> int {
    if anchor.start_row < lines.len() {
        anchor.start_row as int
    } else {
        lines.len() - 1
    }
}

/// How many rows below its first one an anchor extends.
pub open spec fn anchor_span(anchor: CommentAnchorView) -> int {
    if anchor.end_row < anchor.start_row {
        0
    } else {
        anchor.end_row - anchor.start_row
    }
}

/// The trimmed text of a row and of `span` rows below it, as far as the buffer
/// has them.
pub open spec fn rows_at(lines: Seq<Seq<char>>, row: int, span: int) -> Seq<char> {
    let end = if row + span < lines.len() {
        row + span + 1
    } else {
        lines.len() as int
    };
    text::trimmed(text::joined(lines.subrange(row, end), "\n"@))
}

/// The first row between two others, both included, from which on `span` and
/// one rows have the trimmed text `fingerprint`.
pub open spec fn first_match(
    lines: Seq<Seq<char>>,
    fingerprint: Seq<char>,
    span: int,
    lo: int,
    hi: int,
) -> Option<int>
    decreases hi - lo + 1,
{
    if lo > hi {
        None
    } else if rows_at(lines, lo, span) == fingerprint {
        Some(lo)
    } else {
        first_match(lines, fingerprint, span, lo + 1, hi)
    }
}

/// The first row of the window around an anchor.
pub open spec fn window_start(anchor: CommentAnchorView) -> int {
    if anchor.start_row < WINDOW {
        0
    } else {
        anchor.start_row - WINDOW
    }
}

/// The last row of the window around an anchor.
pub open spec fn window_end(lines: Seq<Seq<char>>, anchor: CommentAnchorView) -> int {
    if anchor.start_row + WINDOW < lines.len() {
        anchor.start_row + WINDOW
    } else {
        lines.len() - 1
    }
}

/// Whether an anchor holds at its stored row: its fingerprint is empty or
/// still stands there.
pub open spec fn holds_in_place(lines: Seq<Seq<char>>, anchor: CommentAnchorView) -> bool {
    anchor.fingerprint.len() == 0 || rows_at(
        lines,
        stored_row(lines, anchor),
        anchor_span(anchor),
    ) == anchor.fingerprint
}

/// The row at which an anchor's card is shown, and whether the anchor still
/// holds.
pub open spec fn resolved_row(lines: Seq<Seq<char>>, anchor: CommentAnchorView) -> (int, bool) {
    let stored = stored_row(lines, anchor);
    if holds_in_place(lines, anchor) {
        (stored, true)
    } else {
        match first_match(
            lines,
            anchor.fingerprint,
            anchor_span(anchor),
            window_start(anchor),
            window_end(lines, anchor),
        ) {
            Some(row) => (row, true),
            None => (stored, false),
        }
    }
}

/// Whether a thread's card can be placed in a buffer.
pub open spec fn is_placeable(lines: Seq<Seq<char>>, thread: CommentThreadView) -> bool {
    &&& is_buffer(lines)
    &&& card_height(thread) <= u32::MAX
}

/// The trimmed text of a row and of `span` rows below it, as far as the buffer
/// has them.
pub fn rows_text(lines: &Vec<String>, row: u32, span: u32) -> (r: String)
    requires
        row < lines.len(),
    ensures
        r@ == rows_at(text::texts(lines@), row as int, span as int),
{
    let from: usize = row as usize;
    let left: usize = lines.len() - from;
    let to: usize = if (span as usize) < left {
        from + span as usize + 1
    } else {
        lines.len()
    };
    text::trim(text::join_range(lines, from, to, "\n").as_str())
}

/// The trimmed text of a row.
pub fn line_text(lines: &Vec<String>, row: u32) -> (r: String)
    requires
        row < lines.len(),
    ensures
        r@ == text::trimmed(lines@[row as int]@),
        r@ == rows_at(text::texts(lines@), row as int, 0),
{
    proof {
        let all = text::texts(lines@);
        let one = all.subrange(row as int, row + 1);
        assert(one.len() == 1);
        assert(one[0] == lines@[row as int]@);
    }
    text::trim(lines[row as usize].as_str())
}

/// Resolves a thread's display row against the current buffer using its stored
/// fingerprint. Returns the row to anchor the card to and whether the comment
/// is still anchored — `false` marks it outdated.
///
/// If the fingerprinted line moved, it is found by scanning a window around the
/// stored row; if it cannot be found at all, the comment is flagged outdated
/// and left at its stored row.
pub fn resolve_row(lines: &Vec<String>, anchor: &CommentAnchor) -> (r: (u32, bool))
    requires
        is_buffer(text::texts(lines@)),
    ensures
        (r.0 as int, r.1) == resolved_row(text::texts(lines@), anchor@),
{
    let ghost all = text::texts(lines@);
    let max_row: u32 = (lines.len() - 1) as u32;
    let stored: u32 = if anchor.start_row < max_row {
        anchor.start_row
    } else {
        max_row
    };
    if anchor.fingerprint.as_str().unicode_len() == 0 {
        return (stored, true);
    }
    let span: u32 = if anchor.end_row < anchor.start_row {
        0
    } else {
        anchor.end_row - anchor.start_row
    };
    if rows_text(lines, stored, span) == anchor.fingerprint {
        return (stored, true);
    }
    let lo: u32 = if anchor.start_row < WINDOW {
        0
    } else {
        anchor.start_row - WINDOW
    };
    let hi: u32 = if anchor.start_row < max_row && max_row - anchor.start_row > WINDOW {
        anchor.start_row + WINDOW
    } else {
        max_row
    };
    let mut row: u32 = lo;
    while row <= hi
        invariant
            all == text::texts(lines@),
            lo <= row,
            hi < lines.len(),
            hi == window_end(all, anchor@),
            lo == window_start(anchor@),
            span == anchor_span(anchor@),
            first_match(all, anchor@.fingerprint, span as int, lo as int, hi as int) == first_match(
                all,
                anchor@.fingerprint,
                span as int,
                row as int,
                hi as int,
            ),
            stored == stored_row(all, anchor@),
            !holds_in_place(all, anchor@),
        decreases hi - row + 1,
    {
        if rows_text(lines, row, span) == anchor.fingerprint {
            return (row, true);
        }
        if row == hi {
            proof {
                assert(first_match(
                    all,
                    anchor@.fingerprint,
                    span as int,
                    row + 1,
                    hi as int,
                ) is None);
            }
            return (stored, false);
        }
        row = row + 1;
    }
    (stored, false)
}

proof fn lemma_first_match(
    lines: Seq<Seq<char>>,
    fingerprint: Seq<char>,
    span: int,
    lo: int,
    hi: int,
)
    ensures
        match first_match(lines, fingerprint, span, lo, hi) {
            Some(row) => {
                &&& lo <= row <= hi
                &&& rows_at(lines, row, span) == fingerprint
                &&& forall|k: int|
                    lo <= k < row ==> #[trigger] rows_at(lines, k, span) != fingerprint
            },
            None => forall|k: int|
                lo <= k <= hi ==> #[trigger] rows_at(lines, k, span) != fingerprint,
        },
    decreases hi - lo + 1,
{
    if lo <= hi && rows_at(lines, lo, span) != fingerprint {
        lemma_first_match(lines, fingerprint, span, lo + 1, hi);
    }
}

/// A card always stands on a row of the buffer. A thread with a fingerprint
/// counts as anchored exactly if the fingerprint stands at its stored row or
/// somewhere in the window around it; the card then stands on such a row, on
/// the stored one if that one matches and else on the first of the window.
/// Otherwise the card stays at the stored row.
pub proof fn lemma_resolved_row(lines: Seq<Seq<char>>, anchor: CommentAnchorView)
    requires
        is_buffer(lines),
    ensures
        ({
            let (row, anchored) = resolved_row(lines, anchor);
            &&& 0 <= row < lines.len()
            &&& anchor.fingerprint.len() == 0 ==> anchored
            &&& anchored && anchor.fingerprint.len() > 0 ==> rows_at(
                lines,
                row,
                anchor_span(anchor),
            ) == anchor.fingerprint
            &&& anchored && row != stored_row(lines, anchor) ==> window_start(anchor) <= row
                <= window_end(lines, anchor) && forall|k: int|
                window_start(anchor) <= k < row ==> #[trigger] rows_at(
                    lines,
                    k,
                    anchor_span(anchor),
                ) != anchor.fingerprint
            &&& !anchored ==> row == stored_row(lines, anchor) && forall|k: int|
                window_start(anchor) <= k <= window_end(lines, anchor) ==> #[trigger] rows_at(
                    lines,
                    k,
                    anchor_span(anchor),
                ) != anchor.fingerprint
        }),
{
    lemma_first_match(
        lines,
        anchor.fingerprint,
        anchor_span(anchor),
        window_start(anchor),
        window_end(lines, anchor),
    );
}

/// For how many comments a thread's card has room: for each one, and at least
/// for one.
pub open spec fn card_rooms(thread: CommentThreadView) -> nat {
    if thread.nodes.len() == 0 {
        1
    } else {
        thread.nodes.len()
    }
}

/// The height of a thread's card in display rows.
pub open spec fn card_height(thread: CommentThreadView) -> nat {
    if thread.collapsed {
        4
    } else {
        3 + card_rooms(thread) * 7 + 6
    }
}

/// Estimated block height in display rows. Refined as the card content grows.
///
/// Reserves enough rows for the thread header, each per-node card (header +
/// body + reply button + padding ~7 rows), and one potentially-open reply
/// input (~5 rows). Bigger than strictly needed but avoids clipping; the card
/// is left-aligned and capped in width so the extra space is not visually
/// noisy.
pub fn block_height(thread: &CommentThread) -> (r: u32)
    requires
        card_height(thread@) <= u32::MAX,
    ensures
        r == card_height(thread@),
{
    if thread.collapsed {
        return 4;
    }
    let rooms: usize = rooms_in_card(thread);
    3 + rooms as u32 * 7 + 6
}

fn rooms_in_card(thread: &CommentThread) -> (r: usize)
    ensures
        r == card_rooms(thread@),
{
    if thread.nodes.len() == 0 {
        1
    } else {
        thread.nodes.len()
    }
}

/// Whether a thread's card can be placed in a buffer: the buffer has lines,
/// and the height fits in 32 bits.
pub fn can_place_thread(lines: &Vec<String>, thread: &CommentThread) -> (r: bool)
    ensures
        r == is_placeable(text::texts(lines@), thread@),
{
    lines.len() > 0 && lines.len() - 1 <= u32::MAX as usize && (thread.collapsed
        || rooms_in_card(thread) <= ((u32::MAX - 9) / 7) as usize)
}

/// The threads of a list that belong to a change, in list order.
pub open spec fn in_scope(threads: Seq<CommentThreadView>, change: Option<Seq<char>>) -> Seq<
    CommentThreadView,
>
    decreases threads.len(),
{
    if threads.len() == 0 {
        Seq::empty()
    } else if threads.last().change_id == change {
        in_scope(threads.drop_last(), change).push(threads.last())
    } else {
        in_scope(threads.drop_last(), change)
    }
}

/// The threads of a file that are visible under the active change. A thread
/// with no change is visible only when no change is active; a thread of a
/// change is visible only when it matches the current one.
pub fn visible_threads<'a>(
    store: &'a CommentStore,
    path: &RelPath,
    current: &Option<ChangeId>,
) -> (r: Vec<&'a CommentThread>)
    ensures
        thread::thread_ref_views(r@) == in_scope(
            store@.threads_for_file(path@),
            comment::change_text(*current),
        ),
{
    let list = store.threads_for_file(path);
    let ghost views = thread::thread_views(list@);
    let ghost change = comment::change_text(*current);
    let mut out: Vec<&CommentThread> = Vec::new();
    proof {
        assert(views.take(0) =~= Seq::empty());
        assert(thread::thread_ref_views(out@) =~= Seq::empty());
    }
    for i in 0..list.len()
        invariant
            views == thread::thread_views(list@),
            change == comment::change_text(*current),
            thread::thread_ref_views(out@) == in_scope(views.take(i as int), change),
    {
        proof {
            assert(views[i as int] == list@[i as int]@);
            assert(views.take(i + 1).drop_last() =~= views.take(i as int));
        }
        if same_change(&list[i].change_id, current) {
            proof {
                assert(thread::thread_ref_views(out@.push(&list@[i as int]))
                    =~= thread::thread_ref_views(out@).push(list@[i as int]@));
            }
            out.push(&list[i]);
        }
    }
    proof {
        assert(views.take(views.len() as int) =~= views);
    }
    out
}

/// A buffer of an editor: the file it shows, if it shows one, and its lines.
pub struct BufferText {
    pub file: Option<RelPath>,
    pub lines: Vec<String>,
}

/// The mathematical value of a [`BufferText`].
#[verifier::ext_equal]
pub struct BufferTextView {
    pub file: Option<Seq<char>>,
    pub lines: Seq<Seq<char>>,
}

impl View for BufferText {
    type V = BufferTextView;

    open spec fn view(&self) -> BufferTextView {
        BufferTextView {
            file: match self.file {
                Some(path) => Some(path@),
                None => None,
            },
            lines: text::texts(self.lines@),
        }
    }
}

/// The values of a list of buffers.
pub open spec fn buffer_views(buffers: Seq<BufferText>) -> Seq<BufferTextView> {
    buffers.map_values(|b: BufferText| b@)
}

/// Where a visible thread's card belongs: on a row of one of the editor's
/// buffers.
#[derive(Clone, Copy, PartialEq, Eq, Structural, Debug)]
pub struct Placement {
    pub buffer: usize,
    pub thread_id: ThreadId,
    pub row: u32,
    /// Whether the comment is still anchored to matching code.
    pub anchored: bool,
    pub height: u32,
}

/// The placement of a thread in a buffer.
pub open spec fn placement_of(
    lines: Seq<Seq<char>>,
    buffer: int,
    thread: CommentThreadView,
) -> Placement {
    let (row, anchored) = resolved_row(lines, thread.anchor);
    Placement {
        buffer: buffer as usize,
        thread_id: thread.id,
        row: row as u32,
        anchored,
        height: card_height(thread) as u32,
    }
}

/// The threads that a buffer shows.
pub open spec fn shown_in(
    store: CommentStoreView,
    change: Option<Seq<char>>,
    buffer: BufferTextView,
) -> Seq<CommentThreadView> {
    match buffer.file {
        Some(file) => in_scope(store.threads_for_file(file), change),
        None => Seq::empty(),
    }
}

/// The placements of every visible thread, buffer by buffer.
pub open spec fn placements_in(
    store: CommentStoreView,
    change: Option<Seq<char>>,
    buffers: Seq<BufferTextView>,
) -> Seq<Placement>
    decreases buffers.len(),
{
    if buffers.len() == 0 {
        Seq::empty()
    } else {
        let shown = shown_in(store, change, buffers.last());
        placements_in(store, change, buffers.drop_last()) + Seq::new(
            shown.len(),
            |i: int| placement_of(buffers.last().lines, buffers.len() - 1, shown[i]),
        )
    }
}

/// Whether every visible thread can be placed.
pub open spec fn can_place(
    store: CommentStoreView,
    change: Option<Seq<char>>,
    buffers: Seq<BufferTextView>,
) -> bool {
    forall|b: int, i: int|
        0 <= b < buffers.len() && 0 <= i < shown_in(store, change, buffers[b]).len()
            ==> is_placeable(
            buffers[b].lines,
            #[trigger] shown_in(store, change, buffers[b])[i],
        )
}

/// Works out where the card of every visible thread belongs. Works
/// buffer by buffer so it covers both singleton file editors and editors over
/// several buffers.
pub fn placements(
    store: &CommentStore,
    current: &Option<ChangeId>,
    buffers: &Vec<BufferText>,
) -> (r: Vec<Placement>)
    requires
        can_place(store@, comment::change_text(*current), buffer_views(buffers@)),
    ensures
        r@ == placements_in(store@, comment::change_text(*current), buffer_views(buffers@)),
{
    let ghost change = comment::change_text(*current);
    let ghost views = buffer_views(buffers@);
    let mut out: Vec<Placement> = Vec::new();
    proof {
        assert(views.take(0) =~= Seq::empty());
    }
    for b in 0..buffers.len()
        invariant
            change == comment::change_text(*current),
            views == buffer_views(buffers@),
            can_place(store@, change, views),
            out@ == placements_in(store@, change, views.take(b as int)),
    {
        let buffer = &buffers[b];
        let ghost before = out@;
        let ghost shown = shown_in(store@, change, views[b as int]);
        proof {
            assert(views[b as int] == buffer@);
            assert(views.take(b + 1).drop_last() =~= views.take(b as int));
            assert(views.take(b + 1).last() == buffer@);
        }
        match &buffer.file {
            Some(path) => {
                let threads = visible_threads(store, path, current);
                proof {
                    assert(before + Seq::new(
                        0,
                        |i: int| placement_of(buffer@.lines, b as int, shown[i]),
                    ) =~= before);
                }
                for i in 0..threads.len()
                    invariant
                        b < buffers.len(),
                        views == buffer_views(buffers@),
                        views[b as int] == buffer@,
                        shown == shown_in(store@, change, views[b as int]),
                        shown == thread::thread_ref_views(threads@),
                        can_place(store@, change, views),
                        out@ == before + Seq::new(
                            i as nat,
                            |i: int| placement_of(buffer@.lines, b as int, shown[i]),
                        ),
                {
                    let thread = threads[i];
                    proof {
                        assert(shown[i as int] == thread@);
                        assert(shown_in(store@, change, views[b as int])[i as int] == thread@);
                        lemma_resolved_row(buffer@.lines, thread@.anchor);
                    }
                    let (row, anchored) = resolve_row(&buffer.lines, &thread.anchor);
                    let height: u32 = block_height(thread);
                    out.push(Placement { buffer: b, thread_id: thread.id, row, anchored, height });
                    proof {
                        assert(out@ =~= before + Seq::new(
                            (i + 1) as nat,
                            |i: int| placement_of(buffer@.lines, b as int, shown[i]),
                        ));
                    }
                }
            },
            None => {
                proof {
                    assert(before + Seq::new(
                        0,
                        |i: int| placement_of(buffer@.lines, b as int, shown[i]),
                    ) =~= before);
                }
            },
        }
        proof {
            assert(out@ =~= placements_in(store@, change, views.take(b + 1)));
        }
    }
    proof {
        assert(views.take(views.len() as int) =~= views);
    }
    out
}

/// A card that should be on screen.
#[derive(Clone, Copy, PartialEq, Eq, Structural, Debug)]
pub struct DesiredBlock {
    pub thread_id: ThreadId,
    pub anchored: bool,
    pub height: u32,
}

/// A card on screen: its thread, its height, and what the editor knows it by.
pub struct ThreadBlock<B> {
    pub thread_id: ThreadId,
    pub height: u32,
    pub handle: B,
}

/// Where the last desired card of a thread stands; later ones replace earlier
/// ones.
pub open spec fn desired_index(desired: Seq<DesiredBlock>, id: ThreadId) -> Option<int>
    decreases desired.len(),
{
    if desired.len() == 0 {
        None
    } else if desired.last().thread_id == id {
        Some(desired.len() - 1)
    } else {
        desired_index(desired.drop_last(), id)
    }
}

/// Where the first card of a thread stands.
pub open spec fn block_index<B>(blocks: Seq<ThreadBlock<B>>, id: ThreadId) -> Option<int>
    decreases blocks.len(),
{
    if blocks.len() == 0 {
        None
    } else {
        match block_index(blocks.drop_last(), id) {
            Some(i) => Some(i),
            None => if blocks.last().thread_id == id {
                Some(blocks.len() - 1)
            } else {
                None
            },
        }
    }
}

/// The cards that stay, each with the height it should have.
pub open spec fn kept_blocks<B>(
    blocks: Seq<ThreadBlock<B>>,
    desired: Seq<DesiredBlock>,
) -> Seq<ThreadBlock<B>>
    decreases blocks.len(),
{
    if blocks.len() == 0 {
        Seq::empty()
    } else {
        let before = kept_blocks(blocks.drop_last(), desired);
        match desired_index(desired, blocks.last().thread_id) {
            Some(d) => before.push(
                ThreadBlock { height: desired[d].height, ..blocks.last() },
            ),
            None => before,
        }
    }
}

/// What the editor knows the cards by that have to go.
pub open spec fn stale_handles<B>(
    blocks: Seq<ThreadBlock<B>>,
    desired: Seq<DesiredBlock>,
) -> Seq<B>
    decreases blocks.len(),
{
    if blocks.len() == 0 {
        Seq::empty()
    } else {
        let before = stale_handles(blocks.drop_last(), desired);
        match desired_index(desired, blocks.last().thread_id) {
            Some(_) => before,
            None => before.push(blocks.last().handle),
        }
    }
}

/// Where the staying cards stand whose height changes.
pub open spec fn resized_blocks<B>(
    blocks: Seq<ThreadBlock<B>>,
    desired: Seq<DesiredBlock>,
) -> Seq<int>
    decreases blocks.len(),
{
    if blocks.len() == 0 {
        Seq::empty()
    } else {
        let before = resized_blocks(blocks.drop_last(), desired);
        match desired_index(desired, blocks.last().thread_id) {
            Some(d) => if desired[d].height != blocks.last().height {
                before.push(kept_blocks(blocks.drop_last(), desired).len() as int)
            } else {
                before
            },
            None => before,
        }
    }
}

/// Whether each staying card's comment is still anchored.
pub open spec fn kept_anchored<B>(
    blocks: Seq<ThreadBlock<B>>,
    desired: Seq<DesiredBlock>,
) -> Seq<bool>
    decreases blocks.len(),
{
    if blocks.len() == 0 {
        Seq::empty()
    } else {
        let before = kept_anchored(blocks.drop_last(), desired);
        match desired_index(desired, blocks.last().thread_id) {
            Some(d) => before.push(desired[d].anchored),
            None => before,
        }
    }
}

/// Whether the desired card at a position has to be inserted: it is the last
/// one of its thread, and the thread has no card yet.
pub open spec fn is_missing<B>(
    blocks: Seq<ThreadBlock<B>>,
    desired: Seq<DesiredBlock>,
    d: int,
) -> bool {
    desired_index(desired, desired[d].thread_id) == Some(d) && block_index(
        blocks,
        desired[d].thread_id,
    ) is None
}

/// Which of the first `n` desired cards have to be inserted.
pub open spec fn missing_blocks<B>(
    blocks: Seq<ThreadBlock<B>>,
    desired: Seq<DesiredBlock>,
    n: nat,
) -> Seq<int>
    decreases n,
{
    if n == 0 {
        Seq::empty()
    } else {
        let before = missing_blocks(blocks, desired, (n - 1) as nat);
        if is_missing(blocks, desired, n - 1) {
            before.push(n - 1)
        } else {
            before
        }
    }
}

/// What has to be done for the cards on screen to be the desired ones.
pub struct BlockPlan<B> {
    /// The cards that stay, with the heights they should have.
    pub kept: Vec<ThreadBlock<B>>,
    /// Whether the comment of each staying card is still anchored.
    pub anchored: Vec<bool>,
    /// Which of the staying cards have to be resized.
    pub resized: Vec<usize>,
    /// The cards that have to be removed.
    pub removed: Vec<B>,
    /// Which of the desired cards have to be inserted.
    pub inserted: Vec<usize>,
}

/// The position of a thread's last desired card is the greatest one.
pub proof fn lemma_desired_index(desired: Seq<DesiredBlock>, id: ThreadId)
    ensures
        match desired_index(desired, id) {
            Some(d) => {
                &&& 0 <= d < desired.len()
                &&& desired[d].thread_id == id
                &&& forall|k: int|
                    d < k < desired.len() ==> (#[trigger] desired[k]).thread_id != id
            },
            None => forall|k: int|
                0 <= k < desired.len() ==> (#[trigger] desired[k]).thread_id != id,
        },
    decreases desired.len(),
{
    if desired.len() > 0 && desired.last().thread_id != id {
        lemma_desired_index(desired.drop_last(), id);
        assert forall|k: int| 0 <= k < desired.len() - 1 implies #[trigger] desired[k]
            == desired.drop_last()[k] by {}
    }
}

/// The position of a thread's first card is the least one.
pub proof fn lemma_block_index<B>(blocks: Seq<ThreadBlock<B>>, id: ThreadId)
    ensures
        match block_index(blocks, id) {
            Some(i) => {
                &&& 0 <= i < blocks.len()
                &&& blocks[i].thread_id == id
                &&& forall|k: int| 0 <= k < i ==> (#[trigger] blocks[k]).thread_id != id
            },
            None => forall|k: int| 0 <= k < blocks.len() ==> (#[trigger] blocks[k]).thread_id != id,
        },
    decreases blocks.len(),
{
    if blocks.len() > 0 {
        lemma_block_index(blocks.drop_last(), id);
        assert forall|k: int| 0 <= k < blocks.len() - 1 implies #[trigger] blocks[k]
            == blocks.drop_last()[k] by {}
    }
}

fn find_desired(desired: &Vec<DesiredBlock>, id: ThreadId) -> (r: Option<usize>)
    ensures
        match r {
            Some(d) => desired_index(desired@, id) == Some(d as int) && d < desired.len(),
            None => desired_index(desired@, id) is None,
        },
{
    let mut i: usize = desired.len();
    while i > 0
        invariant
            i <= desired.len(),
            forall|k: int| i <= k < desired.len() ==> (#[trigger] desired@[k]).thread_id != id,
        decreases i,
    {
        i = i - 1;
        if desired[i].thread_id == id {
            proof {
                lemma_desired_index(desired@, id);
            }
            return Some(i);
        }
    }
    proof {
        lemma_desired_index(desired@, id);
    }
    None
}

fn has_block<B>(blocks: &Vec<ThreadBlock<B>>, id: ThreadId) -> (r: bool)
    ensures
        r == (block_index(blocks@, id) is Some),
{
    for i in 0..blocks.len()
        invariant
            forall|k: int| 0 <= k < i ==> (#[trigger] blocks@[k]).thread_id != id,
    {
        if blocks[i].thread_id == id {
            proof {
                lemma_block_index(blocks@, id);
            }
            return true;
        }
    }
    proof {
        lemma_block_index(blocks@, id);
    }
    false
}

/// Which desired cards have to be inserted.
fn find_missing<B>(blocks: &Vec<ThreadBlock<B>>, desired: &Vec<DesiredBlock>) -> (r: Vec<usize>)
    ensures
        r@.map_values(|i: usize| i as int) == missing_blocks(blocks@, desired@, desired@.len()),
{
    let mut out: Vec<usize> = Vec::new();
    proof {
        assert(out@.map_values(|i: usize| i as int) =~= Seq::empty());
    }
    for d in 0..desired.len()
        invariant
            out@.map_values(|i: usize| i as int) == missing_blocks(blocks@, desired@, d as nat),
    {
        let id = desired[d].thread_id;
        let is_last = match find_desired(desired, id) {
            Some(last) => last == d,
            None => false,
        };
        if is_last && !has_block(blocks, id) {
            proof {
                assert(out@.push(d).map_values(|i: usize| i as int) =~= out@.map_values(
                    |i: usize| i as int,
                ).push(d as int));
            }
            out.push(d);
        }
    }
    out
}

/// Reconciles the cards on screen with the desired ones: removes cards of
/// threads that are no longer visible, inserts cards for new ones, and
/// resizes the rest.
pub fn reconcile<B>(blocks: Vec<ThreadBlock<B>>, desired: &Vec<DesiredBlock>) -> (plan: BlockPlan<B>)
    ensures
        plan.kept@ == kept_blocks(blocks@, desired@),
        plan.anchored@ == kept_anchored(blocks@, desired@),
        plan.resized@.map_values(|i: usize| i as int) == resized_blocks(blocks@, desired@),
        plan.removed@ == stale_handles(blocks@, desired@),
        plan.inserted@.map_values(|i: usize| i as int) == missing_blocks(
            blocks@,
            desired@,
            desired@.len(),
        ),
{
    let inserted = find_missing(&blocks, desired);
    let ghost all = blocks@;
    let mut kept: Vec<ThreadBlock<B>> = Vec::new();
    let mut anchored: Vec<bool> = Vec::new();
    let mut resized: Vec<usize> = Vec::new();
    let mut removed: Vec<B> = Vec::new();
    proof {
        assert(all.take(0) =~= Seq::empty());
        assert(resized@.map_values(|i: usize| i as int) =~= Seq::empty());
    }
    for block in it: blocks
        invariant
            it.seq() == all,
            kept@ == kept_blocks(all.take(it.index()), desired@),
            anchored@ == kept_anchored(all.take(it.index()), desired@),
            resized@.map_values(|i: usize| i as int) == resized_blocks(
                all.take(it.index()),
                desired@,
            ),
            removed@ == stale_handles(all.take(it.index()), desired@),
    {
        proof {
            assert(all.take(it.index() + 1).drop_last() =~= all.take(it.index()));
            assert(all.take(it.index() + 1).last() == block);
        }
        let ThreadBlock { thread_id, height, handle } = block;
        match find_desired(desired, thread_id) {
            Some(d) => {
                let wanted: u32 = desired[d].height;
                if wanted != height {
                    let at: usize = kept.len();
                    proof {
                        assert(resized@.push(at).map_values(|i: usize| i as int)
                            =~= resized@.map_values(|i: usize| i as int).push(at as int));
                    }
                    resized.push(at);
                }
                kept.push(ThreadBlock { thread_id, height: wanted, handle });
                anchored.push(desired[d].anchored);
            },
            None => {
                removed.push(handle);
            },
        }
    }
    proof {
        assert(all.take(all.len() as int) =~= all);
    }
    BlockPlan { kept, anchored, resized, removed, inserted }
}

/// Whether the cards on screen are the desired ones: one card for each desired
/// thread, with the desired height, and no other.
pub open spec fn shows<B>(blocks: Seq<ThreadBlock<B>>, desired: Seq<DesiredBlock>) -> bool {
    &&& forall|i: int, j: int|
        0 <= i < blocks.len() && 0 <= j < blocks.len() && (#[trigger] blocks[i]).thread_id == (
        #[trigger] blocks[j]).thread_id ==> i == j
    &&& forall|i: int|
        0 <= i < blocks.len() ==> match desired_index(desired, (#[trigger] blocks[i]).thread_id) {
            Some(d) => blocks[i].height == desired[d].height,
            None => false,
        }
    &&& forall|d: int|
        0 <= d < desired.len() ==> block_index(blocks, (#[trigger] desired[d]).thread_id) is Some
}

proof fn lemma_kept<B>(blocks: Seq<ThreadBlock<B>>, desired: Seq<DesiredBlock>)
    requires
        forall|i: int, j: int|
            0 <= i < blocks.len() && 0 <= j < blocks.len() && (#[trigger] blocks[i]).thread_id == (
            #[trigger] blocks[j]).thread_id ==> i == j,
    ensures
        ({
            let kept = kept_blocks(blocks, desired);
            &&& forall|i: int, j: int|
                0 <= i < kept.len() && 0 <= j < kept.len() && (#[trigger] kept[i]).thread_id == (
                #[trigger] kept[j]).thread_id ==> i == j
            &&& forall|i: int|
                0 <= i < kept.len() ==> match desired_index(
                    desired,
                    (#[trigger] kept[i]).thread_id,
                ) {
                    Some(d) => kept[i].height == desired[d].height,
                    None => false,
                }
            &&& forall|i: int|
                0 <= i < kept.len() ==> block_index(blocks, (#[trigger] kept[i]).thread_id) is Some
            &&& forall|id: ThreadId|
                #![trigger block_index(kept, id)]
                block_index(kept, id) is Some <==> block_index(blocks, id) is Some && desired_index(
                    desired,
                    id,
                ) is Some
        }),
    decreases blocks.len(),
{
    let kept = kept_blocks(blocks, desired);
    if blocks.len() > 0 {
        let fewer = blocks.drop_last();
        let last = blocks.last();
        let before = kept_blocks(fewer, desired);
        assert forall|i: int, j: int|
            0 <= i < fewer.len() && 0 <= j < fewer.len() && (#[trigger] fewer[i]).thread_id == (
            #[trigger] fewer[j]).thread_id implies i == j by {
            assert(blocks[i].thread_id == blocks[j].thread_id);
        }
        lemma_kept(fewer, desired);
        lemma_block_index(fewer, last.thread_id);
        if block_index(fewer, last.thread_id) is Some {
            let i = block_index(fewer, last.thread_id)->0;
            assert(blocks[i].thread_id == blocks[blocks.len() - 1].thread_id);
        }
        assert(kept.len() > before.len() ==> kept.drop_last() =~= before);
        assert forall|i: int| 0 <= i < before.len() implies #[trigger] kept[i] == before[i] by {}
        assert forall|i: int, j: int|
            0 <= i < kept.len() && 0 <= j < kept.len() && (#[trigger] kept[i]).thread_id == (
            #[trigger] kept[j]).thread_id implies i == j by {
            if i < before.len() && j < before.len() {
                assert(before[i].thread_id == before[j].thread_id);
            } else if i < before.len() {
                assert(block_index(fewer, before[i].thread_id) is Some);
            } else if j < before.len() {
                assert(block_index(fewer, before[j].thread_id) is Some);
            }
        }
        assert forall|i: int| 0 <= i < kept.len() implies match desired_index(
            desired,
            (#[trigger] kept[i]).thread_id,
        ) {
            Some(d) => kept[i].height == desired[d].height,
            None => false,
        } by {
            if i < before.len() {
                assert(kept[i] == before[i]);
            }
        }
        assert forall|i: int| 0 <= i < kept.len() implies block_index(
            blocks,
            (#[trigger] kept[i]).thread_id,
        ) is Some by {
            if i < before.len() {
                assert(kept[i] == before[i]);
                assert(block_index(fewer, before[i].thread_id) is Some);
            }
        }
        assert forall|id: ThreadId|
            #![trigger block_index(kept, id)]
            block_index(kept, id) is Some <==> block_index(blocks, id) is Some && desired_index(
                desired,
                id,
            ) is Some by {
            assert(block_index(before, id) is Some <==> block_index(fewer, id) is Some
                && desired_index(desired, id) is Some);
        }
    }
}

/// The cards to be inserted, in the order in which they are desired: no other
/// than the missing ones, and all of them.
pub proof fn lemma_missing<B>(blocks: Seq<ThreadBlock<B>>, desired: Seq<DesiredBlock>, n: nat)
    requires
        n <= desired.len(),
    ensures
        forall|k: int|
            0 <= k < missing_blocks(blocks, desired, n).len() ==> 0 <= (
            #[trigger] missing_blocks(blocks, desired, n)[k]) < n && is_missing(
                blocks,
                desired,
                missing_blocks(blocks, desired, n)[k],
            ),
        forall|d: int|
            0 <= d < n && #[trigger] is_missing(blocks, desired, d) ==> missing_blocks(
                blocks,
                desired,
                n,
            ).contains(d),
        forall|j: int, k: int|
            0 <= j < k < missing_blocks(blocks, desired, n).len() ==> (
            #[trigger] missing_blocks(blocks, desired, n)[j]) < (
            #[trigger] missing_blocks(blocks, desired, n)[k]),
    decreases n,
{
    if n > 0 {
        let before = missing_blocks(blocks, desired, (n - 1) as nat);
        let after = missing_blocks(blocks, desired, n);
        lemma_missing(blocks, desired, (n - 1) as nat);
        assert forall|d: int| 0 <= d < n && #[trigger] is_missing(
            blocks,
            desired,
            d,
        ) implies after.contains(d) by {
            if d < n - 1 {
                assert(before.contains(d));
                let k = choose|k: int| 0 <= k < before.len() && before[k] == d;
                assert(after[k] == d);
            } else {
                assert(after[after.len() - 1] == d);
            }
        }
    }
}

/// Once the missing cards have been inserted behind the staying ones, the
/// cards on screen are exactly the desired ones.
pub proof fn lemma_reconciled_shows_desired<B>(
    blocks: Seq<ThreadBlock<B>>,
    desired: Seq<DesiredBlock>,
    added: Seq<ThreadBlock<B>>,
)
    requires
        forall|i: int, j: int|
            0 <= i < blocks.len() && 0 <= j < blocks.len() && (#[trigger] blocks[i]).thread_id == (
            #[trigger] blocks[j]).thread_id ==> i == j,
        added.len() == missing_blocks(blocks, desired, desired.len()).len(),
        forall|k: int|
            0 <= k < added.len() ==> {
                let wanted = desired[missing_blocks(blocks, desired, desired.len())[k]];
                (#[trigger] added[k]).thread_id == wanted.thread_id && added[k].height
                    == wanted.height
            },
    ensures
        shows(kept_blocks(blocks, desired) + added, desired),
{
    let kept = kept_blocks(blocks, desired);
    let missing = missing_blocks(blocks, desired, desired.len());
    let after = kept + added;
    lemma_kept(blocks, desired);
    lemma_missing(blocks, desired, desired.len());
    assert forall|k: int| 0 <= k < added.len() implies 0 <= missing[k] < desired.len()
        && is_missing(blocks, desired, missing[k]) && (#[trigger] added[k]).thread_id
        == desired[missing[k]].thread_id && added[k].height == desired[missing[k]].height by {
        assert(is_missing(blocks, desired, missing[k]));
    }
    assert forall|i: int, j: int|
        0 <= i < after.len() && 0 <= j < after.len() && (#[trigger] after[i]).thread_id == (
        #[trigger] after[j]).thread_id implies i == j by {
        if i < kept.len() && j < kept.len() {
            assert(kept[i].thread_id == kept[j].thread_id);
        } else if i < kept.len() {
            assert(after[j] == added[j - kept.len()]);
            assert(block_index(blocks, kept[i].thread_id) is Some);
        } else if j < kept.len() {
            assert(after[i] == added[i - kept.len()]);
            assert(block_index(blocks, kept[j].thread_id) is Some);
        } else {
            let a = i - kept.len();
            let b = j - kept.len();
            assert(after[i] == added[a]);
            assert(after[j] == added[b]);
            assert(missing[a] == missing[b]);
            if a < b {
                assert(missing[a] < missing[b]);
            } else if b < a {
                assert(missing[b] < missing[a]);
            }
        }
    }
    assert forall|i: int| 0 <= i < after.len() implies match desired_index(
        desired,
        (#[trigger] after[i]).thread_id,
    ) {
        Some(d) => after[i].height == desired[d].height,
        None => false,
    } by {
        if i < kept.len() {
            assert(after[i] == kept[i]);
        } else {
            assert(after[i] == added[i - kept.len()]);
        }
    }
    assert forall|d: int| 0 <= d < desired.len() implies block_index(
        after,
        (#[trigger] desired[d]).thread_id,
    ) is Some by {
        let id = desired[d].thread_id;
        lemma_desired_index(desired, id);
        lemma_block_index(after, id);
        if block_index(blocks, id) is Some {
            assert(block_index(kept, id) is Some);
            lemma_block_index(kept, id);
            let i = block_index(kept, id)->0;
            assert(after[i].thread_id == id);
        } else {
            let last = desired_index(desired, id)->0;
            assert(is_missing(blocks, desired, last));
            assert(missing.contains(last));
            let k = choose|k: int| 0 <= k < missing.len() && missing[k] == last;
            assert(added[k].thread_id == id);
            assert(after[kept.len() + k] == added[k]);
        }
    }
}

proof fn lemma_shown_stays<B>(
    blocks: Seq<ThreadBlock<B>>,
    desired: Seq<DesiredBlock>,
    n: nat,
    m: nat,
)
    requires
        shows(blocks, desired),
        n <= blocks.len(),
        m <= desired.len(),
    ensures
        kept_blocks(blocks.take(n as int), desired) == blocks.take(n as int),
        stale_handles(blocks.take(n as int), desired) == Seq::<B>::empty(),
        resized_blocks(blocks.take(n as int), desired) == Seq::<int>::empty(),
        missing_blocks(blocks, desired, m) == Seq::<int>::empty(),
    decreases n + m,
{
    if m > 0 {
        lemma_shown_stays(blocks, desired, n, (m - 1) as nat);
        assert(block_index(blocks, desired[m - 1].thread_id) is Some);
    } else if n > 0 {
        lemma_shown_stays(blocks, desired, (n - 1) as nat, m);
        let part = blocks.take(n as int);
        let last = blocks[n - 1];
        assert(part.drop_last() =~= blocks.take(n - 1));
        assert(part.last() == last);
        assert(part.drop_last().push(last) =~= part);
    }
}

/// A second reconciliation in a row finds nothing to do: once the missing
/// cards have been inserted behind the staying ones, no card has to be removed,
/// resized or inserted for the same desired ones, and every card stays as it
/// is.
pub proof fn lemma_second_reconcile_does_nothing<B>(
    blocks: Seq<ThreadBlock<B>>,
    desired: Seq<DesiredBlock>,
    added: Seq<ThreadBlock<B>>,
)
    requires
        forall|i: int, j: int|
            0 <= i < blocks.len() && 0 <= j < blocks.len() && (#[trigger] blocks[i]).thread_id == (
            #[trigger] blocks[j]).thread_id ==> i == j,
        added.len() == missing_blocks(blocks, desired, desired.len()).len(),
        forall|k: int|
            0 <= k < added.len() ==> {
                let wanted = desired[missing_blocks(blocks, desired, desired.len())[k]];
                (#[trigger] added[k]).thread_id == wanted.thread_id && added[k].height
                    == wanted.height
            },
    ensures
        ({
            let after = kept_blocks(blocks, desired) + added;
            &&& kept_blocks(after, desired) == after
            &&& stale_handles(after, desired) == Seq::<B>::empty()
            &&& resized_blocks(after, desired) == Seq::<int>::empty()
            &&& missing_blocks(after, desired, desired.len()) == Seq::<int>::empty()
        }),
{
    let after = kept_blocks(blocks, desired) + added;
    lemma_reconciled_shows_desired(blocks, desired, added);
    lemma_shown_stays(after, desired, after.len(), desired.len());
    assert(after.take(after.len() as int) =~= after);
}

/// A new thread without comments, anchored to a range of a buffer.
pub open spec fn new_thread_at(
    id: ThreadId,
    change: Option<Seq<char>>,
    file: Seq<char>,
    lines: Seq<Seq<char>>,
    row: u32,
    column: u32,
    end_row: u32,
    end_column: u32,
) -> CommentThreadView {
    CommentThreadView {
        id,
        change_id: change,
        file,
        anchor: CommentAnchorView {
            start_row: row,
            start_column: column,
            end_row,
            end_column,
            fingerprint: rows_at(lines, row as int, end_row - row),
        },
        kind: CommentKind::Comment,
        status: CommentStatus::Open,
        nodes: Seq::empty(),
        collapsed: false,
    }
}

/// Builds an open, empty thread with a given identifier at a range of a
/// buffer. It belongs to the change that is active, so it shows up in the
/// right scope.
pub fn build_thread_with(
    id: ThreadId,
    change: Option<ChangeId>,
    file: RelPath,
    lines: &Vec<String>,
    row: u32,
    column: u32,
    end_row: u32,
    end_column: u32,
) -> (r: CommentThread)
    requires
        row <= end_row < lines.len(),
    ensures
        r@ == new_thread_at(
            id,
            comment::change_text(change),
            file@,
            text::texts(lines@),
            row,
            column,
            end_row,
            end_column,
        ),
{
    let nodes: Vec<CommentNode> = Vec::new();
    proof {
        assert(thread::node_views(nodes@) =~= Seq::empty());
    }
    CommentThread {
        id,
        change_id: change,
        file,
        anchor: CommentAnchor {
            start_row: row,
            start_column: column,
            end_row,
            end_column,
            fingerprint: rows_text(lines, row, end_row - row),
        },
        kind: CommentKind::Comment,
        status: CommentStatus::Open,
        nodes,
        collapsed: false,
    }
}

/// Builds an open, empty thread with a random identifier at a range of a
/// buffer.
pub fn build_thread(
    change: Option<ChangeId>,
    file: RelPath,
    lines: &Vec<String>,
    row: u32,
    column: u32,
    end_row: u32,
    end_column: u32,
) -> (r: CommentThread)
    requires
        row <= end_row < lines.len(),
    ensures
        ids::is_random_uuid(r.id.0),
        r@ == new_thread_at(
            r.id,
            comment::change_text(change),
            file@,
            text::texts(lines@),
            row,
            column,
            end_row,
            end_column,
        ),
{
    build_thread_with(ThreadId::new(), change, file, lines, row, column, end_row, end_column)
}

/// A thread that was just anchored to a range resolves to the range's first
/// row, still anchored, as long as the buffer stays as it is.
pub proof fn lemma_new_thread_is_anchored(
    id: ThreadId,
    change: Option<Seq<char>>,
    file: Seq<char>,
    lines: Seq<Seq<char>>,
    row: u32,
    column: u32,
    end_row: u32,
    end_column: u32,
)
    requires
        is_buffer(lines),
        row <= end_row < lines.len(),
    ensures
        resolved_row(
            lines,
            new_thread_at(
                id,
                change,
                file,
                lines,
                row,
                column,
                end_row,
                end_column,
            ).anchor,
        ) == (row as int, true),
{
}

/// A thread is visible exactly under its own change: one without a change
/// while no change is active, one of a change while that change is.
pub proof fn lemma_in_scope_contains(
    threads: Seq<CommentThreadView>,
    change: Option<Seq<char>>,
    t: CommentThreadView,
)
    ensures
        in_scope(threads, change).contains(t) <==> threads.contains(t) && t.change_id == change,
    decreases threads.len(),
{
    if threads.len() > 0 {
        let fewer = threads.drop_last();
        let last = threads.last();
        lemma_in_scope_contains(fewer, change, t);
        lemma_pushed_contains(fewer, last, t);
        lemma_pushed_contains(in_scope(fewer, change), last, t);
        assert(threads =~= fewer.push(last));
    }
}

proof fn lemma_pushed_contains(
    list: Seq<CommentThreadView>,
    last: CommentThreadView,
    t: CommentThreadView,
)
    ensures
        list.push(last).contains(t) <==> list.contains(t) || t == last,
{
    let after = list.push(last);
    if list.contains(t) {
        let i = choose|i: int| 0 <= i < list.len() && list[i] == t;
        assert(after[i] == t);
    }
    if t == last {
        assert(after[list.len() as int] == t);
    }
    if after.contains(t) && t != last {
        let i = choose|i: int| 0 <= i < after.len() && after[i] == t;
        assert(list[i] == t);
    }
}

/// A thread that was inserted is visible in its file exactly under its own
/// change.
pub proof fn lemma_inserted_thread_visible(
    store: CommentStoreView,
    t: CommentThreadView,
    change: Option<Seq<char>>,
)
    requires
        store.wf(),
    ensures
        in_scope(store.upserted(t).threads_for_file(t.file), change).contains(t) <==> t.change_id
            == change,
{
    store_laws::lemma_upsert_by_file(store, t, t.file);
    let list = store.threads_for_file(t.file);
    let put = comment_store::put_in_list(list, t);
    comment_store::lemma_thread_index(list, t.id);
    match comment_store::thread_index(list, t.id) {
        Some(i) => {
            assert(put[i] == t);
        },
        None => {
            assert(put[list.len() as int] == t);
        },
    }
    lemma_in_scope_contains(put, change, t);
}

} // verus!
