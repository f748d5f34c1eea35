//! What a sync exchanges with the remote: which comments are pushed, word for
//! word, what becomes of each fetched comment, and which step follows which.

use vstd::prelude::*;
#[allow(unused_imports)]
use crate::comment::{
    CommentAuthorView, CommentKind, CommentNodeView, CommentStatus, NodeStamp,
};
#[allow(unused_imports)]
use crate::comment_store;
#[allow(unused_imports)]
use crate::comment_store::{CommentStoreEvent, CommentStoreView};
#[allow(unused_imports)]
use crate::comment_sync;
#[allow(unused_imports)]
use crate::comment_sync::{
    FetchedCommentView, FreshThreadView, OutgoingCommentView, QueuedCommentView,
    RemoteCommentView, SyncReply, SyncStepView,
};
#[allow(unused_imports)]
use crate::ids;
#[allow(unused_imports)]
use crate::ids::{CommentId, ThreadId};
#[allow(unused_imports)]
use crate::sync_laws;
#[allow(unused_imports)]
use crate::text;
#[allow(unused_imports)]
use crate::thread;
#[allow(unused_imports)]
use crate::thread::CommentThreadView;

verus! {

/// Whether a queued comment is that of a node of a thread: it names both, and
/// it carries the node's body, character for character, to the thread's file
/// and first row, as a comment of its own.
pub open spec fn is_queued_for(
    item: QueuedCommentView,
    thread: CommentThreadView,
    node: CommentNodeView,
) -> bool {
    &&& item.thread_id == thread.id
    &&& item.comment_id == node.id
    &&& item.comment.body == node.body
    &&& item.comment.path == thread.file
    &&& item.comment.row == thread.anchor.start_row
    &&& item.comment.parent_remote_id is None
}

/// A comment is pushed exactly when the user wrote it and it has no number on
/// the remote: one more such comment at the end of a thread is one more queued
/// comment at the end of the thread's, and any other adds nothing.
pub proof fn lemma_every_local_comment_is_queued(
    thread: CommentThreadView,
    nodes: Seq<CommentNodeView>,
    node: CommentNodeView,
)
    ensures
        ({
            let before = comment_sync::outgoing_nodes(thread, nodes);
            let after = comment_sync::outgoing_nodes(thread, nodes.push(node));
            let own = node.author is User && node.remote_id is None;
            &&& comment_sync::outgoing_nodes(thread, Seq::empty()).len() == 0
            &&& !own ==> after == before
            &&& own ==> after.len() == before.len() + 1 && after.drop_last() == before
                && is_queued_for(after.last(), thread, node)
        }),
{
    let before = comment_sync::outgoing_nodes(thread, nodes);
    let after = comment_sync::outgoing_nodes(thread, nodes.push(node));
    assert(nodes.push(node).drop_last() =~= nodes);
    if node.author is User && node.remote_id is None {
        assert(after.drop_last() =~= before);
    }
}

/// One more thread adds its local comments behind those of the others.
pub proof fn lemma_every_thread_is_pushed(
    threads: Seq<CommentThreadView>,
    thread: CommentThreadView,
)
    ensures
        comment_sync::outgoing_of(Seq::empty()).len() == 0,
        comment_sync::outgoing_of(threads.push(thread)) == comment_sync::outgoing_of(threads)
            + comment_sync::outgoing_nodes(thread, thread.nodes),
{
    assert(threads.push(thread).drop_last() =~= threads);
}

proof fn lemma_outgoing_nodes_are_filtered(
    thread: CommentThreadView,
    nodes: Seq<CommentNodeView>,
)
    ensures
        ({
            let queue = comment_sync::outgoing_nodes(thread, nodes);
            let local = nodes.filter(
                |n: CommentNodeView| n.author is User && n.remote_id is None,
            );
            &&& queue.len() == local.len()
            &&& forall|k: int|
                0 <= k < queue.len() ==> is_queued_for(#[trigger] queue[k], thread, local[k])
        }),
    decreases nodes.len(),
{
    reveal(Seq::filter);
    let queue = comment_sync::outgoing_nodes(thread, nodes);
    let local = nodes.filter(|n: CommentNodeView| n.author is User && n.remote_id is None);
    if nodes.len() > 0 {
        let fewer = nodes.drop_last();
        let before = comment_sync::outgoing_nodes(thread, fewer);
        lemma_outgoing_nodes_are_filtered(thread, fewer);
        lemma_every_local_comment_is_queued(thread, fewer, nodes.last());
        assert(fewer.push(nodes.last()) =~= nodes);
        assert forall|k: int| 0 <= k < queue.len() implies is_queued_for(
            #[trigger] queue[k],
            thread,
            local[k],
        ) by {
            if k < before.len() {
                assert(queue[k] == before[k]);
            }
        }
    }
}

/// The queue of a thread is its local comments, in order, one for one.
pub proof fn lemma_queue_of_a_thread(thread: CommentThreadView)
    ensures
        ({
            let queue = comment_sync::outgoing_nodes(thread, thread.nodes);
            let local = thread.nodes.filter(
                |n: CommentNodeView| n.author is User && n.remote_id is None,
            );
            &&& queue.len() == local.len()
            &&& forall|k: int|
                0 <= k < queue.len() ==> is_queued_for(#[trigger] queue[k], thread, local[k])
        }),
{
    lemma_outgoing_nodes_are_filtered(thread, thread.nodes);
}

/// Whether a queued comment is that of a local comment of some thread.
pub open spec fn is_queued_from(
    item: QueuedCommentView,
    threads: Seq<CommentThreadView>,
) -> bool {
    exists|t: int, n: int|
        0 <= t < threads.len() && 0 <= n < threads[t].nodes.len() && #[trigger] is_queued_for(
            item,
            threads[t],
            threads[t].nodes[n],
        ) && threads[t].nodes[n].author is User && threads[t].nodes[n].remote_id is None
}

/// Every queued comment carries, character for character, the body of a comment
/// of the user that has no number yet, to the file and row of its thread.
pub proof fn lemma_queued_comment_is_verbatim(threads: Seq<CommentThreadView>)
    ensures
        forall|k: int|
            0 <= k < comment_sync::outgoing_of(threads).len() ==> is_queued_from(
                #[trigger] comment_sync::outgoing_of(threads)[k],
                threads,
            ),
    decreases threads.len(),
{
    let queue = comment_sync::outgoing_of(threads);
    if threads.len() > 0 {
        let fewer = threads.drop_last();
        let last = threads.last();
        let before = comment_sync::outgoing_of(fewer);
        let own = comment_sync::outgoing_nodes(last, last.nodes);
        let local = last.nodes.filter(
            |n: CommentNodeView| n.author is User && n.remote_id is None,
        );
        lemma_queued_comment_is_verbatim(fewer);
        lemma_queue_of_a_thread(last);
        assert forall|k: int| 0 <= k < queue.len() implies is_queued_from(
            #[trigger] queue[k],
            threads,
        ) by {
            if k < before.len() {
                assert(queue[k] == before[k]);
                assert(is_queued_from(before[k], fewer));
                let (t, n) = choose|t: int, n: int|
                    0 <= t < fewer.len() && 0 <= n < fewer[t].nodes.len()
                        && #[trigger] is_queued_for(before[k], fewer[t], fewer[t].nodes[n])
                        && fewer[t].nodes[n].author is User && fewer[t].nodes[n].remote_id is None;
                assert(threads[t] == fewer[t]);
                assert(is_queued_for(queue[k], threads[t], threads[t].nodes[n]));
            } else {
                let m = k - before.len();
                assert(queue[k] == own[m]);
                last.nodes.lemma_filter_pred(
                    |n: CommentNodeView| n.author is User && n.remote_id is None,
                    m,
                );
                assert(local.contains(local[m]));
                last.nodes.lemma_filter_contains_rev(
                    |n: CommentNodeView| n.author is User && n.remote_id is None,
                    local[m],
                );
                let n = choose|n: int| 0 <= n < last.nodes.len() && last.nodes[n] == local[m];
                let t = threads.len() - 1;
                assert(threads[t] == last);
                assert(is_queued_for(queue[k], threads[t], threads[t].nodes[n]));
            }
        }
    }
}

/// The review unit asked for is the configured one, character for character,
/// unless it is left open: unset, empty or "auto".
pub proof fn lemma_configured_unit(unit: Seq<char>)
    ensures
        comment_sync::wanted_unit(None) is None,
        unit == Seq::<char>::empty() || unit == "auto"@ ==> comment_sync::wanted_unit(Some(unit))
            is None,
        unit != Seq::<char>::empty() && unit != "auto"@ ==> comment_sync::wanted_unit(Some(unit))
            == Some(unit),
{
    if unit.len() == 0 {
        assert(unit =~= Seq::<char>::empty());
    }
}

/// A fetched comment becomes a plain comment of its remote author, with its
/// body character for character, its number, and the given parent and stamp.
pub proof fn lemma_fetched_comment_is_verbatim(
    comment: RemoteCommentView,
    parent: Option<CommentId>,
    stamp: NodeStamp,
)
    ensures
        ({
            let node = comment_sync::node_of_remote(comment, parent, stamp);
            &&& node.body == comment.body
            &&& node.author == CommentAuthorView::Remote { login: comment.author_login }
            &&& node.remote_id == text::i64_value(comment.remote_id)
            &&& node.parent_id == parent
            &&& node.id == stamp.id
            &&& node.created_at == stamp.created_at
            &&& node.kind == CommentKind::Comment
        }),
{
}

/// The replies to a remote comment are the fetched comments that name it, all
/// of them, in fetch order.
pub proof fn lemma_fetched_replies(remote: Seq<FetchedCommentView>, id: Seq<char>)
    ensures
        comment_sync::replies_in(remote, id) == remote.filter(
            |f: FetchedCommentView| f.comment.parent_remote_id == Some(id),
        ).map_values(|f: FetchedCommentView| f.comment),
    decreases remote.len(),
{
    reveal(Seq::filter);
    let names = |f: FetchedCommentView| f.comment.parent_remote_id == Some(id);
    let comment = |f: FetchedCommentView| f.comment;
    if remote.len() == 0 {
        assert(remote.filter(names).map_values(comment) =~= Seq::empty());
    } else {
        let fewer = remote.drop_last();
        lemma_fetched_replies(fewer, id);
        if names(remote.last()) {
            assert(fewer.filter(names).push(remote.last()).map_values(comment) =~= fewer.filter(
                names,
            ).map_values(comment).push(remote.last().comment));
        }
    }
}

/// The thread of a fetched root: open, expanded, of no change, anchored to the
/// root's row of the file, with the root first and then one node for each reply
/// to it, under the root.
pub proof fn lemma_fetched_thread(
    remote: Seq<FetchedCommentView>,
    root: FetchedCommentView,
    fresh: FreshThreadView,
)
    requires
        root.file is Some,
    ensures
        ({
            let t = comment_sync::thread_of_remote(remote, root, fresh);
            let replies = remote.filter(
                |f: FetchedCommentView|
                    f.comment.parent_remote_id == Some(root.comment.remote_id),
            );
            &&& t.id == fresh.id && t.file == root.file->0 && t.change_id is None
            &&& t.anchor.start_row == root.comment.row && t.anchor.end_row == root.comment.row
            &&& t.anchor.start_column == 0 && t.anchor.end_column == 0
            &&& t.anchor.fingerprint.len() == 0
            &&& t.kind == CommentKind::Comment && t.status == CommentStatus::Open && !t.collapsed
            &&& t.nodes.len() == 1 + replies.len()
            &&& t.nodes[0] == comment_sync::node_of_remote(root.comment, None, fresh.root)
            &&& forall|k: int|
                0 <= k < replies.len() ==> #[trigger] t.nodes[1 + k]
                    == comment_sync::node_of_remote(
                    replies[k].comment,
                    Some(t.nodes[0].id),
                    fresh.replies[k],
                )
        }),
{
    lemma_fetched_replies(remote, root.comment.remote_id);
}

/// Whether a fetched comment starts a thread: it replies to none, its path
/// denotes a file, and its identifier is a number that no comment of the store
/// has.
pub open spec fn starts_thread(
    threads: Seq<CommentThreadView>,
    fetched: FetchedCommentView,
) -> bool {
    &&& fetched.comment.parent_remote_id is None
    &&& fetched.file is Some
    &&& text::i64_value(fetched.comment.remote_id) is Some
    &&& forall|t: int, n: int|
        0 <= t < threads.len() && 0 <= n < threads[t].nodes.len() ==> (
        #[trigger] threads[t].nodes[n]).remote_id != text::i64_value(fetched.comment.remote_id)
}

proof fn lemma_starts_thread(threads: Seq<CommentThreadView>, fetched: FetchedCommentView)
    ensures
        comment_sync::is_new_root(threads, fetched) <==> starts_thread(threads, fetched),
{
}

/// The new threads are those of the fetched comments that start one: one more
/// such comment is one more new thread, behind the others, and any other adds
/// none.
pub proof fn lemma_every_new_root_is_imported(
    threads: Seq<CommentThreadView>,
    remote: Seq<FetchedCommentView>,
    fetched: FetchedCommentView,
)
    ensures
        comment_sync::new_roots_in(threads, Seq::empty()).len() == 0,
        comment_sync::new_roots_in(threads, remote.push(fetched)) == (if starts_thread(
            threads,
            fetched,
        ) {
            comment_sync::new_roots_in(threads, remote).push(remote.len() as int)
        } else {
            comment_sync::new_roots_in(threads, remote)
        }),
{
    assert(remote.push(fetched).drop_last() =~= remote);
    lemma_starts_thread(threads, fetched);
}

/// A fetched comment goes under a comment of the store exactly when it replies
/// to one whose number the store has, and has itself a number that the store
/// does not have. What it goes under is a comment with that number, in a thread
/// of the store.
pub proof fn lemma_late_reply(threads: Seq<CommentThreadView>, comment: RemoteCommentView)
    ensures
        ({
            let own = text::i64_value(comment.remote_id);
            let parent = match comment.parent_remote_id {
                Some(id) => text::i64_value(id),
                None => None,
            };
            let found = comment_sync::late_parent(threads, comment);
            &&& found is Some <==> {
                &&& own is Some
                &&& parent is Some
                &&& forall|t: int, n: int|
                    0 <= t < threads.len() && 0 <= n < threads[t].nodes.len() ==> (
                    #[trigger] threads[t].nodes[n]).remote_id != own
                &&& exists|t: int, n: int|
                    0 <= t < threads.len() && 0 <= n < threads[t].nodes.len() && (
                    #[trigger] threads[t].nodes[n]).remote_id == parent
            }
            &&& found matches Some((thread_id, node_id)) ==> exists|t: int, n: int|
                0 <= t < threads.len() && 0 <= n < threads[t].nodes.len() && threads[t].id
                    == thread_id && (#[trigger] threads[t].nodes[n]).id == node_id
                    && threads[t].nodes[n].remote_id == parent
        }),
{
    let own = text::i64_value(comment.remote_id);
    let parent = match comment.parent_remote_id {
        Some(id) => text::i64_value(id),
        None => None,
    };
    if own is Some && parent is Some {
        comment_sync::lemma_carrier(threads, parent->0);
        if comment_sync::late_parent(threads, comment) is Some {
            let (t, n) = comment_sync::lemma_carrier_thread(threads, parent->0);
            assert(threads[t].nodes[n].remote_id == parent);
        }
    }
}

/// A merge emits one event for each thread that it inserts and each reply that
/// it appends: a pass counts one for each fetched comment that goes under a
/// comment of the store as the pass has left it.
pub proof fn lemma_one_event_per_change(
    store: CommentStoreView,
    remote: Seq<FetchedCommentView>,
    fetched: FetchedCommentView,
    fresh: Seq<FreshThreadView>,
    late: Seq<NodeStamp>,
    passes: nat,
)
    ensures
        ({
            let roots = comment_sync::new_roots_in(store.threads(), remote);
            let with_roots = comment_sync::roots_imported(store, remote, roots, fresh);
            let events = comment_sync::merge_events(store, remote, fresh, late);
            &&& events.len() == roots.len() + comment_sync::added_in_all(
                with_roots,
                remote,
                late,
                remote.len(),
            )
            &&& forall|k: int|
                0 <= k < events.len() ==> #[trigger] events[k] == CommentStoreEvent::Changed
        }),
        comment_sync::added_in_pass(store, Seq::empty(), late) == 0,
        comment_sync::added_in_pass(store, remote.push(fetched), late)
            == comment_sync::added_in_pass(store, remote, late) + (if comment_sync::late_parent(
            comment_sync::replies_added(store, remote, late).threads(),
            fetched.comment,
        ) is Some {
            1nat
        } else {
            0
        }),
        comment_sync::added_in_all(store, remote, late, 0) == 0,
        comment_sync::added_in_all(store, remote, late, passes + 1) == comment_sync::added_in_all(
            store,
            remote,
            late,
            passes,
        ) + comment_sync::added_in_pass(
            comment_sync::replies_settled(store, remote, late, passes),
            remote,
            late,
        ),
{
    assert(remote.push(fetched).drop_last() =~= remote);
}

/// A sync without a review unit is over, one with it goes on to fetch from that
/// unit; a provider that fails to detect or to fetch ends it.
pub proof fn lemma_detect_then_fetch(
    configured: Option<Seq<char>>,
    unit: Seq<char>,
    reply: SyncReply,
)
    ensures
        ({
            let after = comment_sync::next_step(SyncStepView::Detect { configured }, reply);
            &&& reply matches SyncReply::Detected(found) ==> match found {
                Some(u) => after == (SyncStepView::Fetch { unit: u.id@ }),
                None => after is Done,
            }
            &&& reply is Failed ==> after is Failed
            &&& reply is Fetched || reply is Pushed ==> after == (SyncStepView::Detect {
                configured,
            })
        }),
        reply is Failed ==> comment_sync::next_step(SyncStepView::Fetch { unit }, reply) is Failed,
{
}

/// A push step pushes to the same unit, from the same queue, the comment at its
/// position, as long as there is one there; then the sync is over. A failed
/// push and a successful one go on in the same way.
pub proof fn lemma_push_goes_on(
    unit: Seq<char>,
    queue: Seq<QueuedCommentView>,
    next: nat,
    reply: SyncReply,
)
    ensures
        next < queue.len() ==> comment_sync::push_step(unit, queue, next) == (SyncStepView::Push {
            unit,
            queue,
            next,
        }),
        next >= queue.len() ==> comment_sync::push_step(unit, queue, next) is Done,
        reply is Pushed || reply is Failed ==> comment_sync::next_step(
            SyncStepView::Push { unit, queue, next },
            reply,
        ) == comment_sync::push_step(unit, queue, next + 1),
        comment_sync::next_step(SyncStepView::Done, reply) is Done,
        comment_sync::next_step(SyncStepView::Failed, reply) is Failed,
{
}

/// Recording a push emits an event exactly when there is a number to record and
/// the node is still there.
pub proof fn lemma_record_event(
    store: CommentStoreView,
    item: QueuedCommentView,
    number: Option<i64>,
)
    ensures
        comment_sync::record_events(store, item, number).len() == (if number is Some && (
        store.thread(item.thread_id) matches Some(t) && exists|n: int|
            0 <= n < t.nodes.len() && (#[trigger] t.nodes[n]).id == item.comment_id) {
            1nat
        } else {
            0
        }),
        number is None ==> comment_sync::recorded(store, item, number) == store,
{
    if let Some(t) = store.thread(item.thread_id) {
        thread::lemma_node_index(t.nodes, item.comment_id);
        if let Some(n) = thread::node_index(t.nodes, item.comment_id) {
            assert(t.nodes[n].id == item.comment_id);
        }
    }
}

/// Whether a position is the first, in order of threads and then of comments,
/// whose comment has a number on the remote.
pub open spec fn is_first_with_number(
    threads: Seq<CommentThreadView>,
    remote_id: i64,
    t: int,
    n: int,
) -> bool {
    &&& 0 <= t < threads.len() && 0 <= n < threads[t].nodes.len()
    &&& threads[t].nodes[n].remote_id == Some(remote_id)
    &&& forall|u: int, m: int|
        0 <= u < t && 0 <= m < threads[u].nodes.len() ==> (#[trigger] threads[u].nodes[m]).remote_id
            != Some(remote_id)
    &&& forall|m: int| 0 <= m < n ==> (#[trigger] threads[t].nodes[m]).remote_id != Some(remote_id)
}

/// What carries a number on the remote is the first comment that has it, and
/// nothing does when no comment has it.
pub proof fn lemma_first_with_number(threads: Seq<CommentThreadView>, remote_id: i64)
    ensures
        match comment_sync::carrier(threads, remote_id) {
            Some((thread_id, comment_id)) => exists|t: int, n: int| #[trigger]
                is_first_with_number(threads, remote_id, t, n) && threads[t].id == thread_id
                    && threads[t].nodes[n].id == comment_id,
            None => forall|t: int, n: int|
                0 <= t < threads.len() && 0 <= n < threads[t].nodes.len() ==> (
                #[trigger] threads[t].nodes[n]).remote_id != Some(remote_id),
        },
    decreases threads.len(),
{
    if threads.len() > 0 {
        let fewer = threads.drop_last();
        let last = threads.last();
        lemma_first_with_number(fewer, remote_id);
        comment_sync::lemma_carrier_index(last.nodes, remote_id);
        assert forall|t: int, n: int|
            0 <= t < fewer.len() && 0 <= n < fewer[t].nodes.len() implies (
        #[trigger] threads[t].nodes[n]) == fewer[t].nodes[n] by {}
        match comment_sync::carrier(fewer, remote_id) {
            Some((thread_id, comment_id)) => {
                let (t, n) = choose|t: int, n: int| #[trigger]
                    is_first_with_number(fewer, remote_id, t, n) && fewer[t].id == thread_id
                        && fewer[t].nodes[n].id == comment_id;
                assert(is_first_with_number(threads, remote_id, t, n));
            },
            None => {
                assert forall|u: int, m: int|
                    0 <= u < fewer.len() && 0 <= m < threads[u].nodes.len() implies (
                #[trigger] threads[u].nodes[m]).remote_id != Some(remote_id) by {
                    assert(fewer[u].nodes[m].remote_id != Some(remote_id));
                }
                match comment_sync::carrier_index(last.nodes, remote_id) {
                    Some(n) => {
                        assert(is_first_with_number(threads, remote_id, threads.len() - 1, n));
                    },
                    None => {
                        assert forall|t: int, n: int|
                            0 <= t < threads.len() && 0 <= n < threads[t].nodes.len() implies (
                        #[trigger] threads[t].nodes[n]).remote_id != Some(remote_id) by {
                            if t == fewer.len() {
                                assert(last.nodes[n].remote_id != Some(remote_id));
                            }
                        }
                    },
                }
            },
        }
    }
}

/// A merge with random identities makes up no comment: it is the merge of what
/// was fetched, for identities of which every single one is random, one for
/// each new thread and one for each of its replies, and it announces what that
/// merge announces.
pub proof fn lemma_random_import(
    before: CommentStoreView,
    remote: Seq<FetchedCommentView>,
    after: CommentStoreView,
    events: Seq<CommentStoreEvent>,
) -> (r: (Seq<FreshThreadView>, Seq<NodeStamp>))
    requires
        comment_sync::is_random_import(before, remote, after, events),
    ensures
        after == comment_sync::imported(before, remote, r.0, r.1),
        events == comment_sync::merge_events(before, remote, r.0, r.1),
        r.0.len() == comment_sync::new_roots_in(before.threads(), remote).len(),
        r.1.len() == remote.len(),
        forall|k: int|
            0 <= k < r.0.len() ==> ids::is_random_uuid((#[trigger] r.0[k]).id.0)
                && ids::is_random_uuid(r.0[k].root.id.0),
        forall|k: int, i: int|
            0 <= k < r.0.len() && 0 <= i < r.0[k].replies.len() ==> ids::is_random_uuid(
                (#[trigger] r.0[k].replies[i]).id.0,
            ),
        forall|k: int| 0 <= k < r.1.len() ==> ids::is_random_uuid((#[trigger] r.1[k]).id.0),
{
    let (fresh, late) = choose|fresh: Seq<FreshThreadView>, late: Seq<NodeStamp>|
        {
            &&& comment_sync::fresh_fits(
                remote,
                comment_sync::new_roots_in(before.threads(), remote),
                fresh,
            )
            &&& forall|k: int|
                0 <= k < fresh.len() ==> comment_sync::is_random(#[trigger] fresh[k])
            &&& late.len() == remote.len()
            &&& forall|k: int|
                0 <= k < late.len() ==> ids::is_random_uuid((#[trigger] late[k]).id.0)
            &&& after == #[trigger] comment_sync::imported(before, remote, fresh, late)
            &&& events == comment_sync::merge_events(before, remote, fresh, late)
        };
    assert forall|k: int, i: int|
        0 <= k < fresh.len() && 0 <= i < fresh[k].replies.len() implies ids::is_random_uuid(
        (#[trigger] fresh[k].replies[i]).id.0,
    ) by {
        assert(comment_sync::is_random(fresh[k]));
    }
    (fresh, late)
}

/// Identities fit what was fetched exactly when there is one for each new root
/// comment, with one for each fetched comment that replies to it.
pub proof fn lemma_identities_needed(
    remote: Seq<FetchedCommentView>,
    roots: Seq<int>,
    fresh: Seq<FreshThreadView>,
)
    ensures
        comment_sync::fresh_fits(remote, roots, fresh) <==> fresh.len() == roots.len() && forall|
            k: int,
        |
            0 <= k < roots.len() ==> (#[trigger] fresh[k]).replies.len() == remote.filter(
                |fetched: FetchedCommentView|
                    fetched.comment.parent_remote_id == Some(remote[roots[k]].comment.remote_id),
            ).len(),
{
    assert forall|k: int| 0 <= k < roots.len() implies comment_sync::replies_in(
        remote,
        #[trigger] remote[roots[k]].comment.remote_id,
    ).len() == remote.filter(
        |fetched: FetchedCommentView|
            fetched.comment.parent_remote_id == Some(remote[roots[k]].comment.remote_id),
    ).len() by {
        lemma_count_replies(remote, remote[roots[k]].comment.remote_id);
    }
    if fresh.len() == roots.len() && forall|k: int|
        0 <= k < roots.len() ==> (#[trigger] fresh[k]).replies.len() == remote.filter(
            |fetched: FetchedCommentView|
                fetched.comment.parent_remote_id == Some(remote[roots[k]].comment.remote_id),
        ).len() {
        assert forall|k: int| 0 <= k < roots.len() implies (#[trigger] fresh[k]).replies.len()
            == comment_sync::replies_in(remote, remote[roots[k]].comment.remote_id).len() by {}
    }
}

proof fn lemma_count_replies(remote: Seq<FetchedCommentView>, root_id: Seq<char>)
    ensures
        comment_sync::replies_in(remote, root_id).len() == remote.filter(
            |fetched: FetchedCommentView| fetched.comment.parent_remote_id == Some(root_id),
        ).len(),
    decreases remote.len(),
{
    reveal(Seq::filter);
    if remote.len() > 0 {
        lemma_count_replies(remote.drop_last(), root_id);
    }
}

} // verus!
