//! What a sync promises as a whole: every comment of the queue is pushed once,
//! a second import adds nothing, what came from the remote is not pushed back,
//! and what was pushed is not pushed again.

use vstd::prelude::*;
#[allow(unused_imports)]
use crate::comment::{CommentNodeView, NodeStamp};
#[allow(unused_imports)]
use crate::comment_store;
#[allow(unused_imports)]
use crate::comment_store::CommentStoreView;
#[allow(unused_imports)]
use crate::comment_sync;
#[allow(unused_imports)]
use crate::comment_sync::{
    FetchedCommentView, FreshThreadView, QueuedCommentView, RemoteCommentView, SyncReply,
    SyncStepView,
};
#[allow(unused_imports)]
use crate::ids::{CommentId, ThreadId};
#[allow(unused_imports)]
use crate::store_laws;
#[allow(unused_imports)]
use crate::text;
#[allow(unused_imports)]
use crate::thread;
#[allow(unused_imports)]
use crate::thread::CommentThreadView;
#[allow(unused_imports)]
use crate::tree;

verus! {

/// The comments that a step still has to push.
pub open spec fn still_to_push(step: SyncStepView) -> Seq<QueuedCommentView> {
    match step {
        SyncStepView::Push { queue, next, .. } => if next <= queue.len() {
            queue.skip(next as int)
        } else {
            Seq::empty()
        },
        _ => Seq::empty(),
    }
}

/// Every comment of the queue is pushed once, in order: after each push,
/// whether it succeeded or failed, the rest of the queue is still to be
/// pushed, and the sync is over when nothing is left.
pub proof fn lemma_queue_is_pushed_in_order(
    unit: Seq<char>,
    queue: Seq<QueuedCommentView>,
    next: nat,
    reply: SyncReply,
)
    requires
        next < queue.len(),
        reply is Pushed || reply is Failed,
    ensures
        ({
            let step = SyncStepView::Push { unit, queue, next };
            let after = comment_sync::next_step(step, reply);
            &&& still_to_push(step).len() > 0
            &&& still_to_push(step)[0] == queue[next as int]
            &&& still_to_push(after) == still_to_push(step).drop_first()
            &&& still_to_push(after).len() == 0 ==> after is Done
        }),
{
    let step = SyncStepView::Push { unit, queue, next };
    let after = comment_sync::next_step(step, reply);
    assert(still_to_push(after) =~= still_to_push(step).drop_first());
}

proof fn lemma_new_roots(
    threads: Seq<CommentThreadView>,
    remote: Seq<FetchedCommentView>,
)
    ensures
        forall|k: int|
            0 <= k < comment_sync::new_roots_in(threads, remote).len() ==> 0 <= (
            #[trigger] comment_sync::new_roots_in(threads, remote)[k]) < remote.len()
                && comment_sync::is_new_root(
                threads,
                remote[comment_sync::new_roots_in(threads, remote)[k]],
            ),
        forall|j: int|
            0 <= j < remote.len() && comment_sync::is_new_root(threads, #[trigger] remote[j])
                ==> comment_sync::new_roots_in(
                threads,
                remote,
            ).contains(j),
        (forall|j: int| 0 <= j < remote.len()
            ==> !comment_sync::is_new_root(threads, #[trigger] remote[j]))
            ==> comment_sync::new_roots_in(threads, remote) == Seq::<int>::empty(),
    decreases remote.len(),
{
    let roots = comment_sync::new_roots_in(threads, remote);
    if remote.len() > 0 {
        let fewer = remote.drop_last();
        let before = comment_sync::new_roots_in(threads, fewer);
        lemma_new_roots(threads, fewer);
        assert forall|k: int| 0 <= k < roots.len() implies 0 <= (#[trigger] roots[k])
            < remote.len() && comment_sync::is_new_root(threads, remote[roots[k]]) by {
            if k < before.len() {
                assert(0 <= before[k] < fewer.len());
                assert(fewer[before[k]] == remote[before[k]]);
            }
        }
        assert forall|j: int|
            0 <= j < remote.len() && comment_sync::is_new_root(
                threads,
                #[trigger] remote[j],
            ) implies roots.contains(j) by {
            if j < fewer.len() {
                assert(comment_sync::is_new_root(threads, fewer[j]));
                assert(before.contains(j));
                let k = choose|k: int| 0 <= k < before.len() && before[k] == j;
                assert(roots[k] == j);
            } else {
                assert(roots[roots.len() - 1] == j);
            }
        }
        if forall|j: int| 0 <= j < remote.len()
            ==> !comment_sync::is_new_root(threads, #[trigger] remote[j]) {
            assert forall|j: int| 0 <= j < fewer.len() implies !comment_sync::is_new_root(
                threads,
                #[trigger] fewer[j],
            ) by {
                assert(remote[j] == fewer[j]);
            }
            assert(!comment_sync::is_new_root(threads, remote[remote.len() - 1]));
        }
    }
}

/// Whether the fresh thread identifiers differ from one another.
pub open spec fn fresh_distinct(fresh: Seq<FreshThreadView>) -> bool {
    forall|i: int, j: int|
        0 <= i < fresh.len() && 0 <= j < fresh.len() && (#[trigger] fresh[i]).id == (
        #[trigger] fresh[j]).id ==> i == j
}

proof fn lemma_roots_keep_others(
    store: CommentStoreView,
    remote: Seq<FetchedCommentView>,
    roots: Seq<int>,
    fresh: Seq<FreshThreadView>,
    id: ThreadId,
)
    requires
        fresh.len() >= roots.len(),
        forall|k: int| 0 <= k < roots.len() ==> (#[trigger] fresh[k]).id != id,
    ensures
        comment_sync::roots_imported(store, remote, roots, fresh).thread(id) == store.thread(id),
    decreases roots.len(),
{
    if roots.len() > 0 {
        let fewer = roots.drop_last();
        lemma_roots_keep_others(store, remote, fewer, fresh, id);
        assert(fresh[roots.len() - 1].id != id);
        store_laws::lemma_upsert_then_lookup(
            comment_sync::roots_imported(store, remote, fewer, fresh),
            comment_sync::thread_of_remote(remote, remote[roots.last()], fresh[roots.len() - 1]),
            id,
        );
    }
}

proof fn lemma_roots_then_lookup(
    store: CommentStoreView,
    remote: Seq<FetchedCommentView>,
    roots: Seq<int>,
    fresh: Seq<FreshThreadView>,
    k: int,
)
    requires
        fresh.len() >= roots.len(),
        fresh_distinct(fresh),
        0 <= k < roots.len(),
    ensures
        comment_sync::roots_imported(store, remote, roots, fresh).thread(fresh[k].id) == Some(
            comment_sync::thread_of_remote(remote, remote[roots[k]], fresh[k]),
        ),
    decreases roots.len(),
{
    let fewer = roots.drop_last();
    let last = roots.len() - 1;
    store_laws::lemma_upsert_then_lookup(
        comment_sync::roots_imported(store, remote, fewer, fresh),
        comment_sync::thread_of_remote(remote, remote[roots.last()], fresh[last]),
        fresh[k].id,
    );
    if k < last {
        lemma_roots_then_lookup(store, remote, fewer, fresh, k);
        assert(fewer[k] == roots[k]);
        assert(fresh[k].id != fresh[last].id);
    }
}

proof fn lemma_roots_keep_order(
    store: CommentStoreView,
    remote: Seq<FetchedCommentView>,
    roots: Seq<int>,
    fresh: Seq<FreshThreadView>,
)
    requires
        store.wf(),
    ensures
        comment_sync::roots_imported(store, remote, roots, fresh).wf(),
    decreases roots.len(),
{
    if roots.len() > 0 {
        let fewer = roots.drop_last();
        lemma_roots_keep_order(store, remote, fewer, fresh);
        store_laws::lemma_upsert_keeps_order(
            comment_sync::roots_imported(store, remote, fewer, fresh),
            comment_sync::thread_of_remote(remote, remote[roots.last()], fresh[roots.len() - 1]),
        );
    }
}

proof fn lemma_known_by_lookup(
    store: CommentStoreView,
    id: ThreadId,
    t: CommentThreadView,
    n: int,
    remote_id: i64,
)
    requires
        store.thread(id) == Some(t),
        0 <= n < t.nodes.len(),
        t.nodes[n].remote_id == Some(remote_id),
    ensures
        comment_sync::is_known(store.threads(), remote_id),
{
    store_laws::lemma_thread_is_first(store, id);
    comment_store::lemma_thread_index(store.threads(), id);
    let i = comment_store::thread_index(store.threads(), id)->0;
    assert(store.threads()[i].nodes[n].remote_id == Some(remote_id));
}

proof fn lemma_thread_by_id(store: CommentStoreView, i: int)
    requires
        store.wf(),
        0 <= i < store.threads().len(),
    ensures
        store.thread(store.threads()[i].id) == Some(store.threads()[i]),
{
    let threads = store.threads();
    let id = threads[i].id;
    store_laws::lemma_thread_is_first(store, id);
    comment_store::lemma_thread_index(threads, id);
    let first = comment_store::thread_index(threads, id)->0;
    assert(threads[first].id == threads[i].id);
}

proof fn lemma_known_thread(store: CommentStoreView, remote_id: i64) -> (r: (
    ThreadId,
    CommentThreadView,
    int,
))
    requires
        store.wf(),
        comment_sync::is_known(store.threads(), remote_id),
    ensures
        store.thread(r.0) == Some(r.1),
        0 <= r.2 < r.1.nodes.len(),
        r.1.nodes[r.2].remote_id == Some(remote_id),
{
    let threads = store.threads();
    let (t, n) = choose|t: int, n: int|
        0 <= t < threads.len() && 0 <= n < threads[t].nodes.len() && (
        #[trigger] threads[t].nodes[n]).remote_id == Some(remote_id);
    lemma_thread_by_id(store, t);
    (threads[t].id, threads[t], n)
}

proof fn lemma_roots_known(
    store: CommentStoreView,
    remote: Seq<FetchedCommentView>,
    fresh: Seq<FreshThreadView>,
)
    requires
        store.wf(),
        comment_sync::fresh_fits(remote, comment_sync::new_roots_in(store.threads(), remote), fresh),
        fresh_distinct(fresh),
        forall|k: int| 0 <= k < fresh.len() ==> store.thread((#[trigger] fresh[k]).id) is None,
    ensures
        forall|j: int|
            0 <= j < remote.len() ==> !comment_sync::is_new_root(
                comment_sync::roots_imported(
                    store,
                    remote,
                    comment_sync::new_roots_in(store.threads(), remote),
                    fresh,
                ).threads(),
                #[trigger] remote[j],
            ),
{
    let threads = store.threads();
    let roots = comment_sync::new_roots_in(threads, remote);
    let after = comment_sync::roots_imported(store, remote, roots, fresh);
    lemma_new_roots(threads, remote);
    assert forall|j: int| 0 <= j < remote.len() implies !comment_sync::is_new_root(
        after.threads(),
        #[trigger] remote[j],
    ) by {
        if comment_sync::is_new_root(after.threads(), remote[j]) {
            let v = text::i64_value(remote[j].comment.remote_id)->0;
            if comment_sync::is_known(threads, v) {
                let (id, t, n) = lemma_known_thread(store, v);
                assert forall|k: int| 0 <= k < roots.len() implies (#[trigger] fresh[k]).id
                    != id by {
                    assert(store.thread(fresh[k].id) is None);
                }
                lemma_roots_keep_others(store, remote, roots, fresh, id);
                lemma_known_by_lookup(after, id, t, n, v);
            } else {
                assert(comment_sync::is_new_root(threads, remote[j]));
                assert(roots.contains(j));
                let k = choose|k: int| 0 <= k < roots.len() && roots[k] == j;
                lemma_roots_then_lookup(store, remote, roots, fresh, k);
                let t = comment_sync::thread_of_remote(remote, remote[j], fresh[k]);
                assert(t.nodes[0]
                    == comment_sync::node_of_remote(remote[j].comment, None, fresh[k].root));
                lemma_known_by_lookup(after, fresh[k].id, t, 0, v);
            }
        }
    }
}

/// Whether the node at a position of a list is a fetched comment, under the
/// node that carries the comment it replies to.
pub open spec fn stands_under(
    comment: RemoteCommentView,
    nodes: Seq<CommentNodeView>,
    n: int,
    parent: int,
) -> bool {
    &&& comment.parent_remote_id is Some
    &&& text::i64_value(comment.parent_remote_id->0) is Some
    &&& nodes[parent].remote_id == text::i64_value(comment.parent_remote_id->0)
    &&& text::i64_value(comment.remote_id) is Some
    &&& nodes[n] == comment_sync::node_of_remote(
        comment,
        Some(nodes[parent].id),
        NodeStamp { id: nodes[n].id, created_at: nodes[n].created_at },
    )
}

/// Whether the node at a position of a list is a fetched reply, under an
/// earlier node that carries the comment it replies to.
pub open spec fn is_fetched_reply(
    remote: Seq<FetchedCommentView>,
    nodes: Seq<CommentNodeView>,
    n: int,
) -> bool {
    exists|j: int, parent: int|
        0 <= j < remote.len() && 0 <= parent < n && #[trigger] stands_under(
            remote[j].comment,
            nodes,
            n,
            parent,
        )
}

/// Whether a lookup finds what it found before, but for fetched replies at the
/// end of the thread, each under the node that carries the comment it replies
/// to.
pub open spec fn gains_replies(
    remote: Seq<FetchedCommentView>,
    before: Option<CommentThreadView>,
    after: Option<CommentThreadView>,
) -> bool {
    match (before, after) {
        (None, None) => true,
        (Some(a), Some(b)) => {
            &&& b == CommentThreadView { nodes: b.nodes, ..a }
            &&& a.nodes.len() <= b.nodes.len()
            &&& forall|n: int| 0 <= n < a.nodes.len() ==> #[trigger] b.nodes[n] == a.nodes[n]
            &&& forall|n: int|
                a.nodes.len() <= n < b.nodes.len() ==> #[trigger] is_fetched_reply(
                    remote,
                    b.nodes,
                    n,
                )
        },
        _ => false,
    }
}

proof fn lemma_gains_twice(
    first: Seq<FetchedCommentView>,
    remote: Seq<FetchedCommentView>,
    before: Option<CommentThreadView>,
    between: Option<CommentThreadView>,
    after: Option<CommentThreadView>,
)
    requires
        first.len() <= remote.len(),
        first == remote.take(first.len() as int),
        gains_replies(first, before, between),
        gains_replies(remote, between, after),
    ensures
        gains_replies(remote, before, after),
{
    if before is Some {
        let a = before->0;
        let b = between->0;
        let c = after->0;
        assert forall|n: int| 0 <= n < a.nodes.len() implies #[trigger] c.nodes[n]
            == a.nodes[n] by {
            assert(b.nodes[n] == a.nodes[n]);
        }
        assert forall|n: int|
            a.nodes.len() <= n < c.nodes.len() implies #[trigger] is_fetched_reply(
            remote,
            c.nodes,
            n,
        ) by {
            if n < b.nodes.len() {
                assert(c.nodes[n] == b.nodes[n]);
                assert(is_fetched_reply(first, b.nodes, n));
                let (j, parent) = choose|j: int, parent: int|
                    0 <= j < first.len() && 0 <= parent < n && #[trigger] stands_under(
                        first[j].comment,
                        b.nodes,
                        n,
                        parent,
                    );
                assert(first[j] == remote[j]);
                assert(c.nodes[parent] == b.nodes[parent]);
                assert(stands_under(remote[j].comment, c.nodes, n, parent));
            }
        }
    }
}

/// Where a reply is appended, the thread of the comment that it replies to
/// gains it, under that comment's identifier, and every other thread stays as
/// it was.
pub proof fn lemma_reply_then_lookup(
    store: CommentStoreView,
    comment: RemoteCommentView,
    stamp: NodeStamp,
    id: ThreadId,
)
    ensures
        comment_sync::with_reply(store, comment, stamp).thread(id)
            == (match comment_sync::late_parent(
            store.threads(),
            comment,
        ) {
            Some((thread_id, parent)) => if id == thread_id {
                match store.thread(id) {
                    Some(t) => Some(
                        CommentThreadView {
                            nodes: t.nodes.push(comment_sync::node_of_remote(comment, Some(parent), stamp)),
                            ..t
                        },
                    ),
                    None => None,
                }
            } else {
                store.thread(id)
            },
            None => store.thread(id),
        }),
{
    match comment_sync::late_parent(store.threads(), comment) {
        Some((thread_id, parent)) => {
            let node = comment_sync::node_of_remote(comment, Some(parent), stamp);
            store_laws::lemma_change_then_lookup(
                store,
                thread_id,
                |t: CommentThreadView| CommentThreadView { nodes: t.nodes.push(node), ..t },
                id,
            );
        },
        None => {},
    }
}

proof fn lemma_reply_gains(
    store: CommentStoreView,
    remote: Seq<FetchedCommentView>,
    j: int,
    stamp: NodeStamp,
    id: ThreadId,
)
    requires
        store.wf(),
        0 <= j < remote.len(),
    ensures
        gains_replies(
            remote,
            store.thread(id),
            comment_sync::with_reply(store, remote[j].comment, stamp).thread(id),
        ),
{
    let comment = remote[j].comment;
    lemma_reply_then_lookup(store, comment, stamp, id);
    match comment_sync::late_parent(store.threads(), comment) {
        Some((thread_id, parent)) => {
            let parent_id = text::i64_value(comment.parent_remote_id->0)->0;
            let (i, m) = comment_sync::lemma_carrier_thread(store.threads(), parent_id);
            lemma_thread_by_id(store, i);
            if id == thread_id {
                let nodes = comment_sync::with_reply(store, comment, stamp).thread(id)->0.nodes;
                let n = nodes.len() - 1;
                assert(nodes[m] == store.threads()[i].nodes[m]);
                assert(nodes[n] == comment_sync::node_of_remote(comment, Some(parent), stamp));
                assert(NodeStamp { id: nodes[n].id, created_at: nodes[n].created_at } == stamp);
                assert(stands_under(remote[j].comment, nodes, n, m));
                assert(is_fetched_reply(remote, nodes, n));
            }
        },
        None => {},
    }
}

proof fn lemma_reply_keeps_order(
    store: CommentStoreView,
    comment: RemoteCommentView,
    stamp: NodeStamp,
)
    requires
        store.wf(),
    ensures
        comment_sync::with_reply(store, comment, stamp).wf(),
{
    match comment_sync::late_parent(store.threads(), comment) {
        Some((thread_id, parent)) => {
            let node = comment_sync::node_of_remote(comment, Some(parent), stamp);
            store_laws::lemma_change_keeps_order(
                store,
                thread_id,
                |t: CommentThreadView| CommentThreadView { nodes: t.nodes.push(node), ..t },
            );
        },
        None => {},
    }
}

proof fn lemma_added_order(
    store: CommentStoreView,
    remote: Seq<FetchedCommentView>,
    stamps: Seq<NodeStamp>,
)
    requires
        store.wf(),
    ensures
        comment_sync::replies_added(store, remote, stamps).wf(),
    decreases remote.len(),
{
    if remote.len() > 0 {
        let fewer = remote.drop_last();
        lemma_added_order(store, fewer, stamps);
        lemma_reply_keeps_order(
            comment_sync::replies_added(store, fewer, stamps),
            remote.last().comment,
            stamps[remote.len() - 1],
        );
    }
}

proof fn lemma_added(
    store: CommentStoreView,
    remote: Seq<FetchedCommentView>,
    stamps: Seq<NodeStamp>,
    id: ThreadId,
)
    requires
        store.wf(),
    ensures
        gains_replies(
            remote,
            store.thread(id),
            comment_sync::replies_added(store, remote, stamps).thread(id),
        ),
    decreases remote.len(),
{
    if remote.len() > 0 {
        let fewer = remote.drop_last();
        let last = remote.len() - 1;
        let mid = comment_sync::replies_added(store, fewer, stamps);
        lemma_added(store, fewer, stamps, id);
        lemma_added_order(store, fewer, stamps);
        lemma_reply_gains(mid, remote, last, stamps[last], id);
        assert(fewer =~= remote.take(last));
        lemma_gains_twice(
            fewer,
            remote,
            store.thread(id),
            mid.thread(id),
            comment_sync::replies_added(store, remote, stamps).thread(id),
        );
    }
}

proof fn lemma_settled_order(
    store: CommentStoreView,
    remote: Seq<FetchedCommentView>,
    stamps: Seq<NodeStamp>,
    passes: nat,
)
    requires
        store.wf(),
    ensures
        comment_sync::replies_settled(store, remote, stamps, passes).wf(),
    decreases passes,
{
    if passes > 0 {
        let less = (passes - 1) as nat;
        lemma_settled_order(store, remote, stamps, less);
        lemma_added_order(
            comment_sync::replies_settled(store, remote, stamps, less),
            remote,
            stamps,
        );
    }
}

proof fn lemma_settled(
    store: CommentStoreView,
    remote: Seq<FetchedCommentView>,
    stamps: Seq<NodeStamp>,
    passes: nat,
    id: ThreadId,
)
    requires
        store.wf(),
    ensures
        gains_replies(
            remote,
            store.thread(id),
            comment_sync::replies_settled(store, remote, stamps, passes).thread(id),
        ),
    decreases passes,
{
    if passes > 0 {
        let less = (passes - 1) as nat;
        let before = comment_sync::replies_settled(store, remote, stamps, less);
        lemma_settled(store, remote, stamps, less, id);
        lemma_settled_order(store, remote, stamps, less);
        lemma_added(before, remote, stamps, id);
        assert(remote =~= remote.take(remote.len() as int));
        lemma_gains_twice(
            remote,
            remote,
            store.thread(id),
            before.thread(id),
            comment_sync::replies_settled(store, remote, stamps, passes).thread(id),
        );
    }
}

proof fn lemma_gained_known(
    remote: Seq<FetchedCommentView>,
    before: CommentStoreView,
    after: CommentStoreView,
    remote_id: i64,
)
    requires
        before.wf(),
        forall|id: ThreadId|
            gains_replies(remote, before.thread(id), #[trigger] after.thread(id)),
        comment_sync::is_known(before.threads(), remote_id),
    ensures
        comment_sync::is_known(after.threads(), remote_id),
{
    let (id, t, n) = lemma_known_thread(before, remote_id);
    assert(gains_replies(remote, before.thread(id), after.thread(id)));
    let b = after.thread(id)->0;
    assert(b.nodes[n] == t.nodes[n]);
    lemma_known_by_lookup(after, id, b, n, remote_id);
}

proof fn lemma_added_known(
    store: CommentStoreView,
    remote: Seq<FetchedCommentView>,
    stamps: Seq<NodeStamp>,
    remote_id: i64,
)
    requires
        store.wf(),
        comment_sync::is_known(store.threads(), remote_id),
    ensures
        comment_sync::is_known(comment_sync::replies_added(store, remote, stamps).threads(), remote_id),
{
    let after = comment_sync::replies_added(store, remote, stamps);
    assert forall|id: ThreadId| gains_replies(
        remote,
        store.thread(id),
        #[trigger] after.thread(id),
    ) by {
        lemma_added(store, remote, stamps, id);
    }
    lemma_gained_known(remote, store, after, remote_id);
}

proof fn lemma_settled_known(
    store: CommentStoreView,
    remote: Seq<FetchedCommentView>,
    stamps: Seq<NodeStamp>,
    passes: nat,
    remote_id: i64,
)
    requires
        store.wf(),
        comment_sync::is_known(store.threads(), remote_id),
    ensures
        comment_sync::is_known(
            comment_sync::replies_settled(store, remote, stamps, passes).threads(),
            remote_id,
        ),
{
    let after = comment_sync::replies_settled(store, remote, stamps, passes);
    assert forall|id: ThreadId| gains_replies(
        remote,
        store.thread(id),
        #[trigger] after.thread(id),
    ) by {
        lemma_settled(store, remote, stamps, passes, id);
    }
    lemma_gained_known(remote, store, after, remote_id);
}

proof fn lemma_late_is_known(
    store: CommentStoreView,
    remote: Seq<FetchedCommentView>,
    stamps: Seq<NodeStamp>,
    j: int,
)
    requires
        store.wf(),
        0 <= j < remote.len(),
        comment_sync::late_parent(store.threads(), remote[j].comment) is Some,
    ensures
        comment_sync::is_known(
            comment_sync::replies_added(store, remote, stamps).threads(),
            text::i64_value(remote[j].comment.remote_id)->0,
        ),
    decreases remote.len(),
{
    let own = text::i64_value(remote[j].comment.remote_id)->0;
    let fewer = remote.drop_last();
    let mid = comment_sync::replies_added(store, fewer, stamps);
    let last = remote.last().comment;
    let stamp = stamps[remote.len() - 1];
    let after = comment_sync::with_reply(mid, last, stamp);
    lemma_added_order(store, fewer, stamps);
    if j < fewer.len() {
        lemma_late_is_known(store, fewer, stamps, j);
    }
    if comment_sync::is_known(mid.threads(), own) {
        assert forall|id: ThreadId| gains_replies(
            remote,
            mid.thread(id),
            #[trigger] after.thread(id),
        ) by {
            lemma_reply_gains(mid, remote, remote.len() - 1, stamp, id);
        }
        lemma_gained_known(remote, mid, after, own);
    } else {
        let parent = text::i64_value(last.parent_remote_id->0)->0;
        comment_sync::lemma_carrier(store.threads(), parent);
        lemma_added_known(store, fewer, stamps, parent);
        comment_sync::lemma_carrier(mid.threads(), parent);
        let (thread_id, parent_node) = comment_sync::late_parent(mid.threads(), last)->0;
        let (i, _) = comment_sync::lemma_carrier_thread(mid.threads(), parent);
        lemma_thread_by_id(mid, i);
        lemma_reply_then_lookup(mid, last, stamp, thread_id);
        let t = after.thread(thread_id)->0;
        let n = t.nodes.len() - 1;
        assert(t.nodes[n] == comment_sync::node_of_remote(last, Some(parent_node), stamp));
        lemma_known_by_lookup(after, thread_id, t, n, own);
    }
}

/// How many fetched comments have a number that no node carries.
spec fn unknown_in(threads: Seq<CommentThreadView>, remote: Seq<FetchedCommentView>) -> nat
    decreases remote.len(),
{
    if remote.len() == 0 {
        0
    } else {
        unknown_in(threads, remote.drop_last()) + if is_unknown(threads, remote.last()) {
            1nat
        } else {
            0
        }
    }
}

/// Whether a fetched comment has a number that no node carries.
spec fn is_unknown(threads: Seq<CommentThreadView>, fetched: FetchedCommentView) -> bool {
    match text::i64_value(fetched.comment.remote_id) {
        Some(remote_id) => !comment_sync::is_known(threads, remote_id),
        None => false,
    }
}

proof fn lemma_unknown_at_most(threads: Seq<CommentThreadView>, remote: Seq<FetchedCommentView>)
    ensures
        unknown_in(threads, remote) <= remote.len(),
        unknown_in(threads, remote) == 0 ==> forall|j: int|
            0 <= j < remote.len() ==> !is_unknown(threads, #[trigger] remote[j]),
    decreases remote.len(),
{
    if remote.len() > 0 {
        let fewer = remote.drop_last();
        lemma_unknown_at_most(threads, fewer);
        if unknown_in(threads, remote) == 0 {
            assert forall|j: int| 0 <= j < remote.len() implies !is_unknown(
                threads,
                #[trigger] remote[j],
            ) by {
                if j < fewer.len() {
                    assert(!is_unknown(threads, fewer[j]));
                }
            }
        }
    }
}

proof fn lemma_unknown_shrinks(
    before: Seq<CommentThreadView>,
    after: Seq<CommentThreadView>,
    remote: Seq<FetchedCommentView>,
    j: int,
)
    requires
        forall|v: i64| comment_sync::is_known(before, v)
            ==> #[trigger] comment_sync::is_known(after, v),
    ensures
        unknown_in(after, remote) <= unknown_in(before, remote),
        0 <= j < remote.len() && is_unknown(before, remote[j]) && !is_unknown(after, remote[j])
            ==> unknown_in(after, remote) < unknown_in(before, remote),
    decreases remote.len(),
{
    if remote.len() > 0 {
        let fewer = remote.drop_last();
        lemma_unknown_shrinks(before, after, fewer, j);
        if j < fewer.len() {
            assert(0 <= j ==> fewer[j] == remote[j]);
        }
    }
}

proof fn lemma_quiet_pass(
    store: CommentStoreView,
    remote: Seq<FetchedCommentView>,
    stamps: Seq<NodeStamp>,
)
    requires
        !comment_sync::has_late(store.threads(), remote),
    ensures
        comment_sync::replies_added(store, remote, stamps) == store,
        comment_sync::added_in_pass(store, remote, stamps) == 0,
    decreases remote.len(),
{
    if remote.len() > 0 {
        let fewer = remote.drop_last();
        assert forall|j: int| 0 <= j < fewer.len() implies comment_sync::late_parent(
            store.threads(),
            (#[trigger] fewer[j]).comment,
        ) is None by {
            assert(fewer[j] == remote[j]);
        }
        lemma_quiet_pass(store, fewer, stamps);
        assert(remote[remote.len() - 1] == remote.last());
    }
}

proof fn lemma_quiet(
    store: CommentStoreView,
    remote: Seq<FetchedCommentView>,
    stamps: Seq<NodeStamp>,
    passes: nat,
)
    requires
        !comment_sync::has_late(store.threads(), remote),
    ensures
        comment_sync::replies_settled(store, remote, stamps, passes) == store,
        comment_sync::added_in_all(store, remote, stamps, passes) == 0,
    decreases passes,
{
    if passes > 0 {
        lemma_quiet(store, remote, stamps, (passes - 1) as nat);
        lemma_quiet_pass(store, remote, stamps);
    }
}

proof fn lemma_settles(
    store: CommentStoreView,
    remote: Seq<FetchedCommentView>,
    stamps: Seq<NodeStamp>,
    passes: nat,
)
    requires
        store.wf(),
    ensures
        ({
            let threads = comment_sync::replies_settled(store, remote, stamps, passes).threads();
            !comment_sync::has_late(threads, remote) || unknown_in(threads, remote) + passes <= remote.len()
        }),
    decreases passes,
{
    if passes == 0 {
        lemma_unknown_at_most(store.threads(), remote);
    } else {
        let less = (passes - 1) as nat;
        let before = comment_sync::replies_settled(store, remote, stamps, less);
        let after = comment_sync::replies_added(before, remote, stamps);
        lemma_settles(store, remote, stamps, less);
        if comment_sync::has_late(before.threads(), remote) {
            let j = choose|j: int|
                0 <= j < remote.len() && comment_sync::late_parent(
                    before.threads(),
                    (#[trigger] remote[j]).comment,
                ) is Some;
            lemma_settled_order(store, remote, stamps, less);
            lemma_late_is_known(before, remote, stamps, j);
            assert forall|v: i64| comment_sync::is_known(before.threads(), v)
                implies #[trigger] comment_sync::is_known(
                after.threads(),
                v,
            ) by {
                lemma_added_known(before, remote, stamps, v);
            }
            lemma_unknown_shrinks(before.threads(), after.threads(), remote, j);
        } else {
            lemma_quiet_pass(before, remote, stamps);
        }
    }
}

proof fn lemma_all_settled(
    store: CommentStoreView,
    remote: Seq<FetchedCommentView>,
    stamps: Seq<NodeStamp>,
)
    requires
        store.wf(),
    ensures
        !comment_sync::has_late(
            comment_sync::replies_settled(store, remote, stamps, remote.len()).threads(),
            remote,
        ),
{
    let threads = comment_sync::replies_settled(store, remote, stamps, remote.len()).threads();
    lemma_settles(store, remote, stamps, remote.len());
    if comment_sync::has_late(threads, remote) {
        lemma_unknown_at_most(threads, remote);
        let j = choose|j: int|
            0 <= j < remote.len()
                && comment_sync::late_parent(threads, (#[trigger] remote[j]).comment) is Some;
        assert(!is_unknown(threads, remote[j]));
    }
}

/// An import keeps the store in order.
pub proof fn lemma_import_keeps_order(
    store: CommentStoreView,
    remote: Seq<FetchedCommentView>,
    fresh: Seq<FreshThreadView>,
    late: Seq<NodeStamp>,
)
    requires
        store.wf(),
    ensures
        comment_sync::imported(store, remote, fresh, late).wf(),
{
    let roots = comment_sync::new_roots_in(store.threads(), remote);
    lemma_roots_keep_order(store, remote, roots, fresh);
    lemma_settled_order(
        comment_sync::roots_imported(store, remote, roots, fresh),
        remote,
        late,
        remote.len(),
    );
}

/// An import leaves every thread as it was whose identifier is not among the
/// fresh ones, but for the fetched replies that it gains at its end, each under
/// the node that carries the comment it replies to.
pub proof fn lemma_import_keeps_others(
    store: CommentStoreView,
    remote: Seq<FetchedCommentView>,
    fresh: Seq<FreshThreadView>,
    late: Seq<NodeStamp>,
    id: ThreadId,
)
    requires
        store.wf(),
        comment_sync::fresh_fits(remote, comment_sync::new_roots_in(store.threads(), remote), fresh),
        forall|k: int| 0 <= k < fresh.len() ==> (#[trigger] fresh[k]).id != id,
    ensures
        gains_replies(
            remote,
            store.thread(id),
            comment_sync::imported(store, remote, fresh, late).thread(id),
        ),
{
    let roots = comment_sync::new_roots_in(store.threads(), remote);
    lemma_roots_keep_others(store, remote, roots, fresh, id);
    lemma_roots_keep_order(store, remote, roots, fresh);
    lemma_settled(
        comment_sync::roots_imported(store, remote, roots, fresh),
        remote,
        late,
        remote.len(),
        id,
    );
}

/// After an import with distinct fresh identifiers a lookup finds each new
/// root's thread: the root, the replies to it as its children, and then the
/// replies that come further down.
pub proof fn lemma_import_then_lookup(
    store: CommentStoreView,
    remote: Seq<FetchedCommentView>,
    fresh: Seq<FreshThreadView>,
    late: Seq<NodeStamp>,
    k: int,
)
    requires
        store.wf(),
        comment_sync::fresh_fits(remote, comment_sync::new_roots_in(store.threads(), remote), fresh),
        fresh_distinct(fresh),
        0 <= k < fresh.len(),
    ensures
        gains_replies(
            remote,
            Some(
                comment_sync::thread_of_remote(
                    remote,
                    remote[comment_sync::new_roots_in(store.threads(), remote)[k]],
                    fresh[k],
                ),
            ),
            comment_sync::imported(store, remote, fresh, late).thread(fresh[k].id),
        ),
{
    let roots = comment_sync::new_roots_in(store.threads(), remote);
    lemma_roots_then_lookup(store, remote, roots, fresh, k);
    lemma_roots_keep_order(store, remote, roots, fresh);
    lemma_settled(
        comment_sync::roots_imported(store, remote, roots, fresh),
        remote,
        late,
        remote.len(),
        fresh[k].id,
    );
}

/// No fetched reply is lost: after an import each reply with a number stands in
/// the store if the comment that it replies to does.
pub proof fn lemma_import_brings_replies(
    store: CommentStoreView,
    remote: Seq<FetchedCommentView>,
    fresh: Seq<FreshThreadView>,
    late: Seq<NodeStamp>,
    j: int,
    parent: i64,
    own: i64,
)
    requires
        store.wf(),
        0 <= j < remote.len(),
        remote[j].comment.parent_remote_id is Some,
        text::i64_value(remote[j].comment.parent_remote_id->0) == Some(parent),
        text::i64_value(remote[j].comment.remote_id) == Some(own),
        comment_sync::is_known(comment_sync::imported(store, remote, fresh, late).threads(), parent),
    ensures
        comment_sync::is_known(comment_sync::imported(store, remote, fresh, late).threads(), own),
{
    let roots = comment_sync::new_roots_in(store.threads(), remote);
    let after = comment_sync::imported(store, remote, fresh, late);
    lemma_roots_keep_order(store, remote, roots, fresh);
    lemma_all_settled(comment_sync::roots_imported(store, remote, roots, fresh), remote, late);
    comment_sync::lemma_carrier(after.threads(), parent);
    assert(comment_sync::late_parent(after.threads(), remote[j].comment) is None);
}

/// Importing the same remote comments a second time adds nothing: every root
/// is known by then, and so is every reply to a known comment. The store stays
/// as it is, and there is no event.
pub proof fn lemma_second_import_adds_nothing(
    store: CommentStoreView,
    remote: Seq<FetchedCommentView>,
    fresh: Seq<FreshThreadView>,
    late: Seq<NodeStamp>,
    fresh_again: Seq<FreshThreadView>,
    late_again: Seq<NodeStamp>,
)
    requires
        store.wf(),
        comment_sync::fresh_fits(remote, comment_sync::new_roots_in(store.threads(), remote), fresh),
        fresh_distinct(fresh),
        forall|k: int| 0 <= k < fresh.len() ==> store.thread((#[trigger] fresh[k]).id) is None,
    ensures
        ({
            let after = comment_sync::imported(store, remote, fresh, late);
            &&& comment_sync::new_roots_in(after.threads(), remote) == Seq::<int>::empty()
            &&& !comment_sync::has_late(after.threads(), remote)
            &&& comment_sync::imported(after, remote, fresh_again, late_again) == after
            &&& comment_sync::merge_events(after, remote, fresh_again, late_again).len() == 0
        }),
{
    let roots = comment_sync::new_roots_in(store.threads(), remote);
    let mid = comment_sync::roots_imported(store, remote, roots, fresh);
    let after = comment_sync::imported(store, remote, fresh, late);
    lemma_roots_keep_order(store, remote, roots, fresh);
    lemma_roots_known(store, remote, fresh);
    lemma_all_settled(mid, remote, late);
    assert forall|j: int| 0 <= j < remote.len() implies !comment_sync::is_new_root(
        after.threads(),
        #[trigger] remote[j],
    ) by {
        if comment_sync::is_new_root(after.threads(), remote[j]) {
            assert(!comment_sync::is_new_root(mid.threads(), remote[j]));
            let v = text::i64_value(remote[j].comment.remote_id)->0;
            lemma_settled_known(mid, remote, late, remote.len(), v);
        }
    }
    lemma_new_roots(after.threads(), remote);
    lemma_quiet(after, remote, late_again, remote.len());
}

/// Whether an outgoing comment is that of a local-only node of a list.
pub open spec fn is_of_local_node(
    t: CommentThreadView,
    nodes: Seq<CommentNodeView>,
    comment: QueuedCommentView,
) -> bool {
    exists|n: int|
        0 <= n < nodes.len() && comment_sync::is_local_only(#[trigger] nodes[n]) && comment
            == comment_sync::outgoing_for(
            t,
            nodes[n],
        )
}

proof fn lemma_outgoing_nodes(t: CommentThreadView, nodes: Seq<CommentNodeView>)
    ensures
        forall|k: int|
            0 <= k < comment_sync::outgoing_nodes(t, nodes).len() ==> is_of_local_node(
                t,
                nodes,
                #[trigger] comment_sync::outgoing_nodes(t, nodes)[k],
            ),
        forall|n: int|
            0 <= n < nodes.len() && comment_sync::is_local_only(#[trigger] nodes[n])
                ==> comment_sync::outgoing_nodes(
                t,
                nodes,
            ).contains(comment_sync::outgoing_for(t, nodes[n])),
    decreases nodes.len(),
{
    let out = comment_sync::outgoing_nodes(t, nodes);
    if nodes.len() > 0 {
        let fewer = nodes.drop_last();
        let before = comment_sync::outgoing_nodes(t, fewer);
        lemma_outgoing_nodes(t, fewer);
        assert forall|k: int| 0 <= k < out.len() implies is_of_local_node(
            t,
            nodes,
            #[trigger] out[k],
        ) by {
            if k < before.len() {
                assert(out[k] == before[k]);
                assert(is_of_local_node(t, fewer, before[k]));
                let n = choose|n: int|
                    0 <= n < fewer.len() && comment_sync::is_local_only(#[trigger] fewer[n])
                        && before[k]
                        == comment_sync::outgoing_for(t, fewer[n]);
                assert(nodes[n] == fewer[n]);
            } else {
                assert(nodes[nodes.len() - 1] == nodes.last());
            }
        }
        assert forall|n: int|
            0 <= n < nodes.len() && comment_sync::is_local_only(#[trigger] nodes[n])
                implies out.contains(
            comment_sync::outgoing_for(t, nodes[n]),
        ) by {
            if n < fewer.len() {
                assert(comment_sync::is_local_only(fewer[n]));
                let k = choose|k: int|
                    0 <= k < before.len() && before[k] == comment_sync::outgoing_for(t, fewer[n]);
                assert(out[k] == comment_sync::outgoing_for(t, nodes[n]));
            } else {
                assert(out[out.len() - 1] == comment_sync::outgoing_for(t, nodes[n]));
            }
        }
    }
}

/// Whether an outgoing comment is that of a local-only node of some thread.
pub open spec fn is_of_local_thread(
    threads: Seq<CommentThreadView>,
    comment: QueuedCommentView,
) -> bool {
    exists|i: int|
        0 <= i < threads.len() && is_of_local_node(
            #[trigger] threads[i],
            threads[i].nodes,
            comment,
        )
}

/// What is pushed is the user's own and not on the remote yet, and all of that
/// is pushed.
pub proof fn lemma_pushed_is_local_only(threads: Seq<CommentThreadView>)
    ensures
        forall|k: int|
            0 <= k < comment_sync::outgoing_of(threads).len() ==> is_of_local_thread(
                threads,
                #[trigger] comment_sync::outgoing_of(threads)[k],
            ),
        forall|i: int, n: int|
            0 <= i < threads.len() && 0 <= n < threads[i].nodes.len()
                && comment_sync::is_local_only(
                #[trigger] threads[i].nodes[n],
            ) ==> comment_sync::outgoing_of(threads).contains(
                comment_sync::outgoing_for(threads[i], threads[i].nodes[n]),
            ),
    decreases threads.len(),
{
    let out = comment_sync::outgoing_of(threads);
    if threads.len() > 0 {
        let fewer = threads.drop_last();
        let last = threads.last();
        let at = threads.len() - 1;
        let before = comment_sync::outgoing_of(fewer);
        let own = comment_sync::outgoing_nodes(last, last.nodes);
        lemma_pushed_is_local_only(fewer);
        lemma_outgoing_nodes(last, last.nodes);
        assert forall|k: int| 0 <= k < out.len() implies is_of_local_thread(
            threads,
            #[trigger] out[k],
        ) by {
            if k < before.len() {
                assert(out[k] == before[k]);
                assert(is_of_local_thread(fewer, before[k]));
                let i = choose|i: int|
                    0 <= i < fewer.len() && is_of_local_node(
                        #[trigger] fewer[i],
                        fewer[i].nodes,
                        before[k],
                    );
                assert(threads[i] == fewer[i]);
            } else {
                assert(out[k] == own[k - before.len()]);
                assert(threads[at] == last);
            }
        }
        assert forall|i: int, n: int|
            0 <= i < threads.len() && 0 <= n < threads[i].nodes.len()
                && comment_sync::is_local_only(
                #[trigger] threads[i].nodes[n],
            ) implies out.contains(comment_sync::outgoing_for(threads[i], threads[i].nodes[n])) by {
            let wanted = comment_sync::outgoing_for(threads[i], threads[i].nodes[n]);
            if i < fewer.len() {
                assert(comment_sync::is_local_only(fewer[i].nodes[n]));
                let k = choose|k: int| 0 <= k < before.len() && before[k] == wanted;
                assert(out[k] == wanted);
            } else {
                assert(comment_sync::is_local_only(last.nodes[n]));
                let k = choose|k: int| 0 <= k < own.len() && own[k] == wanted;
                assert(out[before.len() + k] == wanted);
            }
        }
    }
}

/// Nothing of a thread that came from the remote is pushed back to it.
pub proof fn lemma_imported_is_not_pushed(
    remote: Seq<FetchedCommentView>,
    root: FetchedCommentView,
    fresh: FreshThreadView,
)
    ensures
        ({
            let t = comment_sync::thread_of_remote(remote, root, fresh);
            comment_sync::outgoing_nodes(t, t.nodes) == Seq::<QueuedCommentView>::empty()
        }),
{
    let t = comment_sync::thread_of_remote(remote, root, fresh);
    lemma_outgoing_nodes(t, t.nodes);
    assert forall|n: int| 0 <= n < t.nodes.len() implies !comment_sync::is_local_only(
        #[trigger] t.nodes[n],
    ) by {}
    let out = comment_sync::outgoing_nodes(t, t.nodes);
    if out.len() > 0 {
        assert(out[0] == out[0]);
    }
}


/// The store after the numbers that the remote gave to the comments of a queue
/// were recorded, in order; a comment without a number was not pushed, or has
/// no number there.
pub open spec fn all_recorded(
    store: CommentStoreView,
    queue: Seq<QueuedCommentView>,
    numbers: Seq<Option<i64>>,
) -> CommentStoreView
    decreases queue.len(),
{
    if queue.len() == 0 {
        store
    } else {
        comment_sync::recorded(
            all_recorded(store, queue.drop_last(), numbers),
            queue.last(),
            numbers[queue.len() - 1],
        )
    }
}

proof fn lemma_numbered_then_lookup(
    store: CommentStoreView,
    thread_id: ThreadId,
    node_id: CommentId,
    remote_id: i64,
    id: ThreadId,
)
    ensures
        store.numbered(thread_id, node_id, remote_id).thread(id) == (if id == thread_id {
            match store.thread(id) {
                Some(t) => Some(
                    comment_store::with_node(
                        t,
                        node_id,
                        |n: CommentNodeView| CommentNodeView { remote_id: Some(remote_id), ..n },
                    ),
                ),
                None => None,
            }
        } else {
            store.thread(id)
        }),
        store.wf() ==> store.numbered(thread_id, node_id, remote_id).wf(),
{
    let change = |t: CommentThreadView|
        comment_store::with_node(
            t,
            node_id,
            |n: CommentNodeView| CommentNodeView { remote_id: Some(remote_id), ..n },
        );
    store_laws::lemma_change_then_lookup(store, thread_id, change, id);
    if store.wf() {
        store_laws::lemma_change_keeps_order(store, thread_id, change);
    }
}

/// After a push was recorded the pushed node carries its number, and nothing
/// else has changed: a later fetch that brings the comment back finds it known.
pub proof fn lemma_push_is_recorded(
    store: CommentStoreView,
    item: QueuedCommentView,
    remote_id: i64,
    id: ThreadId,
)
    requires
        store.has_node(item.thread_id, item.comment_id),
    ensures
        ({
            let after = comment_sync::recorded(store, item, Some(remote_id));
            let before = store.thread(item.thread_id)->0;
            let n = thread::node_index(before.nodes, item.comment_id)->0;
            &&& after.thread(item.thread_id) == Some(
                CommentThreadView {
                    nodes: before.nodes.update(
                        n,
                        CommentNodeView { remote_id: Some(remote_id), ..before.nodes[n] },
                    ),
                    ..before
                },
            )
            &&& id != item.thread_id ==> after.thread(id) == store.thread(id)
            &&& comment_sync::is_known(after.threads(), remote_id)
            &&& store.wf() ==> after.wf()
        }),
{
    let after = comment_sync::recorded(store, item, Some(remote_id));
    let before = store.thread(item.thread_id)->0;
    let n = thread::node_index(before.nodes, item.comment_id)->0;
    lemma_numbered_then_lookup(store, item.thread_id, item.comment_id, remote_id, item.thread_id);
    lemma_numbered_then_lookup(store, item.thread_id, item.comment_id, remote_id, id);
    thread::lemma_node_index(before.nodes, item.comment_id);
    let t = after.thread(item.thread_id)->0;
    assert(t.nodes[n].remote_id == Some(remote_id));
    lemma_known_by_lookup(after, item.thread_id, t, n, remote_id);
}

/// Whether a queue has a comment with a number for a node of a thread.
pub open spec fn has_number(
    queue: Seq<QueuedCommentView>,
    numbers: Seq<Option<i64>>,
    thread_id: ThreadId,
    comment_id: CommentId,
) -> bool {
    exists|j: int|
        0 <= j < queue.len() && (#[trigger] queue[j]).thread_id == thread_id && queue[j].comment_id
            == comment_id && numbers[j] is Some
}

/// Whether a thread is another with the numbers of a queue recorded.
spec fn is_recorded_of(
    before: CommentThreadView,
    after: CommentThreadView,
    id: ThreadId,
    queue: Seq<QueuedCommentView>,
    numbers: Seq<Option<i64>>,
) -> bool {
    &&& after.nodes.len() == before.nodes.len()
    &&& forall|n: int|
        0 <= n < after.nodes.len() ==> {
            &&& (#[trigger] after.nodes[n]).id == before.nodes[n].id
            &&& after.nodes[n].author == before.nodes[n].author
            &&& before.nodes[n].remote_id is Some ==> after.nodes[n].remote_id is Some
            &&& has_number(queue, numbers, id, before.nodes[n].id)
                ==> after.nodes[n].remote_id is Some
        }
}

proof fn lemma_all_recorded(
    store: CommentStoreView,
    queue: Seq<QueuedCommentView>,
    numbers: Seq<Option<i64>>,
    id: ThreadId,
)
    requires
        store.thread(id) matches Some(t) ==> tree::node_ids_distinct(t.nodes),
    ensures
        match (store.thread(id), all_recorded(store, queue, numbers).thread(id)) {
            (None, None) => true,
            (Some(a), Some(b)) => is_recorded_of(a, b, id, queue, numbers),
            _ => false,
        },
        store.wf() ==> all_recorded(store, queue, numbers).wf(),
    decreases queue.len(),
{
    if queue.len() > 0 {
        let fewer = queue.drop_last();
        let item = queue.last();
        let number = numbers[queue.len() - 1];
        let mid = all_recorded(store, fewer, numbers);
        let after = comment_sync::recorded(mid, item, number);
        lemma_all_recorded(store, fewer, numbers, id);
        if number is Some {
            lemma_numbered_then_lookup(mid, item.thread_id, item.comment_id, number->0, id);
        }
        if store.thread(id) is Some {
            let a = store.thread(id)->0;
            let b = mid.thread(id)->0;
            let c = after.thread(id)->0;
            thread::lemma_node_index(b.nodes, item.comment_id);
            assert forall|n: int| 0 <= n < c.nodes.len() implies {
                &&& (#[trigger] c.nodes[n]).id == a.nodes[n].id
                &&& c.nodes[n].author == a.nodes[n].author
                &&& a.nodes[n].remote_id is Some ==> c.nodes[n].remote_id is Some
                &&& has_number(queue, numbers, id, a.nodes[n].id) ==> c.nodes[n].remote_id is Some
            } by {
                assert(b.nodes[n].id == a.nodes[n].id);
                if has_number(queue, numbers, id, a.nodes[n].id) {
                    let j = choose|j: int|
                        0 <= j < queue.len() && (#[trigger] queue[j]).thread_id == id
                            && queue[j].comment_id == a.nodes[n].id && numbers[j] is Some;
                    if j < fewer.len() {
                        assert(fewer[j].thread_id == id);
                        assert(has_number(fewer, numbers, id, a.nodes[n].id));
                    } else {
                        assert(queue[j] == item);
                        let i = thread::node_index(b.nodes, item.comment_id)->0;
                        assert(b.nodes[i].id == a.nodes[i].id);
                    }
                }
            }
        }
    }
}

/// Whether a lookup finds a thread with a node.
pub open spec fn holds(store: CommentStoreView, id: ThreadId, node: CommentNodeView) -> bool {
    match store.thread(id) {
        Some(t) => t.nodes.contains(node),
        None => false,
    }
}

proof fn lemma_roots_add_no_local(
    store: CommentStoreView,
    remote: Seq<FetchedCommentView>,
    roots: Seq<int>,
    fresh: Seq<FreshThreadView>,
    id: ThreadId,
    node: CommentNodeView,
)
    requires
        comment_sync::is_local_only(node),
        holds(comment_sync::roots_imported(store, remote, roots, fresh), id, node),
    ensures
        holds(store, id, node),
    decreases roots.len(),
{
    if roots.len() > 0 {
        let fewer = roots.drop_last();
        let mid = comment_sync::roots_imported(store, remote, fewer, fresh);
        let t = comment_sync::thread_of_remote(remote, remote[roots.last()], fresh[roots.len() - 1]);
        store_laws::lemma_upsert_then_lookup(mid, t, id);
        if id == t.id {
            let n = choose|n: int| 0 <= n < t.nodes.len() && t.nodes[n] == node;
            assert(t.nodes[n].author is Remote);
        }
        lemma_roots_add_no_local(store, remote, fewer, fresh, id, node);
    }
}

/// An import adds no local-only comment: whatever it leaves to be pushed was
/// there before.
pub proof fn lemma_import_adds_no_local(
    store: CommentStoreView,
    remote: Seq<FetchedCommentView>,
    fresh: Seq<FreshThreadView>,
    late: Seq<NodeStamp>,
    id: ThreadId,
    node: CommentNodeView,
)
    requires
        store.wf(),
        comment_sync::is_local_only(node),
        holds(comment_sync::imported(store, remote, fresh, late), id, node),
    ensures
        holds(store, id, node),
{
    let roots = comment_sync::new_roots_in(store.threads(), remote);
    let mid = comment_sync::roots_imported(store, remote, roots, fresh);
    lemma_roots_keep_order(store, remote, roots, fresh);
    lemma_settled(mid, remote, late, remote.len(), id);
    let a = mid.thread(id)->0;
    let b = comment_sync::imported(store, remote, fresh, late).thread(id)->0;
    let n = choose|n: int| 0 <= n < b.nodes.len() && b.nodes[n] == node;
    if n >= a.nodes.len() {
        assert(is_fetched_reply(remote, b.nodes, n));
    }
    assert(b.nodes[n] == a.nodes[n]);
    lemma_roots_add_no_local(store, remote, roots, fresh, id, node);
}

/// Whether no thread of a list has two nodes with one identifier.
pub open spec fn node_ids_distinct_in(threads: Seq<CommentThreadView>) -> bool {
    forall|i: int|
        0 <= i < threads.len() ==> tree::node_ids_distinct((#[trigger] threads[i]).nodes)
}

proof fn lemma_queued_later(
    store: CommentStoreView,
    queue: Seq<QueuedCommentView>,
    numbers: Seq<Option<i64>>,
    remote: Seq<FetchedCommentView>,
    fresh: Seq<FreshThreadView>,
    late: Seq<NodeStamp>,
    k: int,
) -> (r: (CommentThreadView, int))
    requires
        store.wf(),
        node_ids_distinct_in(store.threads()),
        0 <= k < comment_sync::outgoing_of(
            comment_sync::imported(all_recorded(store, queue, numbers), remote, fresh, late).threads(),
        ).len(),
    ensures
        ({
            let item = comment_sync::outgoing_of(
                comment_sync::imported(all_recorded(store, queue, numbers), remote, fresh, late).threads(),
            )[k];
            &&& !has_number(queue, numbers, item.thread_id, item.comment_id)
            &&& store.thread(item.thread_id) == Some(r.0)
            &&& 0 <= r.1 < r.0.nodes.len()
            &&& r.0.nodes[r.1].id == item.comment_id
            &&& comment_sync::is_local_only(r.0.nodes[r.1])
        }),
{
    let after = all_recorded(store, queue, numbers);
    let later = comment_sync::imported(after, remote, fresh, late);
    let threads = later.threads();
    let item = comment_sync::outgoing_of(threads)[k];
    lemma_pushed_is_local_only(threads);
    assert(is_of_local_thread(threads, item));
    let i = choose|i: int|
        0 <= i < threads.len() && is_of_local_node(#[trigger] threads[i], threads[i].nodes, item);
    let nodes = threads[i].nodes;
    let n = choose|n: int|
        0 <= n < nodes.len() && comment_sync::is_local_only(#[trigger] nodes[n]) && item
            == comment_sync::outgoing_for(
            threads[i],
            nodes[n],
        );
    let id = item.thread_id;
    if store.thread(id) is Some {
        store_laws::lemma_thread_is_first(store, id);
        comment_store::lemma_thread_index(store.threads(), id);
        let s = comment_store::thread_index(store.threads(), id)->0;
        assert(tree::node_ids_distinct(store.threads()[s].nodes));
    }
    lemma_all_recorded(store, queue, numbers, id);
    lemma_import_keeps_order(after, remote, fresh, late);
    lemma_thread_by_id(later, i);
    assert(holds(later, id, nodes[n]));
    lemma_import_adds_no_local(after, remote, fresh, late, id, nodes[n]);
    let a = store.thread(id)->0;
    let b = after.thread(id)->0;
    let m = choose|m: int| 0 <= m < b.nodes.len() && b.nodes[m] == nodes[n];
    assert(b.nodes[m].id == a.nodes[m].id);
    (a, m)
}

/// What was pushed and has a number on the remote is not pushed again: a later
/// sync, whatever it fetches, queues no comment for the same node.
pub proof fn lemma_recorded_is_not_pushed_again(
    store: CommentStoreView,
    queue: Seq<QueuedCommentView>,
    numbers: Seq<Option<i64>>,
    remote: Seq<FetchedCommentView>,
    fresh: Seq<FreshThreadView>,
    late: Seq<NodeStamp>,
)
    requires
        store.wf(),
        node_ids_distinct_in(store.threads()),
    ensures
        ({
            let again = comment_sync::outgoing_of(
                comment_sync::imported(all_recorded(store, queue, numbers), remote, fresh, late).threads(),
            );
            forall|k: int|
                0 <= k < again.len() ==> !has_number(
                    queue,
                    numbers,
                    (#[trigger] again[k]).thread_id,
                    again[k].comment_id,
                )
        }),
{
    let again = comment_sync::outgoing_of(
        comment_sync::imported(all_recorded(store, queue, numbers), remote, fresh, late).threads(),
    );
    assert forall|k: int| 0 <= k < again.len() implies !has_number(
        queue,
        numbers,
        (#[trigger] again[k]).thread_id,
        again[k].comment_id,
    ) by {
        let _ = lemma_queued_later(store, queue, numbers, remote, fresh, late, k);
    }
}

/// When every queued comment was pushed and got a number, a later sync pushes
/// nothing, whatever it fetches.
pub proof fn lemma_second_sync_pushes_nothing(
    store: CommentStoreView,
    numbers: Seq<Option<i64>>,
    remote: Seq<FetchedCommentView>,
    fresh: Seq<FreshThreadView>,
    late: Seq<NodeStamp>,
)
    requires
        store.wf(),
        node_ids_distinct_in(store.threads()),
        numbers.len() == comment_sync::outgoing_of(store.threads()).len(),
        forall|j: int| 0 <= j < numbers.len() ==> (#[trigger] numbers[j]) is Some,
    ensures
        comment_sync::outgoing_of(
            comment_sync::imported(
                all_recorded(store, comment_sync::outgoing_of(store.threads()), numbers),
                remote,
                fresh,
                late,
            ).threads(),
        ) == Seq::<QueuedCommentView>::empty(),
{
    let threads = store.threads();
    let queue = comment_sync::outgoing_of(threads);
    let again = comment_sync::outgoing_of(
        comment_sync::imported(all_recorded(store, queue, numbers), remote, fresh, late).threads(),
    );
    if again.len() > 0 {
        let (a, m) = lemma_queued_later(store, queue, numbers, remote, fresh, late, 0);
        let id = again[0].thread_id;
        store_laws::lemma_thread_is_first(store, id);
        comment_store::lemma_thread_index(threads, id);
        let s = comment_store::thread_index(threads, id)->0;
        lemma_pushed_is_local_only(threads);
        assert(comment_sync::is_local_only(threads[s].nodes[m]));
        let j = choose|j: int|
            0 <= j < queue.len() && queue[j]
                == comment_sync::outgoing_for(threads[s], threads[s].nodes[m]);
        assert(numbers[j] is Some);
        assert(queue[j].thread_id == id);
        assert(has_number(queue, numbers, id, again[0].comment_id));
    }
}

} // verus!
