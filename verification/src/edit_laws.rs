//! What the user's actions do: which comment, state or card they change, what
//! is announced, and which rendered bodies are kept.

use vstd::prelude::*;
#[allow(unused_imports)]
use crate::comment;
#[allow(unused_imports)]
use crate::comment::{
    CommentAuthorView, CommentKind, CommentNodeView, CommentStatus, NodeStamp,
};
#[allow(unused_imports)]
use crate::comment_card;
#[allow(unused_imports)]
use crate::comment_card::{CachedMarkdown, CommentCardView, ReplyTarget, SubmitOutcome};
#[allow(unused_imports)]
use crate::comment_store::{CommentStoreEvent, CommentStoreView, WorkspaceId};
#[allow(unused_imports)]
use crate::ids::CommentId;
#[allow(unused_imports)]
use crate::registry;
#[allow(unused_imports)]
use crate::store_laws;
#[allow(unused_imports)]
use crate::text;
#[allow(unused_imports)]
use crate::thread;
#[allow(unused_imports)]
use crate::thread::CommentThreadView;

verus! {

/// A kind is cycled from a comment to a question, on to a task and back to a
/// comment; a resolved thread is reopened, and an open one resolved.
pub proof fn lemma_cycles_in_order(status: CommentStatus)
    ensures
        comment_card::next_kind(CommentKind::Comment) == CommentKind::Question,
        comment_card::next_kind(CommentKind::Question) == CommentKind::Task,
        comment_card::next_kind(CommentKind::Task) == CommentKind::Comment,
        comment_card::other_status(status) == CommentStatus::Resolved <==> status
            == CommentStatus::Open,
{
}

/// A change is announced exactly when something changed.
pub proof fn lemma_change_is_announced(changed: bool)
    ensures
        comment_card::event_if(changed) is Some <==> changed,
        changed ==> comment_card::event_if(changed) == Some(CommentStoreEvent::Changed),
{
}

/// What submitting announces, and what it leaves alone: the workspace, and all
/// of the card but its input, which closes. An input of whitespace is ignored;
/// any other is taken, and the change is announced exactly when the thread is
/// there.
pub proof fn lemma_submit_is_announced(
    card: CommentCardView,
    store: CommentStoreView,
    input: Seq<char>,
    parent: Option<CommentId>,
    stamp: NodeStamp,
)
    ensures
        ({
            let (card_after, after, outcome) = comment_card::submitted(
                card,
                store,
                input,
                parent,
                stamp,
            );
            &&& outcome == SubmitOutcome::Ignored <==> text::trimmed(input) == Seq::<char>::empty()
            &&& outcome == SubmitOutcome::Ignored ==> card_after == card && after == store
            &&& outcome matches SubmitOutcome::Submitted(event) ==> {
                &&& event is Some <==> store.thread(card.thread_id) is Some
                &&& event is Some ==> event == Some(CommentStoreEvent::Changed)
                &&& card_after.reply_target == ReplyTarget::Closed
            }
            &&& card_after.thread_id == card.thread_id
            &&& card_after.anchored == card.anchored
            &&& card_after.force_expanded == card.force_expanded
            &&& card_after.subtree_collapsed == card.subtree_collapsed
            &&& after.workspace_id == store.workspace_id
        }),
{
    if text::trimmed(input).len() == 0 {
        assert(text::trimmed(input) =~= Seq::<char>::empty());
    }
}

/// What the user submits is found again: the thread has one comment more, it
/// is the user's, it holds the input without the whitespace around it, it
/// replies to what it was submitted under, and it is not on the remote.
pub proof fn lemma_submitted_words_are_kept(
    card: CommentCardView,
    store: CommentStoreView,
    input: Seq<char>,
    parent: Option<CommentId>,
    stamp: NodeStamp,
    thread: CommentThreadView,
)
    requires
        store.thread(card.thread_id) == Some(thread),
        text::trimmed(input) != Seq::<char>::empty(),
    ensures
        ({
            let after = comment_card::submitted(card, store, input, parent, stamp).1.thread(
                card.thread_id,
            )->0;
            let node = after.nodes.last();
            &&& comment_card::submitted(card, store, input, parent, stamp).1.thread(
                card.thread_id,
            ) is Some
            &&& after.nodes.len() == thread.nodes.len() + 1
            &&& after.nodes.drop_last() == thread.nodes
            &&& node.body == text::trimmed(input)
            &&& node.author is User
            &&& node.kind == CommentKind::Comment
            &&& node.parent_id == parent
            &&& node.id == stamp.id
            &&& node.created_at == stamp.created_at
            &&& node.remote_id is None
            &&& after.status == thread.status && after.collapsed == thread.collapsed
            &&& after.kind == thread.kind && after.anchor == thread.anchor
            &&& after.file == thread.file && after.change_id == thread.change_id
        }),
{
    if text::trimmed(input).len() == 0 {
        assert(text::trimmed(input) =~= Seq::<char>::empty());
    }
    comment_card::lemma_submitted_comment_is_last(
        card,
        store,
        input,
        parent,
        stamp,
        card.thread_id,
    );
    let after = comment_card::submitted(card, store, input, parent, stamp).1.thread(
        card.thread_id,
    )->0;
    assert(after.nodes.drop_last() =~= thread.nodes);
}

/// Whether a comment with an identifier is in a list.
pub open spec fn has_comment(nodes: Seq<CommentNodeView>, id: CommentId) -> bool {
    exists|i: int| 0 <= i < nodes.len() && (#[trigger] nodes[i]).id == id
}

/// An eviction keeps every rendered body whose comment is still there, as it
/// is and in order, and no other.
pub proof fn lemma_evicted_are_those_gone<M>(
    cache: Seq<CachedMarkdown<M>>,
    nodes: Seq<CommentNodeView>,
)
    ensures
        comment_card::live_entries(cache, nodes) == cache.filter(
            |entry: CachedMarkdown<M>| has_comment(nodes, entry.node_id),
        ),
    decreases cache.len(),
{
    reveal(Seq::filter);
    if cache.len() > 0 {
        lemma_evicted_are_those_gone(cache.drop_last(), nodes);
        let id = cache.last().node_id;
        thread::lemma_node_index(nodes, id);
        match thread::node_index(nodes, id) {
            Some(i) => {
                assert(nodes[i].id == id);
            },
            None => {},
        }
    }
}

/// A body has to be rendered exactly when no entry of the comment holds it: with
/// one entry for the comment, when that one was made of another text, and with
/// none, always.
pub proof fn lemma_rendered_when_changed<M>(
    cache: Seq<CachedMarkdown<M>>,
    node: CommentNodeView,
    k: int,
)
    requires
        0 <= k < cache.len(),
        cache[k].node_id == node.id,
        forall|i: int| 0 <= i < cache.len() && i != k ==> (#[trigger] cache[i]).node_id != node.id,
    ensures
        comment_card::needs_rebuild(cache, node) <==> cache[k].body@ != node.body,
{
    lemma_cached_place(cache, node.id);
}

/// A comment without an entry has to be rendered.
pub proof fn lemma_rendered_when_new<M>(cache: Seq<CachedMarkdown<M>>, node: CommentNodeView)
    requires
        forall|i: int| 0 <= i < cache.len() ==> (#[trigger] cache[i]).node_id != node.id,
    ensures
        comment_card::needs_rebuild(cache, node),
{
    lemma_cached_place(cache, node.id);
}

/// What a comment's body was rendered to is kept with the comment's own text;
/// the entries of the other comments are all still there, as they were.
pub proof fn lemma_rendered_is_kept<M>(
    before: Seq<CachedMarkdown<M>>,
    after: Seq<CachedMarkdown<M>>,
    node: CommentNodeView,
    markdown: M,
)
    requires
        comment_card::keeps_rendered(before, after, node, markdown),
    ensures
        exists|k: int|
            0 <= k < after.len() && (#[trigger] after[k]).node_id == node.id && after[k].body@
                == node.body && after[k].markdown == markdown,
        forall|k: int|
            0 <= k < before.len() && (#[trigger] before[k]).node_id != node.id ==> k < after.len()
                && after[k] == before[k],
        after.len() == before.len() + (if exists|k: int|
            0 <= k < before.len() && (#[trigger] before[k]).node_id == node.id {
            0int
        } else {
            1
        }),
{
    lemma_cached_place(before, node.id);
    match comment_card::cached_index(before, node.id) {
        Some(i) => {
            assert(before[i].node_id == node.id);
            assert(after[i].markdown == markdown);
        },
        None => {
            assert(after[after.len() - 1].markdown == markdown);
        },
    }
}

proof fn lemma_cached_place<M>(cache: Seq<CachedMarkdown<M>>, id: CommentId)
    ensures
        match comment_card::cached_index(cache, id) {
            Some(i) => 0 <= i < cache.len() && cache[i].node_id == id,
            None => forall|k: int| 0 <= k < cache.len() ==> (#[trigger] cache[k]).node_id != id,
        },
    decreases cache.len(),
{
    if cache.len() > 0 {
        lemma_cached_place(cache.drop_last(), id);
        assert forall|k: int| 0 <= k < cache.len() - 1 implies #[trigger] cache[k]
            == cache.drop_last()[k] by {}
    }
}

/// A workspace's handle stays the same once it was made, and every other
/// workspace's handle is left alone.
pub proof fn lemma_handle_is_kept<H, F: FnOnce(WorkspaceId) -> H>(
    before: Map<i64, H>,
    after: Map<i64, H>,
    id: WorkspaceId,
    create: F,
    handle: H,
    other: i64,
)
    requires
        registry::keeps_handle(before, after, id, create, handle),
    ensures
        after.contains_key(id.0) && after[id.0] == handle,
        before.contains_key(id.0) ==> handle == before[id.0],
        !before.contains_key(id.0) ==> create.ensures((id,), handle),
        other != id.0 ==> (after.contains_key(other) <==> before.contains_key(other)),
        other != id.0 && before.contains_key(other) ==> after[other] == before[other],
{
}

/// Asked twice, a table gives the same handle, and changes no more.
pub proof fn lemma_same_handle_again<H, F: FnOnce(WorkspaceId) -> H>(
    before: Map<i64, H>,
    between: Map<i64, H>,
    after: Map<i64, H>,
    id: WorkspaceId,
    create: F,
    again: F,
    first: &H,
    second: &H,
)
    requires
        registry::gives_handle(before, between, Some(id), create, Some(first)),
        registry::gives_handle(between, after, Some(id), again, Some(second)),
    ensures
        *first == *second,
        after == between,
{
}

/// A workspace without a database id has no handle, and every other has one.
pub proof fn lemma_who_has_a_handle<H, F: FnOnce(WorkspaceId) -> H>(
    before: Map<i64, H>,
    after: Map<i64, H>,
    database_id: Option<WorkspaceId>,
    create: F,
    handle: Option<&H>,
)
    requires
        registry::gives_handle(before, after, database_id, create, handle),
    ensures
        handle is Some <==> database_id is Some,
        database_id is None ==> after == before,
        database_id matches Some(id) ==> after.contains_key(id.0) && after[id.0] == *handle->0,
{
}

/// The user is persisted under 0, the agent under 1 and a remote author under
/// 2; only the remote author has a login, their own.
pub proof fn lemma_author_columns(author: CommentAuthorView)
    ensures
        author is User <==> comment::author_columns(author).0 == 0,
        author is Agent <==> comment::author_columns(author).0 == 1,
        author is Remote <==> comment::author_columns(author).0 == 2,
        comment::author_columns(author).1 == (match author {
            CommentAuthorView::Remote { login } => Some(login),
            _ => None,
        }),
{
}

} // verus!
