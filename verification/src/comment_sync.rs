//! Provider-agnostic remote comment sync.
//!
//! The sync layer never mentions a particular review system: it talks to a
//! provider resolved from the [`CommentSyncRegistry`]. Built-in providers
//! cover GitHub and a fully config-driven custom provider, and other crates or
//! extensions can register their own.
//!
//! Talking to a provider takes time, so a sync runs as a machine: each
//! [`SyncStep`] says what to ask the provider next, and [`advance`] takes the
//! reply.

use vstd::prelude::*;
use vstd::hash_map::StringHashMap;
use vstd::string::*;
#[allow(unused_imports)]
use crate::comment;
use crate::comment::{
    CommentAnchor, CommentAnchorView, CommentAuthor, CommentAuthorView, CommentKind, CommentNode,
    CommentNodeView, CommentStatus, NodeStamp, RelPath,
};
#[allow(unused_imports)]
use crate::comment_store;
use crate::comment_store::{CommentStore, CommentStoreEvent, CommentStoreView};
#[allow(unused_imports)]
use crate::ids;
use crate::ids::{CommentId, ThreadId};
#[allow(unused_imports)]
use crate::store_laws;
#[allow(unused_imports)]
use crate::text;
#[allow(unused_imports)]
use crate::thread;
use crate::thread::{CommentThread, CommentThreadView};

verus! {

/// An opaque remote review unit — a GitHub PR, GitLab MR, Gerrit change, or
/// any internal review identifier.
#[derive(Debug)]
pub struct ReviewUnit {
    pub id: String,
}

impl View for ReviewUnit {
    type V = Seq<char>;

    open spec fn view(&self) -> Seq<char> {
        self.id@
    }
}

impl Clone for ReviewUnit {
    fn clone(&self) -> (r: Self)
        ensures
            r@ == self@,
    {
        ReviewUnit { id: self.id.clone() }
    }
}

/// A provider-neutral comment exchanged with a remote backend. Also the JSON
/// shape the `custom` provider's fetch command must emit.
#[derive(Clone, Debug)]
pub struct RemoteComment {
    pub remote_id: String,
    /// Set for replies; identifies the remote comment this replies to.
    pub parent_remote_id: Option<String>,
    /// Repository-relative file path.
    pub path: String,
    /// Zero-based line the comment is anchored to.
    pub row: u32,
    pub body: String,
    pub author_login: String,
}

/// The mathematical value of a [`RemoteComment`].
#[verifier::ext_equal]
pub struct RemoteCommentView {
    pub remote_id: Seq<char>,
    pub parent_remote_id: Option<Seq<char>>,
    pub path: Seq<char>,
    pub row: u32,
    pub body: Seq<char>,
    pub author_login: Seq<char>,
}

impl View for RemoteComment {
    type V = RemoteCommentView;

    open spec fn view(&self) -> RemoteCommentView {
        RemoteCommentView {
            remote_id: self.remote_id@,
            parent_remote_id: comment::option_text(self.parent_remote_id),
            path: self.path@,
            row: self.row,
            body: self.body@,
            author_login: self.author_login@,
        }
    }
}

/// A locally-authored comment to create on the remote. Also the JSON shape
/// passed to the `custom` provider's push command.
#[derive(Debug)]
pub struct OutgoingComment {
    pub parent_remote_id: Option<String>,
    pub path: String,
    pub row: u32,
    pub body: String,
}

/// The mathematical value of an [`OutgoingComment`].
#[verifier::ext_equal]
pub struct OutgoingCommentView {
    pub parent_remote_id: Option<Seq<char>>,
    pub path: Seq<char>,
    pub row: u32,
    pub body: Seq<char>,
}

impl View for OutgoingComment {
    type V = OutgoingCommentView;

    open spec fn view(&self) -> OutgoingCommentView {
        OutgoingCommentView {
            parent_remote_id: comment::option_text(self.parent_remote_id),
            path: self.path@,
            row: self.row,
            body: self.body@,
        }
    }
}

/// An outgoing comment, with the thread and the node that it comes from.
#[derive(Debug)]
pub struct QueuedComment {
    pub thread_id: ThreadId,
    pub comment_id: CommentId,
    pub comment: OutgoingComment,
}

/// The mathematical value of a [`QueuedComment`].
#[verifier::ext_equal]
pub struct QueuedCommentView {
    pub thread_id: ThreadId,
    pub comment_id: CommentId,
    pub comment: OutgoingCommentView,
}

impl View for QueuedComment {
    type V = QueuedCommentView;

    open spec fn view(&self) -> QueuedCommentView {
        QueuedCommentView {
            thread_id: self.thread_id,
            comment_id: self.comment_id,
            comment: self.comment@,
        }
    }
}

/// The values of a list of queued comments.
pub open spec fn queued_views(list: Seq<QueuedComment>) -> Seq<QueuedCommentView> {
    list.map_values(|c: QueuedComment| c@)
}

/// A fetched comment, with the file that its path denotes; `None` when the
/// path denotes none.
#[derive(Debug)]
pub struct FetchedComment {
    pub comment: RemoteComment,
    pub file: Option<RelPath>,
}

/// The mathematical value of a [`FetchedComment`].
#[verifier::ext_equal]
pub struct FetchedCommentView {
    pub comment: RemoteCommentView,
    pub file: Option<Seq<char>>,
}

impl View for FetchedComment {
    type V = FetchedCommentView;

    open spec fn view(&self) -> FetchedCommentView {
        FetchedCommentView {
            comment: self.comment@,
            file: match self.file {
                Some(path) => Some(path@),
                None => None,
            },
        }
    }
}

/// The values of a list of fetched comments.
pub open spec fn fetched_views(list: Seq<FetchedComment>) -> Seq<FetchedCommentView> {
    list.map_values(|c: FetchedComment| c@)
}

/// Registry of available sync providers, keyed by provider name.
#[verifier::reject_recursive_types(P)]
pub struct CommentSyncRegistry<P> {
    providers: StringHashMap<P>,
}

impl<P> View for CommentSyncRegistry<P> {
    type V = Map<Seq<char>, P>;

    closed spec fn view(&self) -> Map<Seq<char>, P> {
        self.providers@
    }
}

impl<P> CommentSyncRegistry<P> {
    /// A registry without providers.
    pub fn new() -> (r: Self)
        ensures
            r@ == Map::<Seq<char>, P>::empty(),
    {
        CommentSyncRegistry { providers: StringHashMap::new() }
    }

    /// Registers a provider under its name; other crates and extensions call
    /// this to add support for their own review systems. A provider of the
    /// same name is replaced.
    pub fn register(&mut self, name: String, provider: P)
        ensures
            final(self)@ == old(self)@.insert(name@, provider),
    {
        self.providers.insert(name, provider);
    }

    /// The provider registered under a name.
    pub fn get(&self, name: &str) -> (r: Option<&P>)
        ensures
            match r {
                Some(p) => self@.contains_key(name@) && self@[name@] == *p,
                None => !self@.contains_key(name@),
            },
    {
        self.providers.get(name)
    }
}

/// The review unit that a setting asks for: none when it is unset, empty or
/// `"auto"`.
pub open spec fn wanted_unit(configured: Option<Seq<char>>) -> Option<Seq<char>> {
    match configured {
        Some(unit) => if unit.len() == 0 || unit == "auto"@ {
            None
        } else {
            Some(unit)
        },
        None => None,
    }
}

/// The review unit that the `review_unit` setting asks for, or `None` to have
/// it detected.
pub fn configured_unit(setting: Option<String>) -> (r: Option<String>)
    ensures
        comment::option_text(r) == wanted_unit(comment::option_text(setting)),
{
    match setting {
        Some(unit) => {
            if unit.as_str().unicode_len() == 0 || unit == "auto".to_owned() {
                None
            } else {
                Some(unit)
            }
        },
        None => None,
    }
}

/// The node that a remote comment becomes.
pub open spec fn node_of_remote(
    comment: RemoteCommentView,
    parent: Option<CommentId>,
    stamp: NodeStamp,
) -> CommentNodeView {
    CommentNodeView {
        id: stamp.id,
        parent_id: parent,
        author: CommentAuthorView::Remote { login: comment.author_login },
        body: comment.body,
        kind: CommentKind::Comment,
        created_at: stamp.created_at,
        remote_id: text::i64_value(comment.remote_id),
    }
}

/// Turns a remote comment into a node with a given stamp.
pub fn remote_node(comment: &RemoteComment, parent: Option<CommentId>, stamp: NodeStamp) -> (r:
    CommentNode)
    ensures
        r@ == node_of_remote(comment@, parent, stamp),
{
    let mut node = CommentNode::with_stamp(
        CommentAuthor::Remote { login: comment.author_login.clone() },
        comment.body.clone(),
        parent,
        CommentKind::Comment,
        stamp,
    );
    node.remote_id = text::parse_i64(comment.remote_id.as_str());
    node
}

/// The fetched comments that reply to a remote identifier, in fetch order.
pub open spec fn replies_in(
    remote: Seq<FetchedCommentView>,
    root_id: Seq<char>,
) -> Seq<RemoteCommentView>
    decreases remote.len(),
{
    if remote.len() == 0 {
        Seq::empty()
    } else if remote.last().comment.parent_remote_id == Some(root_id) {
        replies_in(remote.drop_last(), root_id).push(remote.last().comment)
    } else {
        replies_in(remote.drop_last(), root_id)
    }
}

/// What tells one imported thread from every other: the thread's identifier
/// and the stamps of its nodes, the root first.
pub struct FreshThread {
    pub id: ThreadId,
    pub root: NodeStamp,
    pub replies: Vec<NodeStamp>,
}

/// The mathematical value of a [`FreshThread`].
#[verifier::ext_equal]
pub struct FreshThreadView {
    pub id: ThreadId,
    pub root: NodeStamp,
    pub replies: Seq<NodeStamp>,
}

impl View for FreshThread {
    type V = FreshThreadView;

    open spec fn view(&self) -> FreshThreadView {
        FreshThreadView { id: self.id, root: self.root, replies: self.replies@ }
    }
}

/// The values of a list of fresh identities.
pub open spec fn fresh_views(list: Seq<FreshThread>) -> Seq<FreshThreadView> {
    list.map_values(|f: FreshThread| f@)
}

/// The thread that a fetched root comment becomes, its replies as children of
/// the root.
pub open spec fn thread_of_remote(
    remote: Seq<FetchedCommentView>,
    root: FetchedCommentView,
    fresh: FreshThreadView,
) -> CommentThreadView {
    let replies = replies_in(remote, root.comment.remote_id);
    CommentThreadView {
        id: fresh.id,
        change_id: None,
        file: root.file->0,
        anchor: CommentAnchorView {
            start_row: root.comment.row,
            start_column: 0,
            end_row: root.comment.row,
            end_column: 0,
            fingerprint: Seq::empty(),
        },
        kind: CommentKind::Comment,
        status: CommentStatus::Open,
        nodes: seq![node_of_remote(root.comment, None, fresh.root)] + Seq::new(
            replies.len(),
            |i: int| node_of_remote(replies[i], Some(fresh.root.id), fresh.replies[i]),
        ),
        collapsed: false,
    }
}

/// How many fetched comments reply to a remote identifier.
fn count_replies(remote: &Vec<FetchedComment>, root_id: &String) -> (r: usize)
    ensures
        r == replies_in(fetched_views(remote@), root_id@).len(),
{
    let ghost views = fetched_views(remote@);
    let mut n: usize = 0;
    proof {
        assert(views.take(0) =~= Seq::empty());
    }
    for i in 0..remote.len()
        invariant
            views == fetched_views(remote@),
            n == replies_in(views.take(i as int), root_id@).len(),
            n <= i,
    {
        proof {
            assert(views[i as int] == remote@[i as int]@);
            assert(views.take(i + 1).drop_last() =~= views.take(i as int));
        }
        if is_reply(&remote[i].comment, root_id) {
            n = n + 1;
        }
    }
    proof {
        assert(views.take(views.len() as int) =~= views);
    }
    n
}

fn is_reply(comment: &RemoteComment, root_id: &String) -> (r: bool)
    ensures
        r == (comment@.parent_remote_id == Some(root_id@)),
{
    match &comment.parent_remote_id {
        Some(parent) => *parent == *root_id,
        None => false,
    }
}

/// Builds the thread of a fetched root comment out of a given fresh identity.
pub fn remote_thread(remote: &Vec<FetchedComment>, root: usize, file: RelPath, fresh: &FreshThread) -> (r:
    CommentThread)
    requires
        root < remote.len(),
        fresh.replies.len() == replies_in(
            fetched_views(remote@),
            remote@[root as int].comment.remote_id@,
        ).len(),
    ensures
        r@ == thread_of_remote(
            fetched_views(remote@),
            (FetchedCommentView { comment: remote@[root as int].comment@, file: Some(file@) }),
            fresh@,
        ),
{
    let root_comment = &remote[root].comment;
    let ghost views = fetched_views(remote@);
    let ghost root_id = root_comment.remote_id@;
    let ghost replies = replies_in(views, root_id);
    let root_node = remote_node(root_comment, None, fresh.root);
    let root_node_id = root_node.id;
    let ghost shown = root_node@;
    let mut nodes: Vec<CommentNode> = Vec::new();
    nodes.push(root_node);
    let mut taken: usize = 0;
    proof {
        assert(views.take(0) =~= Seq::empty());
        assert(thread::node_views(nodes@) =~= seq![shown]);
        assert(replies_in(views.take(0), root_id) =~= Seq::empty());
    }
    for i in 0..remote.len()
        invariant
            views == fetched_views(remote@),
            root < remote.len(),
            root_comment == &remote@[root as int].comment,
            root_id == root_comment.remote_id@,
            replies == replies_in(views, root_id),
            fresh.replies.len() == replies.len(),
            root_node_id == fresh.root.id,
            taken == replies_in(views.take(i as int), root_id).len(),
            taken <= replies.len(),
            replies_in(views.take(i as int), root_id) == replies.take(taken as int),
            thread::node_views(nodes@) == seq![shown] + Seq::new(
                taken as nat,
                |k: int| node_of_remote(replies[k], Some(fresh.root.id), fresh.replies@[k]),
            ),
    {
        proof {
            assert(views[i as int] == remote@[i as int]@);
            assert(views.take(i + 1).drop_last() =~= views.take(i as int));
            lemma_replies_prefix(views, root_id, i + 1);
        }
        if is_reply(&remote[i].comment, &root_comment.remote_id) {
            let ghost before = thread::node_views(nodes@);
            let node = remote_node(&remote[i].comment, Some(root_node_id), fresh.replies[taken]);
            let ghost next = node@;
            proof {
                assert(replies_in(views.take(i + 1), root_id).last() == remote@[i as int].comment@);
                assert(replies[taken as int] == replies.take(taken + 1)[taken as int]);
            }
            nodes.push(node);
            taken = taken + 1;
            proof {
                assert(thread::node_views(nodes@) =~= before.push(next));
                assert(before.push(next) =~= seq![shown] + Seq::new(
                    taken as nat,
                    |k: int| node_of_remote(replies[k], Some(fresh.root.id), fresh.replies@[k]),
                ));
            }
        }
    }
    proof {
        assert(views.take(views.len() as int) =~= views);
    }
    CommentThread {
        id: fresh.id,
        change_id: None,
        file,
        anchor: CommentAnchor {
            start_row: root_comment.row,
            start_column: 0,
            end_row: root_comment.row,
            end_column: 0,
            fingerprint: String::new(),
        },
        kind: CommentKind::Comment,
        status: CommentStatus::Open,
        nodes,
        collapsed: false,
    }
}

proof fn lemma_replies_prefix(remote: Seq<FetchedCommentView>, root_id: Seq<char>, k: int)
    requires
        0 <= k <= remote.len(),
    ensures
        replies_in(remote.take(k), root_id).len() <= replies_in(remote, root_id).len(),
        replies_in(remote.take(k), root_id) == replies_in(remote, root_id).take(
            replies_in(remote.take(k), root_id).len() as int,
        ),
    decreases remote.len(),
{
    let all = replies_in(remote, root_id);
    if k == remote.len() {
        assert(remote.take(k) =~= remote);
        assert(all.take(all.len() as int) =~= all);
    } else {
        let fewer = remote.drop_last();
        lemma_replies_prefix(fewer, root_id, k);
        assert(fewer.take(k) =~= remote.take(k));
        let n = replies_in(remote.take(k), root_id).len() as int;
        assert(all.take(n) =~= replies_in(fewer, root_id).take(n));
    }
}

/// Whether a node of some thread carries a remote identifier.
pub open spec fn is_known(threads: Seq<CommentThreadView>, remote_id: i64) -> bool {
    exists|t: int, n: int|
        0 <= t < threads.len() && 0 <= n < threads[t].nodes.len() && (
        #[trigger] threads[t].nodes[n]).remote_id == Some(remote_id)
}

/// Whether a fetched comment becomes a new thread: it is a root, its remote
/// identifier is a number that no node carries yet, and its path denotes a
/// file.
pub open spec fn is_new_root(threads: Seq<CommentThreadView>, fetched: FetchedCommentView) -> bool {
    &&& fetched.comment.parent_remote_id is None
    &&& fetched.file is Some
    &&& match text::i64_value(fetched.comment.remote_id) {
        Some(remote_id) => !is_known(threads, remote_id),
        None => false,
    }
}

/// Where the fetched comments stand that become new threads, in fetch order.
pub open spec fn new_roots_in(
    threads: Seq<CommentThreadView>,
    remote: Seq<FetchedCommentView>,
) -> Seq<int>
    decreases remote.len(),
{
    if remote.len() == 0 {
        Seq::empty()
    } else {
        let before = new_roots_in(threads, remote.drop_last());
        if is_new_root(threads, remote.last()) {
            before.push(remote.len() - 1)
        } else {
            before
        }
    }
}

/// The store after the threads of some fetched roots were inserted, each with
/// its fresh identity.
pub open spec fn roots_imported(
    store: CommentStoreView,
    remote: Seq<FetchedCommentView>,
    roots: Seq<int>,
    fresh: Seq<FreshThreadView>,
) -> CommentStoreView
    decreases roots.len(),
{
    if roots.len() == 0 {
        store
    } else {
        roots_imported(store, remote, roots.drop_last(), fresh).upserted(
            thread_of_remote(remote, remote[roots.last()], fresh[roots.len() - 1]),
        )
    }
}

/// The position of the first node that carries a remote identifier.
pub open spec fn carrier_index(nodes: Seq<CommentNodeView>, remote_id: i64) -> Option<int>
    decreases nodes.len(),
{
    if nodes.len() == 0 {
        None
    } else {
        match carrier_index(nodes.drop_last(), remote_id) {
            Some(n) => Some(n),
            None => if nodes.last().remote_id == Some(remote_id) {
                Some(nodes.len() - 1)
            } else {
                None
            },
        }
    }
}

/// The first node that carries a remote identifier: its thread's identifier
/// and its own.
pub open spec fn carrier(threads: Seq<CommentThreadView>, remote_id: i64) -> Option<
    (ThreadId, CommentId),
>
    decreases threads.len(),
{
    if threads.len() == 0 {
        None
    } else {
        match carrier(threads.drop_last(), remote_id) {
            Some(found) => Some(found),
            None => match carrier_index(threads.last().nodes, remote_id) {
                Some(n) => Some((threads.last().id, threads.last().nodes[n].id)),
                None => None,
            },
        }
    }
}

/// The node that a fetched comment is to be appended under: the comment is a
/// reply to one that a node carries, and its own remote identifier is a number
/// that no node carries yet.
pub open spec fn late_parent(threads: Seq<CommentThreadView>, comment: RemoteCommentView) -> Option<
    (ThreadId, CommentId),
> {
    match (comment.parent_remote_id, text::i64_value(comment.remote_id)) {
        (Some(parent), Some(own)) => match text::i64_value(parent) {
            Some(parent_id) => if is_known(threads, own) {
                None
            } else {
                carrier(threads, parent_id)
            },
            None => None,
        },
        _ => None,
    }
}

/// Whether some fetched comment is a reply that is to be appended.
pub open spec fn has_late(
    threads: Seq<CommentThreadView>,
    remote: Seq<FetchedCommentView>,
) -> bool {
    exists|j: int|
        0 <= j < remote.len() && late_parent(threads, (#[trigger] remote[j]).comment) is Some
}

/// The store after a fetched comment was appended to the thread of the one
/// that it replies to, where it is to be appended.
pub open spec fn with_reply(
    store: CommentStoreView,
    comment: RemoteCommentView,
    stamp: NodeStamp,
) -> CommentStoreView {
    match late_parent(store.threads(), comment) {
        Some((thread_id, parent)) => {
            let node = node_of_remote(comment, Some(parent), stamp);
            store.with_thread(
                thread_id,
                |t: CommentThreadView| CommentThreadView { nodes: t.nodes.push(node), ..t },
            )
        },
        None => store,
    }
}

/// The store after one pass over the fetched comments that appends the replies
/// to be appended, each with the stamp at its position.
pub open spec fn replies_added(
    store: CommentStoreView,
    remote: Seq<FetchedCommentView>,
    stamps: Seq<NodeStamp>,
) -> CommentStoreView
    decreases remote.len(),
{
    if remote.len() == 0 {
        store
    } else {
        with_reply(
            replies_added(store, remote.drop_last(), stamps),
            remote.last().comment,
            stamps[remote.len() - 1],
        )
    }
}

/// The store after some passes over the fetched comments: a reply to a reply
/// that comes earlier in fetch order has its turn in a later pass.
pub open spec fn replies_settled(
    store: CommentStoreView,
    remote: Seq<FetchedCommentView>,
    stamps: Seq<NodeStamp>,
    passes: nat,
) -> CommentStoreView
    decreases passes,
{
    if passes == 0 {
        store
    } else {
        replies_added(
            replies_settled(store, remote, stamps, (passes - 1) as nat),
            remote,
            stamps,
        )
    }
}

/// How many replies one pass over the fetched comments appends.
pub open spec fn added_in_pass(
    store: CommentStoreView,
    remote: Seq<FetchedCommentView>,
    stamps: Seq<NodeStamp>,
) -> nat
    decreases remote.len(),
{
    if remote.len() == 0 {
        0
    } else {
        let fewer = remote.drop_last();
        let before = replies_added(store, fewer, stamps);
        added_in_pass(store, fewer, stamps) + if late_parent(
            before.threads(),
            remote.last().comment,
        ) is Some {
            1nat
        } else {
            0
        }
    }
}

/// How many replies some passes over the fetched comments append.
pub open spec fn added_in_all(
    store: CommentStoreView,
    remote: Seq<FetchedCommentView>,
    stamps: Seq<NodeStamp>,
    passes: nat,
) -> nat
    decreases passes,
{
    if passes == 0 {
        0
    } else {
        let less = (passes - 1) as nat;
        added_in_all(store, remote, stamps, less) + added_in_pass(
            replies_settled(store, remote, stamps, less),
            remote,
            stamps,
        )
    }
}

/// As many events as there were changes.
pub open spec fn changes(count: nat) -> Seq<CommentStoreEvent> {
    Seq::new(count, |i: int| CommentStoreEvent::Changed)
}

/// The store after an import: each new root became a thread, with the replies
/// to it, and every other reply with an unknown number went to the thread of
/// the comment that it replies to, however long the chain of fetched replies
/// between it and a known comment.
pub open spec fn imported(
    store: CommentStoreView,
    remote: Seq<FetchedCommentView>,
    fresh: Seq<FreshThreadView>,
    late: Seq<NodeStamp>,
) -> CommentStoreView {
    replies_settled(
        roots_imported(store, remote, new_roots_in(store.threads(), remote), fresh),
        remote,
        late,
        remote.len(),
    )
}

/// Whether there is one fresh identity for each root, with one stamp for each
/// reply.
pub open spec fn fresh_fits(
    remote: Seq<FetchedCommentView>,
    roots: Seq<int>,
    fresh: Seq<FreshThreadView>,
) -> bool {
    &&& fresh.len() == roots.len()
    &&& forall|k: int|
        0 <= k < roots.len() ==> (#[trigger] fresh[k]).replies.len() == replies_in(
            remote,
            remote[roots[k]].comment.remote_id,
        ).len()
}

/// Whether a node is local-only: a user's own node without a remote
/// identifier.
pub open spec fn is_local_only(node: CommentNodeView) -> bool {
    node.remote_id is None && node.author is User
}

/// The comment that is pushed for a node of a thread.
pub open spec fn outgoing_for(
    thread: CommentThreadView,
    node: CommentNodeView,
) -> QueuedCommentView {
    QueuedCommentView {
        thread_id: thread.id,
        comment_id: node.id,
        comment: OutgoingCommentView {
            parent_remote_id: None,
            path: thread.file,
            row: thread.anchor.start_row,
            body: node.body,
        },
    }
}

/// The local-only nodes of a thread as outgoing comments, in list order.
pub open spec fn outgoing_nodes(
    thread: CommentThreadView,
    nodes: Seq<CommentNodeView>,
) -> Seq<QueuedCommentView>
    decreases nodes.len(),
{
    if nodes.len() == 0 {
        Seq::empty()
    } else {
        let before = outgoing_nodes(thread, nodes.drop_last());
        if is_local_only(nodes.last()) {
            before.push(outgoing_for(thread, nodes.last()))
        } else {
            before
        }
    }
}

/// The local-only comments of all threads.
pub open spec fn outgoing_of(threads: Seq<CommentThreadView>) -> Seq<QueuedCommentView>
    decreases threads.len(),
{
    if threads.len() == 0 {
        Seq::empty()
    } else {
        outgoing_of(threads.drop_last()) + outgoing_nodes(threads.last(), threads.last().nodes)
    }
}

/// The position of the first carrier is the least one.
pub proof fn lemma_carrier_index(nodes: Seq<CommentNodeView>, remote_id: i64)
    ensures
        match carrier_index(nodes, remote_id) {
            Some(n) => {
                &&& 0 <= n < nodes.len()
                &&& nodes[n].remote_id == Some(remote_id)
                &&& forall|m: int| 0 <= m < n ==> (#[trigger] nodes[m]).remote_id != Some(remote_id)
            },
            None => forall|m: int|
                0 <= m < nodes.len() ==> (#[trigger] nodes[m]).remote_id != Some(remote_id),
        },
    decreases nodes.len(),
{
    if nodes.len() > 0 {
        lemma_carrier_index(nodes.drop_last(), remote_id);
        assert forall|m: int| 0 <= m < nodes.len() - 1 implies #[trigger] nodes[m]
            == nodes.drop_last()[m] by {}
    }
}

/// A remote identifier has a first carrier exactly when it is known.
pub proof fn lemma_carrier(threads: Seq<CommentThreadView>, remote_id: i64)
    ensures
        carrier(threads, remote_id) is Some <==> is_known(threads, remote_id),
    decreases threads.len(),
{
    if threads.len() > 0 {
        let fewer = threads.drop_last();
        let last = threads.last();
        lemma_carrier(fewer, remote_id);
        lemma_carrier_index(last.nodes, remote_id);
        if carrier(threads, remote_id) is Some {
            if is_known(fewer, remote_id) {
                let (t, n) = choose|t: int, n: int|
                    0 <= t < fewer.len() && 0 <= n < fewer[t].nodes.len() && (
                    #[trigger] fewer[t].nodes[n]).remote_id == Some(remote_id);
                assert(threads[t].nodes[n].remote_id == Some(remote_id));
            } else {
                let n = carrier_index(last.nodes, remote_id)->0;
                assert(threads[threads.len() - 1].nodes[n].remote_id == Some(remote_id));
            }
        }
        if is_known(threads, remote_id) {
            let (t, n) = choose|t: int, n: int|
                0 <= t < threads.len() && 0 <= n < threads[t].nodes.len() && (
                #[trigger] threads[t].nodes[n]).remote_id == Some(remote_id);
            if t < fewer.len() {
                assert(fewer[t].nodes[n].remote_id == Some(remote_id));
            } else {
                assert(last.nodes[n].remote_id == Some(remote_id));
            }
        }
    }
}

proof fn lemma_carrier_prefix(threads: Seq<CommentThreadView>, remote_id: i64, k: int)
    requires
        0 <= k <= threads.len(),
        carrier(threads.take(k), remote_id) is Some,
    ensures
        carrier(threads, remote_id) == carrier(threads.take(k), remote_id),
    decreases threads.len(),
{
    if k == threads.len() {
        assert(threads.take(k) =~= threads);
    } else {
        assert(threads.drop_last().take(k) =~= threads.take(k));
        lemma_carrier_prefix(threads.drop_last(), remote_id, k);
    }
}

/// The first carrier of a remote identifier is a node of a thread, at the
/// returned positions.
pub proof fn lemma_carrier_thread(threads: Seq<CommentThreadView>, remote_id: i64) -> (r: (int, int))
    requires
        carrier(threads, remote_id) is Some,
    ensures
        0 <= r.0 < threads.len(),
        threads[r.0].id == (carrier(threads, remote_id)->0).0,
        0 <= r.1 < threads[r.0].nodes.len(),
        threads[r.0].nodes[r.1].id == (carrier(threads, remote_id)->0).1,
        threads[r.0].nodes[r.1].remote_id == Some(remote_id),
    decreases threads.len(),
{
    if carrier(threads.drop_last(), remote_id) is Some {
        lemma_carrier_thread(threads.drop_last(), remote_id)
    } else {
        let nodes = threads.last().nodes;
        lemma_carrier_index(nodes, remote_id);
        (threads.len() - 1, carrier_index(nodes, remote_id)->0)
    }
}

proof fn lemma_late_thread(store: CommentStoreView, comment: RemoteCommentView)
    requires
        late_parent(store.threads(), comment) is Some,
    ensures
        store.thread((late_parent(store.threads(), comment)->0).0) is Some,
{
    let threads = store.threads();
    let id = (late_parent(threads, comment)->0).0;
    let parent = text::i64_value(comment.parent_remote_id->0)->0;
    let (i, _) = lemma_carrier_thread(threads, parent);
    store_laws::lemma_thread_is_first(store, id);
    comment_store::lemma_thread_index(threads, id);
    assert(threads[i].id == id);
}

/// Finds the first node that carries a remote identifier in a list.
fn find_numbered(nodes: &Vec<CommentNode>, remote_id: i64) -> (r: Option<usize>)
    ensures
        match r {
            Some(n) => {
                &&& n < nodes.len()
                &&& carrier_index(thread::node_views(nodes@), remote_id) == Some(n as int)
            },
            None => carrier_index(thread::node_views(nodes@), remote_id) is None,
        },
{
    let ghost views = thread::node_views(nodes@);
    proof {
        lemma_carrier_index(views, remote_id);
    }
    for n in 0..nodes.len()
        invariant
            views == thread::node_views(nodes@),
            forall|m: int| 0 <= m < n ==> (#[trigger] views[m]).remote_id != Some(remote_id),
    {
        proof {
            assert(views[n as int] == nodes@[n as int]@);
        }
        if nodes[n].remote_id == Some(remote_id) {
            proof {
                lemma_carrier_index(views, remote_id);
            }
            return Some(n);
        }
    }
    None
}

/// Finds the first node that carries a remote identifier: its thread's
/// identifier and its own.
fn find_carrier(threads: &Vec<&CommentThread>, remote_id: i64) -> (r: Option<(ThreadId, CommentId)>)
    ensures
        r == carrier(thread::thread_ref_views(threads@), remote_id),
        r is Some <==> is_known(thread::thread_ref_views(threads@), remote_id),
{
    let ghost views = thread::thread_ref_views(threads@);
    proof {
        lemma_carrier(views, remote_id);
        assert(views.take(0) =~= Seq::empty());
    }
    for t in 0..threads.len()
        invariant
            views == thread::thread_ref_views(threads@),
            carrier(views, remote_id) is Some <==> is_known(views, remote_id),
            carrier(views.take(t as int), remote_id) is None,
    {
        proof {
            assert(views[t as int] == threads@[t as int]@);
            assert(views.take(t + 1).drop_last() =~= views.take(t as int));
        }
        match find_numbered(&threads[t].nodes, remote_id) {
            Some(n) => {
                proof {
                    assert(views[t as int].nodes[n as int] == threads@[t as int].nodes@[n as int]@);
                    lemma_carrier_prefix(views, remote_id, t + 1);
                }
                return Some((threads[t].id, threads[t].nodes[n].id));
            },
            None => {},
        }
    }
    proof {
        assert(views.take(views.len() as int) =~= views);
    }
    None
}

/// Finds the fetched comments that become new threads.
pub fn new_roots(store: &CommentStore, remote: &Vec<FetchedComment>) -> (r: Vec<usize>)
    ensures
        r@.map_values(|i: usize| i as int) == new_roots_in(
            store@.threads(),
            fetched_views(remote@),
        ),
        forall|k: int|
            0 <= k < r.len() ==> (#[trigger] r@[k]) < remote.len() && remote@[r@[k] as int].file is Some,
{
    let all = store.all_threads();
    let ghost threads = store@.threads();
    let ghost views = fetched_views(remote@);
    let mut out: Vec<usize> = Vec::new();
    proof {
        assert(views.take(0) =~= Seq::empty());
        assert(out@.map_values(|i: usize| i as int) =~= Seq::empty());
    }
    for i in 0..remote.len()
        invariant
            threads == thread::thread_ref_views(all@),
            views == fetched_views(remote@),
            out@.map_values(|i: usize| i as int) == new_roots_in(threads, views.take(i as int)),
            forall|k: int|
                0 <= k < out.len() ==> (#[trigger] out@[k]) < remote.len()
                    && remote@[out@[k] as int].file is Some,
    {
        proof {
            assert(views[i as int] == remote@[i as int]@);
            assert(views.take(i + 1).drop_last() =~= views.take(i as int));
        }
        let fetched = &remote[i];
        let root_id = text::parse_i64(fetched.comment.remote_id.as_str());
        let is_new = match root_id {
            Some(remote_id) => fetched.comment.parent_remote_id.is_none() && fetched.file.is_some()
                && find_carrier(&all, remote_id).is_none(),
            None => false,
        };
        if is_new {
            proof {
                assert(out@.push(i).map_values(|i: usize| i as int) =~= out@.map_values(
                    |i: usize| i as int,
                ).push(i as int));
            }
            out.push(i);
        }
    }
    proof {
        assert(views.take(views.len() as int) =~= views);
    }
    out
}

/// Inserts the threads of some fetched roots, and notes the event of each.
fn import_roots(
    store: &mut CommentStore,
    remote: &Vec<FetchedComment>,
    roots: &Vec<usize>,
    fresh: &Vec<FreshThread>,
    events: &mut Vec<CommentStoreEvent>,
)
    requires
        forall|k: int|
            0 <= k < roots.len() ==> (#[trigger] roots@[k]) < remote.len()
                && remote@[roots@[k] as int].file is Some,
        fresh_fits(
            fetched_views(remote@),
            roots@.map_values(|i: usize| i as int),
            fresh_views(fresh@),
        ),
    ensures
        final(store)@ == roots_imported(
            old(store)@,
            fetched_views(remote@),
            roots@.map_values(|i: usize| i as int),
            fresh_views(fresh@),
        ),
        final(events)@ == old(events)@ + changes(roots@.len()),
{
    let ghost views = fetched_views(remote@);
    let ghost at = roots@.map_values(|i: usize| i as int);
    let ghost identities = fresh_views(fresh@);
    let ghost start = store@;
    let ghost noted = events@;
    proof {
        assert(at.take(0) =~= Seq::empty());
        assert(noted + changes(0) =~= noted);
    }
    for k in 0..roots.len()
        invariant
            views == fetched_views(remote@),
            at == roots@.map_values(|i: usize| i as int),
            identities == fresh_views(fresh@),
            forall|k: int|
                0 <= k < roots.len() ==> (#[trigger] roots@[k]) < remote.len()
                    && remote@[roots@[k] as int].file is Some,
            fresh_fits(views, at, identities),
            store@ == roots_imported(start, views, at.take(k as int), identities),
            events@ == noted + changes(k as nat),
    {
        let root: usize = roots[k];
        proof {
            assert(at[k as int] == root as int);
            assert(at.take(k + 1).drop_last() =~= at.take(k as int));
            assert(identities[k as int] == fresh@[k as int]@);
            assert(views[root as int] == remote@[root as int]@);
        }
        match &remote[root].file {
            Some(file) => {
                let thread = remote_thread(remote, root, file.clone(), &fresh[k]);
                let event = store.upsert_thread(thread);
                events.push(event);
                proof {
                    assert(events@ =~= noted + changes((k + 1) as nat));
                }
            },
            None => {},
        }
    }
    proof {
        assert(at.take(at.len() as int) =~= at);
    }
}

/// The node that a fetched comment is to be appended under.
fn find_late_parent(store: &CommentStore, comment: &RemoteComment) -> (r: Option<
    (ThreadId, CommentId),
>)
    ensures
        r == late_parent(store@.threads(), comment@),
{
    let parent = match &comment.parent_remote_id {
        Some(parent) => text::parse_i64(parent.as_str()),
        None => None,
    };
    match (parent, text::parse_i64(comment.remote_id.as_str())) {
        (Some(parent_id), Some(own)) => {
            let all = store.all_threads();
            if find_carrier(&all, own).is_some() {
                None
            } else {
                find_carrier(&all, parent_id)
            }
        },
        _ => None,
    }
}

/// Goes over the fetched comments once, appends the replies to be appended, and
/// notes the event of each. Tells whether there was one.
fn add_late_replies(
    store: &mut CommentStore,
    remote: &Vec<FetchedComment>,
    stamps: &Vec<NodeStamp>,
    events: &mut Vec<CommentStoreEvent>,
) -> (changed: bool)
    requires
        stamps.len() == remote.len(),
    ensures
        final(store)@ == replies_added(old(store)@, fetched_views(remote@), stamps@),
        final(events)@ == old(events)@ + changes(
            added_in_pass(old(store)@, fetched_views(remote@), stamps@),
        ),
        !changed ==> final(store)@ == old(store)@,
        !changed ==> added_in_pass(old(store)@, fetched_views(remote@), stamps@) == 0,
{
    let ghost views = fetched_views(remote@);
    let ghost start = store@;
    let ghost noted = events@;
    let mut changed = false;
    proof {
        assert(views.take(0) =~= Seq::empty());
        assert(noted + changes(0) =~= noted);
    }
    for i in 0..remote.len()
        invariant
            views == fetched_views(remote@),
            stamps.len() == remote.len(),
            store@ == replies_added(start, views.take(i as int), stamps@),
            events@ == noted + changes(added_in_pass(start, views.take(i as int), stamps@)),
            !changed ==> store@ == start,
            !changed ==> added_in_pass(start, views.take(i as int), stamps@) == 0,
    {
        let ghost count = added_in_pass(start, views.take(i as int), stamps@);
        proof {
            assert(views[i as int] == remote@[i as int]@);
            assert(views.take(i + 1).drop_last() =~= views.take(i as int));
        }
        match find_late_parent(store, &remote[i].comment) {
            Some((thread_id, parent)) => {
                proof {
                    lemma_late_thread(store@, remote@[i as int].comment@);
                }
                let node = remote_node(&remote[i].comment, Some(parent), stamps[i]);
                match store.add_node(thread_id, node) {
                    Some(event) => {
                        events.push(event);
                        proof {
                            assert(events@ =~= noted + changes(count + 1));
                        }
                    },
                    None => {},
                }
                changed = true;
            },
            None => {},
        }
    }
    proof {
        assert(views.take(views.len() as int) =~= views);
    }
    changed
}

proof fn lemma_settled_stays(
    store: CommentStoreView,
    remote: Seq<FetchedCommentView>,
    stamps: Seq<NodeStamp>,
    passes: nat,
    more: nat,
)
    requires
        passes <= more,
        replies_settled(store, remote, stamps, passes + 1) == replies_settled(
            store,
            remote,
            stamps,
            passes,
        ),
        added_in_pass(replies_settled(store, remote, stamps, passes), remote, stamps) == 0,
    ensures
        replies_settled(store, remote, stamps, more) == replies_settled(
            store,
            remote,
            stamps,
            passes,
        ),
        added_in_all(store, remote, stamps, more) == added_in_all(store, remote, stamps, passes),
    decreases more,
{
    if passes < more {
        lemma_settled_stays(store, remote, stamps, passes, (more - 1) as nat);
    }
}

/// Appends every reply that is to be appended, and notes the event of each.
fn settle_replies(
    store: &mut CommentStore,
    remote: &Vec<FetchedComment>,
    stamps: &Vec<NodeStamp>,
    events: &mut Vec<CommentStoreEvent>,
)
    requires
        stamps.len() == remote.len(),
    ensures
        final(store)@ == replies_settled(
            old(store)@,
            fetched_views(remote@),
            stamps@,
            remote.len() as nat,
        ),
        final(events)@ == old(events)@ + changes(
            added_in_all(old(store)@, fetched_views(remote@), stamps@, remote.len() as nat),
        ),
{
    let ghost views = fetched_views(remote@);
    let ghost start = store@;
    let ghost noted = events@;
    let ghost all = remote.len() as nat;
    let mut passes: usize = 0;
    let mut again = true;
    proof {
        assert(noted + changes(0) =~= noted);
    }
    while again && passes < remote.len()
        invariant
            views == fetched_views(remote@),
            stamps.len() == remote.len(),
            all == remote.len(),
            passes <= remote.len(),
            store@ == replies_settled(start, views, stamps@, passes as nat),
            events@ == noted + changes(added_in_all(start, views, stamps@, passes as nat)),
            !again ==> replies_settled(start, views, stamps@, all) == store@,
            !again ==> added_in_all(start, views, stamps@, all) == added_in_all(
                start,
                views,
                stamps@,
                passes as nat,
            ),
        decreases remote.len() - passes,
    {
        let ghost before = passes as nat;
        let ghost so_far = added_in_all(start, views, stamps@, before);
        let ghost now = added_in_pass(store@, views, stamps@);
        again = add_late_replies(store, remote, stamps, events);
        proof {
            assert(changes(so_far) + changes(now) =~= changes(so_far + now));
            assert(events@ =~= noted + changes(so_far + now));
            if !again {
                lemma_settled_stays(start, views, stamps@, before, all);
            }
        }
        passes = passes + 1;
    }
}

/// Collects the local-only comments of a store.
pub fn local_only_comments(store: &CommentStore) -> (r: Vec<QueuedComment>)
    ensures
        queued_views(r@) == outgoing_of(store@.threads()),
{
    let all = store.all_threads();
    let ghost threads = store@.threads();
    let mut out: Vec<QueuedComment> = Vec::new();
    proof {
        assert(threads.take(0) =~= Seq::empty());
        assert(queued_views(out@) =~= Seq::empty());
    }
    for t in 0..all.len()
        invariant
            threads == thread::thread_ref_views(all@),
            queued_views(out@) == outgoing_of(threads.take(t as int)),
    {
        let thread = all[t];
        let ghost before = queued_views(out@);
        let ghost nodes = thread@.nodes;
        proof {
            assert(threads[t as int] == thread@);
            assert(threads.take(t + 1).drop_last() =~= threads.take(t as int));
            assert(nodes.take(0) =~= Seq::empty());
            assert(before + outgoing_nodes(thread@, nodes.take(0)) =~= before);
        }
        for n in 0..thread.nodes.len()
            invariant
                nodes == thread@.nodes,
                queued_views(out@) == before + outgoing_nodes(thread@, nodes.take(n as int)),
        {
            let node = &thread.nodes[n];
            proof {
                assert(nodes[n as int] == node@);
                assert(nodes.take(n + 1).drop_last() =~= nodes.take(n as int));
            }
            if node.remote_id.is_none() && node.author.is_user() {
                let ghost so_far = queued_views(out@);
                let comment = QueuedComment {
                    thread_id: thread.id,
                    comment_id: node.id,
                    comment: OutgoingComment {
                        parent_remote_id: None,
                        path: thread.file.to_proto(),
                        row: thread.anchor.start_row,
                        body: node.body.clone(),
                    },
                };
                let ghost shown = comment@;
                out.push(comment);
                proof {
                    assert(queued_views(out@) =~= so_far.push(shown));
                    assert(queued_views(out@) =~= before + outgoing_nodes(
                        thread@,
                        nodes.take(n + 1),
                    ));
                }
            }
        }
        proof {
            assert(nodes.take(nodes.len() as int) =~= nodes);
        }
    }
    proof {
        assert(threads.take(threads.len() as int) =~= threads);
    }
    out
}

/// What a merge leaves to be done: the local-only comments to push, and the
/// store's events, one for each thread that the merge inserted and each reply
/// that it appended.
pub struct Merged {
    pub outgoing: Vec<QueuedComment>,
    pub events: Vec<CommentStoreEvent>,
}

/// The events of a merge.
pub open spec fn merge_events(
    store: CommentStoreView,
    remote: Seq<FetchedCommentView>,
    fresh: Seq<FreshThreadView>,
    late: Seq<NodeStamp>,
) -> Seq<CommentStoreEvent> {
    let roots = new_roots_in(store.threads(), remote);
    let with_roots = roots_imported(store, remote, roots, fresh);
    changes(roots.len() + added_in_all(with_roots, remote, late, remote.len()))
}

/// Folds fetched remote comments into the store with given fresh identities,
/// one for each new root, and given stamps, one for each fetched comment.
pub fn merge_with(
    store: &mut CommentStore,
    remote: &Vec<FetchedComment>,
    fresh: &Vec<FreshThread>,
    late: &Vec<NodeStamp>,
) -> (r: Merged)
    requires
        fresh_fits(
            fetched_views(remote@),
            new_roots_in(old(store)@.threads(), fetched_views(remote@)),
            fresh_views(fresh@),
        ),
        late.len() == remote.len(),
    ensures
        final(store)@ == imported(
            old(store)@,
            fetched_views(remote@),
            fresh_views(fresh@),
            late@,
        ),
        queued_views(r.outgoing@) == outgoing_of(final(store)@.threads()),
        r.events@ == merge_events(
            old(store)@,
            fetched_views(remote@),
            fresh_views(fresh@),
            late@,
        ),
{
    let roots = new_roots(store, remote);
    let mut events: Vec<CommentStoreEvent> = Vec::new();
    import_roots(store, remote, &roots, fresh, &mut events);
    let ghost with_roots = store@;
    settle_replies(store, remote, late, &mut events);
    proof {
        let n = new_roots_in(old(store)@.threads(), fetched_views(remote@)).len();
        let more = added_in_all(with_roots, fetched_views(remote@), late@, remote.len() as nat);
        assert(roots.len() == n);
        assert(events@ =~= changes(n + more));
    }
    Merged { outgoing: local_only_comments(store), events }
}

/// Whether every identifier of a fresh identity is a random one.
pub open spec fn is_random(fresh: FreshThreadView) -> bool {
    &&& ids::is_random_uuid(fresh.id.0)
    &&& ids::is_random_uuid(fresh.root.id.0)
    &&& forall|i: int|
        0 <= i < fresh.replies.len() ==> ids::is_random_uuid((#[trigger] fresh.replies[i]).id.0)
}

/// As many random stamps as asked for, dated now.
fn random_stamps(count: usize) -> (r: Vec<NodeStamp>)
    ensures
        r.len() == count,
        forall|j: int| 0 <= j < count ==> ids::is_random_uuid((#[trigger] r@[j]).id.0),
{
    let mut stamps: Vec<NodeStamp> = Vec::new();
    for i in 0..count
        invariant
            stamps.len() == i,
            forall|j: int| 0 <= j < i ==> ids::is_random_uuid((#[trigger] stamps@[j]).id.0),
    {
        stamps.push(NodeStamp::fresh());
    }
    stamps
}

impl FreshThread {
    /// A random identity for a thread with a number of replies, dated now.
    pub fn random(replies: usize) -> (r: Self)
        ensures
            r.replies.len() == replies,
            is_random(r@),
    {
        FreshThread {
            id: ThreadId::new(),
            root: NodeStamp::fresh(),
            replies: random_stamps(replies),
        }
    }
}

/// Whether a store is what an import with random identifiers leaves, and some
/// events are those of the import.
pub open spec fn is_random_import(
    before: CommentStoreView,
    remote: Seq<FetchedCommentView>,
    after: CommentStoreView,
    events: Seq<CommentStoreEvent>,
) -> bool {
    exists|fresh: Seq<FreshThreadView>, late: Seq<NodeStamp>|
        {
            &&& fresh_fits(remote, new_roots_in(before.threads(), remote), fresh)
            &&& forall|k: int| 0 <= k < fresh.len() ==> is_random(#[trigger] fresh[k])
            &&& late.len() == remote.len()
            &&& forall|k: int|
                0 <= k < late.len() ==> ids::is_random_uuid((#[trigger] late[k]).id.0)
            &&& after == #[trigger] imported(before, remote, fresh, late)
            &&& events == merge_events(before, remote, fresh, late)
        }
}

/// Folds fetched remote comments into the store: a root that is not known yet
/// becomes a thread, with the replies to it; any other reply that is not known
/// yet goes to the thread of the comment that it replies to. A reply whose
/// identifier is no number could not be told from a new one the next time, so
/// it comes in with a new root only, never under a known comment. Returns the
/// local-only comments that should be pushed to the remote. Threads and nodes
/// get random identifiers.
pub fn merge_remote_comments(store: &mut CommentStore, remote: &Vec<FetchedComment>) -> (r: Merged)
    ensures
        is_random_import(old(store)@, fetched_views(remote@), final(store)@, r.events@),
        queued_views(r.outgoing@) == outgoing_of(final(store)@.threads()),
{
    let roots = new_roots(store, remote);
    let ghost views = fetched_views(remote@);
    let ghost at = roots@.map_values(|i: usize| i as int);
    let mut fresh: Vec<FreshThread> = Vec::new();
    for k in 0..roots.len()
        invariant
            views == fetched_views(remote@),
            at == roots@.map_values(|i: usize| i as int),
            forall|k: int| 0 <= k < roots.len() ==> (#[trigger] roots@[k]) < remote.len(),
            fresh.len() == k,
            forall|j: int|
                0 <= j < k ==> (#[trigger] fresh@[j]).replies.len() == replies_in(
                    views,
                    views[at[j]].comment.remote_id,
                ).len() && is_random(fresh@[j]@),
    {
        let root: usize = roots[k];
        proof {
            assert(views[root as int] == remote@[root as int]@);
            assert(at[k as int] == root as int);
        }
        let replies: usize = count_replies(remote, &remote[root].comment.remote_id);
        fresh.push(FreshThread::random(replies));
    }
    let ghost identities = fresh_views(fresh@);
    proof {
        assert forall|k: int| 0 <= k < identities.len() implies is_random(#[trigger] identities[k])
            && identities[k].replies.len() == replies_in(
            views,
            views[at[k]].comment.remote_id,
        ).len() by {
            assert(identities[k] == fresh@[k]@);
        }
    }
    let late = random_stamps(remote.len());
    merge_with(store, remote, &fresh, &late)
}

/// What a sync asks of its provider next.
pub enum SyncStep {
    /// Resolve the review unit to sync against.
    Detect { configured: Option<String> },
    /// Fetch every remote comment of the review unit.
    Fetch { unit: ReviewUnit },
    /// Create the comment at position `next` of the queue on the remote.
    Push { unit: ReviewUnit, queue: Vec<QueuedComment>, next: usize },
    /// Nothing more: the sync is over.
    Done,
    /// Nothing more: the provider failed.
    Failed,
}

/// The mathematical value of a [`SyncStep`].
#[verifier::ext_equal]
pub enum SyncStepView {
    Detect { configured: Option<Seq<char>> },
    Fetch { unit: Seq<char> },
    Push { unit: Seq<char>, queue: Seq<QueuedCommentView>, next: nat },
    Done,
    Failed,
}

impl View for SyncStep {
    type V = SyncStepView;

    open spec fn view(&self) -> SyncStepView {
        match self {
            SyncStep::Detect { configured } => SyncStepView::Detect {
                configured: comment::option_text(*configured),
            },
            SyncStep::Fetch { unit } => SyncStepView::Fetch { unit: unit@ },
            SyncStep::Push { unit, queue, next } => SyncStepView::Push {
                unit: unit@,
                queue: queued_views(queue@),
                next: *next as nat,
            },
            SyncStep::Done => SyncStepView::Done,
            SyncStep::Failed => SyncStepView::Failed,
        }
    }
}

/// What the provider replied.
pub enum SyncReply {
    /// The review unit, if there is one.
    Detected(Option<ReviewUnit>),
    /// The remote comments.
    Fetched(Vec<FetchedComment>),
    /// The comment was created, with this identifier on the remote.
    Pushed(String),
    /// The provider failed.
    Failed,
}

/// The step that pushes a queue from a position on.
pub open spec fn push_step(
    unit: Seq<char>,
    queue: Seq<QueuedCommentView>,
    next: nat,
) -> SyncStepView {
    if next < queue.len() {
        SyncStepView::Push { unit, queue, next }
    } else {
        SyncStepView::Done
    }
}

/// The step after one in which nothing was fetched. A failed push is skipped;
/// a failure to detect or to fetch ends the sync. A reply that answers another
/// question changes nothing.
pub open spec fn next_step(step: SyncStepView, reply: SyncReply) -> SyncStepView {
    match (step, reply) {
        (SyncStepView::Detect { .. }, SyncReply::Detected(None)) => SyncStepView::Done,
        (SyncStepView::Detect { .. }, SyncReply::Detected(Some(unit))) => SyncStepView::Fetch {
            unit: unit@,
        },
        (SyncStepView::Detect { .. }, SyncReply::Failed) => SyncStepView::Failed,
        (SyncStepView::Fetch { .. }, SyncReply::Failed) => SyncStepView::Failed,
        (SyncStepView::Push { unit, queue, next }, SyncReply::Pushed(_)) => push_step(
            unit,
            queue,
            next + 1,
        ),
        (SyncStepView::Push { unit, queue, next }, SyncReply::Failed) => push_step(
            unit,
            queue,
            next + 1,
        ),
        _ => step,
    }
}

/// The first step of a sync.
pub fn begin_sync(review_unit: Option<String>) -> (r: SyncStep)
    ensures
        r@ == (SyncStepView::Detect {
            configured: wanted_unit(comment::option_text(review_unit)),
        }),
{
    SyncStep::Detect { configured: configured_unit(review_unit) }
}

/// The store after a queued comment was pushed: its node carries the number
/// that the remote gave it. Without a number nothing changes.
pub open spec fn recorded(
    store: CommentStoreView,
    item: QueuedCommentView,
    number: Option<i64>,
) -> CommentStoreView {
    match number {
        Some(remote_id) => store.numbered(item.thread_id, item.comment_id, remote_id),
        None => store,
    }
}

/// The events of recording what a pushed comment is called on the remote.
pub open spec fn record_events(
    store: CommentStoreView,
    item: QueuedCommentView,
    number: Option<i64>,
) -> Seq<CommentStoreEvent> {
    if number is Some && store.has_node(item.thread_id, item.comment_id) {
        changes(1)
    } else {
        changes(0)
    }
}

/// Records the identifier that a pushed comment has on the remote.
fn record_pushed(store: &mut CommentStore, item: &QueuedComment, id: &String) -> (events: Vec<
    CommentStoreEvent,
>)
    ensures
        final(store)@ == recorded(old(store)@, item@, text::i64_value(id@)),
        events@ == record_events(old(store)@, item@, text::i64_value(id@)),
{
    let mut events: Vec<CommentStoreEvent> = Vec::new();
    match text::parse_i64(id.as_str()) {
        Some(remote_id) => {
            match store.set_node_remote_id(item.thread_id, item.comment_id, remote_id) {
                Some(event) => {
                    events.push(event);
                },
                None => {},
            }
        },
        None => {},
    }
    events
}

/// The next step of a sync, and the store's events, one for each change of the
/// store: a pull (remote comments go into the store), then a push of each
/// local-only comment, whose node gets the number that the remote gave it.
pub fn advance(step: SyncStep, reply: SyncReply, store: &mut CommentStore) -> (r: (
    SyncStep,
    Vec<CommentStoreEvent>,
))
    ensures
        match (step@, reply) {
            (SyncStepView::Fetch { unit }, SyncReply::Fetched(remote)) => {
                &&& is_random_import(old(store)@, fetched_views(remote@), final(store)@, r.1@)
                &&& r.0@ == push_step(unit, outgoing_of(final(store)@.threads()), 0)
            },
            (SyncStepView::Push { queue, next, .. }, SyncReply::Pushed(id)) => {
                &&& r.0@ == next_step(step@, reply)
                &&& if next < queue.len() {
                    let item = queue[next as int];
                    &&& final(store)@ == recorded(old(store)@, item, text::i64_value(id@))
                    &&& r.1@ == record_events(old(store)@, item, text::i64_value(id@))
                } else {
                    final(store)@ == old(store)@ && r.1@.len() == 0
                }
            },
            _ => final(store)@ == old(store)@ && r.0@ == next_step(step@, reply) && r.1@.len() == 0,
        },
{
    match (step, reply) {
        (SyncStep::Detect { .. }, SyncReply::Detected(None)) => (SyncStep::Done, Vec::new()),
        (SyncStep::Detect { .. }, SyncReply::Detected(Some(unit))) => (
            SyncStep::Fetch { unit },
            Vec::new(),
        ),
        (SyncStep::Detect { .. }, SyncReply::Failed) => (SyncStep::Failed, Vec::new()),
        (SyncStep::Fetch { .. }, SyncReply::Failed) => (SyncStep::Failed, Vec::new()),
        (SyncStep::Fetch { unit }, SyncReply::Fetched(remote)) => {
            let merged = merge_remote_comments(store, &remote);
            (push_from(unit, merged.outgoing, 0), merged.events)
        },
        (SyncStep::Push { unit, queue, next }, SyncReply::Pushed(id)) => {
            if next < queue.len() {
                let events = record_pushed(store, &queue[next], &id);
                (push_from(unit, queue, next + 1), events)
            } else {
                (SyncStep::Done, Vec::new())
            }
        },
        (SyncStep::Push { unit, queue, next }, SyncReply::Failed) => {
            if next < queue.len() {
                (push_from(unit, queue, next + 1), Vec::new())
            } else {
                (SyncStep::Done, Vec::new())
            }
        },
        (step, _) => (step, Vec::new()),
    }
}

fn push_from(unit: ReviewUnit, queue: Vec<QueuedComment>, next: usize) -> (r: SyncStep)
    ensures
        r@ == push_step(unit@, queued_views(queue@), next as nat),
{
    if next < queue.len() {
        SyncStep::Push { unit, queue, next }
    } else {
        SyncStep::Done
    }
}

} // verus!
