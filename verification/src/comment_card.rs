//! The [`CommentCard`]: a stack of independent per-comment cards shown below
//! the anchored line, in the spirit of a pull-request review thread.
//!
//! Each comment gets its own card with author, kind badge, body, and
//! per-comment actions (cycle kind, send to agent, reply). Resolve / collapse
//! / delete remain thread-wide and live on the root card.
//!
//! The card holds what the user did to it, acts on the store, and says what is
//! to be shown; drawing is left to the user interface.

use std::collections::HashSet;
use vstd::prelude::*;
use vstd::string::*;
use crate::comment::{
    CommentAuthor, CommentAuthorView, CommentKind, CommentNode, CommentNodeView, CommentStatus,
    NodeStamp,
};
#[allow(unused_imports)]
use crate::comment_store;
use crate::comment_store::{CommentStore, CommentStoreEvent, CommentStoreView};
#[allow(unused_imports)]
use crate::ids;
use crate::ids::{CommentId, ThreadId};
#[allow(unused_imports)]
use crate::store_laws;
#[allow(unused_imports)]
use crate::text;
#[allow(unused_imports)]
use crate::thread;
use crate::thread::{CommentThread, CommentThreadView, find_node};
#[allow(unused_imports)]
use crate::tree;
use crate::tree::count_descendants;

verus! {

/// What the (single, shared) input editor is currently composing.
#[derive(Clone, Copy, PartialEq, Eq, Structural, Debug)]
pub enum ReplyTarget {
    /// No open input. Non-empty threads show a small "Reply" affordance at
    /// the bottom; empty threads still show the first-comment composer.
    Closed,
    /// User clicked the bottom "Reply" affordance; the composer expands
    /// inline at the bottom of the thread and replies to the most recent
    /// node.
    Bottom,
    /// User clicked Reply on a specific comment; the input is rendered inline
    /// under that node and submits as its child.
    Node(CommentId),
}

/// A rendered inline comment thread. One card exists per visible thread.
pub struct CommentCard {
    thread_id: ThreadId,
    /// Whether the comment is still anchored to matching code; `false` renders
    /// an "Outdated" badge on the root card.
    anchored: bool,
    reply_target: ReplyTarget,
    /// Per-card transient override for resolved-thread auto-collapse. When the
    /// user clicks Expand on a resolved-and-collapsed thread, we inflate it
    /// without persisting; reopening the editor resets to the default
    /// (collapsed) state.
    force_expanded: bool,
    /// Nodes whose subtree the user has collapsed (the node itself stays
    /// visible; only its descendants are hidden). Transient — reopening the
    /// editor expands everything again.
    subtree_collapsed: HashSet<u128>,
}

/// The mathematical value of a [`CommentCard`].
#[verifier::ext_equal]
pub struct CommentCardView {
    pub thread_id: ThreadId,
    pub anchored: bool,
    pub reply_target: ReplyTarget,
    pub force_expanded: bool,
    /// The identifiers of the nodes whose subtree is collapsed.
    pub subtree_collapsed: Set<u128>,
}

impl View for CommentCard {
    type V = CommentCardView;

    closed spec fn view(&self) -> CommentCardView {
        CommentCardView {
            thread_id: self.thread_id,
            anchored: self.anchored,
            reply_target: self.reply_target,
            force_expanded: self.force_expanded,
            subtree_collapsed: self.subtree_collapsed@,
        }
    }
}

/// The kind that follows a node's kind when the user cycles it.
pub open spec fn next_kind(kind: CommentKind) -> CommentKind {
    match kind {
        CommentKind::Comment => CommentKind::Question,
        CommentKind::Question => CommentKind::Task,
        CommentKind::Task => CommentKind::Comment,
    }
}

/// The status that follows a thread's status when the user toggles it.
pub open spec fn other_status(status: CommentStatus) -> CommentStatus {
    match status {
        CommentStatus::Resolved => CommentStatus::Open,
        CommentStatus::Open => CommentStatus::Resolved,
    }
}

/// The event that a change emits, if something was there to change.
pub open spec fn event_if(changed: bool) -> Option<CommentStoreEvent> {
    if changed {
        Some(CommentStoreEvent::Changed)
    } else {
        None
    }
}

/// What became of what the user submitted.
#[derive(Clone, Copy, PartialEq, Eq, Structural, Debug)]
pub enum SubmitOutcome {
    /// The input was blank: nothing happened, and the input stays as it is.
    Ignored,
    /// The input was taken and is to be cleared; the event is the store's.
    Submitted(Option<CommentStoreEvent>),
}

/// The store after a comment of the user was added to a thread.
pub open spec fn with_user_comment(
    store: CommentStoreView,
    thread_id: ThreadId,
    body: Seq<char>,
    parent: Option<CommentId>,
    stamp: NodeStamp,
) -> CommentStoreView {
    store.with_thread(
        thread_id,
        |t: CommentThreadView|
            CommentThreadView {
                nodes: t.nodes.push(
                    CommentNodeView {
                        id: stamp.id,
                        parent_id: parent,
                        author: CommentAuthorView::User,
                        body,
                        kind: CommentKind::Comment,
                        created_at: stamp.created_at,
                        remote_id: None,
                    },
                ),
                ..t
            },
    )
}

/// What submitting an input does to the card, the store and the input.
pub open spec fn submitted(
    card: CommentCardView,
    store: CommentStoreView,
    input: Seq<char>,
    parent: Option<CommentId>,
    stamp: NodeStamp,
) -> (CommentCardView, CommentStoreView, SubmitOutcome) {
    let body = text::trimmed(input);
    if body.len() == 0 {
        (card, store, SubmitOutcome::Ignored)
    } else {
        (
            CommentCardView { reply_target: ReplyTarget::Closed, ..card },
            with_user_comment(store, card.thread_id, body, parent, stamp),
            SubmitOutcome::Submitted(event_if(store.thread(card.thread_id) is Some)),
        )
    }
}

impl CommentCard {
    /// The card of a thread, as it is first shown.
    pub fn new(thread_id: ThreadId, anchored: bool) -> (r: Self)
        ensures
            r@ == (CommentCardView {
                thread_id,
                anchored,
                reply_target: ReplyTarget::Closed,
                force_expanded: false,
                subtree_collapsed: Set::empty(),
            }),
    {
        CommentCard {
            thread_id,
            anchored,
            reply_target: ReplyTarget::Closed,
            force_expanded: false,
            subtree_collapsed: HashSet::new(),
        }
    }

    pub fn thread_id(&self) -> (r: ThreadId)
        ensures
            r == self@.thread_id,
    {
        self.thread_id
    }

    /// Collapses a node's subtree, or expands it again.
    pub fn toggle_subtree_collapsed(&mut self, node_id: CommentId)
        ensures
            final(self)@ == (CommentCardView {
                subtree_collapsed: if old(self)@.subtree_collapsed.contains(node_id.0) {
                    old(self)@.subtree_collapsed.remove(node_id.0)
                } else {
                    old(self)@.subtree_collapsed.insert(node_id.0)
                },
                ..old(self)@
            }),
    {
        broadcast use vstd::std_specs::hash::group_hash_axioms;

        if !self.subtree_collapsed.remove(&node_id.0) {
            proof {
                assert(self.subtree_collapsed@ =~= old(self).subtree_collapsed@);
            }
            self.subtree_collapsed.insert(node_id.0);
        }
    }

    /// Sets whether a resolved thread is inflated. Returns whether the card
    /// has to be drawn again.
    pub fn set_force_expanded(&mut self, value: bool) -> (changed: bool)
        ensures
            final(self)@ == (CommentCardView { force_expanded: value, ..old(self)@ }),
            changed == (old(self)@.force_expanded != value),
    {
        let changed = self.force_expanded != value;
        if changed {
            self.force_expanded = value;
        }
        changed
    }

    /// Sets whether the comment is still anchored to matching code. Returns
    /// whether the card has to be drawn again.
    pub fn set_anchored(&mut self, anchored: bool) -> (changed: bool)
        ensures
            final(self)@ == (CommentCardView { anchored, ..old(self)@ }),
            changed == (old(self)@.anchored != anchored),
    {
        let changed = self.anchored != anchored;
        if changed {
            self.anchored = anchored;
        }
        changed
    }

    /// Cycles a node's kind: Comment, Question, Task, and Comment again.
    pub fn cycle_node_kind(&self, store: &mut CommentStore, node_id: CommentId) -> (event: Option<
        CommentStoreEvent,
    >)
        ensures
            final(store)@ == old(store)@.with_thread(
                self@.thread_id,
                |t: CommentThreadView|
                    comment_store::with_node(
                        t,
                        node_id,
                        |n: CommentNodeView| CommentNodeView { kind: next_kind(n.kind), ..n },
                    ),
            ),
            event == event_if(old(store)@.has_node(self@.thread_id, node_id)),
    {
        let ghost before = store@;
        let ghost cycle = |t: CommentThreadView|
            comment_store::with_node(
                t,
                node_id,
                |n: CommentNodeView| CommentNodeView { kind: next_kind(n.kind), ..n },
            );
        let current = match store.thread(self.thread_id) {
            Some(thread) => match find_node(&thread.nodes, node_id) {
                Some(i) => {
                    proof {
                        assert(thread@.nodes[i as int] == thread.nodes@[i as int]@);
                    }
                    Some(thread.nodes[i].kind)
                },
                None => None,
            },
            None => None,
        };
        let next = match current {
            Some(CommentKind::Comment) => CommentKind::Question,
            Some(CommentKind::Question) => CommentKind::Task,
            _ => CommentKind::Comment,
        };
        proof {
            let set = |t: CommentThreadView|
                comment_store::with_node(
                    t,
                    node_id,
                    |n: CommentNodeView| CommentNodeView { kind: next, ..n },
                );
            comment_store::lemma_holder_index(before.files, self.thread_id);
            assert(before.thread(self.thread_id) matches Some(t) ==> set(t) == cycle(t));
            lemma_same_change(before, self.thread_id, set, cycle);
        }
        store.set_node_kind(self.thread_id, node_id, next)
    }

    /// Resolves the thread, or reopens it.
    pub fn toggle_resolved(&self, store: &mut CommentStore) -> (event: Option<CommentStoreEvent>)
        ensures
            final(store)@ == old(store)@.with_thread(
                self@.thread_id,
                |t: CommentThreadView| CommentThreadView { status: other_status(t.status), ..t },
            ),
            event == event_if(old(store)@.thread(self@.thread_id) is Some),
    {
        let ghost before = store@;
        let next = match store.thread(self.thread_id) {
            Some(thread) => match thread.status {
                CommentStatus::Resolved => CommentStatus::Open,
                CommentStatus::Open => CommentStatus::Resolved,
            },
            None => CommentStatus::Resolved,
        };
        proof {
            lemma_same_change(
                before,
                self.thread_id,
                |t: CommentThreadView| CommentThreadView { status: next, ..t },
                |t: CommentThreadView| CommentThreadView { status: other_status(t.status), ..t },
            );
        }
        store.set_thread_status(self.thread_id, next)
    }

    /// Collapses the thread, or expands it again.
    pub fn toggle_collapsed(&self, store: &mut CommentStore) -> (event: Option<CommentStoreEvent>)
        ensures
            final(store)@ == old(store)@.with_thread(
                self@.thread_id,
                |t: CommentThreadView| CommentThreadView { collapsed: !t.collapsed, ..t },
            ),
            event == event_if(old(store)@.thread(self@.thread_id) is Some),
    {
        let ghost before = store@;
        let collapsed = match store.thread(self.thread_id) {
            Some(thread) => thread.collapsed,
            None => false,
        };
        proof {
            lemma_same_change(
                before,
                self.thread_id,
                |t: CommentThreadView| CommentThreadView { collapsed: !collapsed, ..t },
                |t: CommentThreadView| CommentThreadView { collapsed: !t.collapsed, ..t },
            );
        }
        store.set_thread_collapsed(self.thread_id, !collapsed)
    }

    /// Deletes the thread.
    pub fn delete_thread(&self, store: &mut CommentStore) -> (event: Option<CommentStoreEvent>)
        ensures
            final(store)@ == old(store)@.removed(self@.thread_id),
            event == event_if(old(store)@.thread(self@.thread_id) is Some),
    {
        store.remove_thread(self.thread_id)
    }

    /// Opens the input under a comment. The input is to be cleared and
    /// focused.
    pub fn open_reply(&mut self, node_id: CommentId)
        ensures
            final(self)@ == (CommentCardView {
                reply_target: ReplyTarget::Node(node_id),
                ..old(self)@
            }),
    {
        self.reply_target = ReplyTarget::Node(node_id);
    }

    /// Opens the input at the bottom. The input is to be cleared and focused.
    pub fn open_bottom_reply(&mut self)
        ensures
            final(self)@ == (CommentCardView { reply_target: ReplyTarget::Bottom, ..old(self)@ }),
    {
        self.reply_target = ReplyTarget::Bottom;
    }

    /// Closes the input. The input is to be cleared.
    pub fn cancel_reply(&mut self)
        ensures
            final(self)@ == (CommentCardView { reply_target: ReplyTarget::Closed, ..old(self)@ }),
    {
        self.reply_target = ReplyTarget::Closed;
    }

    /// Submits the input with a given stamp: its trimmed text becomes a
    /// comment of the user under `parent`. A blank input is ignored.
    pub fn submit_with(
        &mut self,
        store: &mut CommentStore,
        input: &str,
        parent: Option<CommentId>,
        stamp: NodeStamp,
    ) -> (outcome: SubmitOutcome)
        ensures
            (final(self)@, final(store)@, outcome) == submitted(
                old(self)@,
                old(store)@,
                input@,
                parent,
                stamp,
            ),
    {
        let body = text::trim(input);
        if body.as_str().unicode_len() == 0 {
            return SubmitOutcome::Ignored;
        }
        let node = CommentNode::with_stamp(
            CommentAuthor::User,
            body,
            parent,
            CommentKind::Comment,
            stamp,
        );
        let event = store.add_node(self.thread_id, node);
        self.reply_target = ReplyTarget::Closed;
        SubmitOutcome::Submitted(event)
    }

    /// Submits the input as a comment with a random identifier, dated now.
    pub fn submit(&mut self, store: &mut CommentStore, input: &str, parent: Option<CommentId>) -> (outcome:
        SubmitOutcome)
        ensures
            exists|stamp: NodeStamp|
                ids::is_random_uuid(stamp.id.0) && (final(self)@, final(store)@, outcome)
                    == #[trigger] submitted(old(self)@, old(store)@, input@, parent, stamp),
    {
        let stamp = NodeStamp::fresh();
        self.submit_with(store, input, parent, stamp)
    }

    /// Expands the thread from its one-line summary: sets the per-card
    /// override for resolved threads, and clears the persisted collapsed flag
    /// so that other threads stay expanded across opens.
    pub fn expand(&mut self, store: &mut CommentStore) -> (event: Option<CommentStoreEvent>)
        ensures
            final(self)@ == (CommentCardView { force_expanded: true, ..old(self)@ }),
            final(store)@ == old(store)@.with_thread(
                old(self)@.thread_id,
                |t: CommentThreadView| CommentThreadView { collapsed: false, ..t },
            ),
            event == event_if(
                match old(store)@.thread(old(self)@.thread_id) {
                    Some(t) => t.collapsed,
                    None => false,
                },
            ),
    {
        let _ = self.set_force_expanded(true);
        let collapsed = match store.thread(self.thread_id) {
            Some(thread) => thread.collapsed,
            None => false,
        };
        if collapsed {
            store.set_thread_collapsed(self.thread_id, false)
        } else {
            proof {
                let expand = |t: CommentThreadView| CommentThreadView { collapsed: false, ..t };
                lemma_same_change(store@, self.thread_id, |t: CommentThreadView| t, expand);
                lemma_no_change(store@, self.thread_id);
            }
            None
        }
    }

    /// Reopens a resolved thread from its one-line summary, and inflates it.
    pub fn reopen(&mut self, store: &mut CommentStore) -> (event: Option<CommentStoreEvent>)
        ensures
            final(self)@ == (CommentCardView { force_expanded: true, ..old(self)@ }),
            final(store)@ == old(store)@.with_thread(
                old(self)@.thread_id,
                |t: CommentThreadView| CommentThreadView { status: other_status(t.status), ..t },
            ),
            event == event_if(old(store)@.thread(old(self)@.thread_id) is Some),
    {
        let _ = self.set_force_expanded(true);
        self.toggle_resolved(store)
    }
}

proof fn lemma_same_change(
    store: CommentStoreView,
    id: ThreadId,
    f: spec_fn(CommentThreadView) -> CommentThreadView,
    g: spec_fn(CommentThreadView) -> CommentThreadView,
)
    requires
        store.thread(id) matches Some(t) ==> f(t) == g(t),
    ensures
        store.with_thread(id, f) == store.with_thread(id, g),
{
}

proof fn lemma_no_change(store: CommentStoreView, id: ThreadId)
    ensures
        store.with_thread(id, |t: CommentThreadView| t) == store,
{
    let files = store.files;
    comment_store::lemma_holder_index(files, id);
    match comment_store::holder_index(files, id) {
        Some(g) => {
            comment_store::lemma_thread_index(files[g].threads, id);
            let i = comment_store::thread_index(files[g].threads, id)->0;
            assert(files[g].threads.update(i, files[g].threads[i]) =~= files[g].threads);
            assert(files.update(g, files[g]) =~= files);
        },
        None => {},
    }
}

/// The colors that a card's labels have.
#[derive(Clone, Copy, PartialEq, Eq, Structural, Debug)]
pub enum LabelColor {
    Muted,
    Info,
    Warning,
    Success,
}

/// How a kind is labelled.
pub open spec fn kind_name(kind: CommentKind) -> Seq<char> {
    match kind {
        CommentKind::Comment => "Comment"@,
        CommentKind::Question => "Question"@,
        CommentKind::Task => "Task"@,
    }
}

/// The color of a kind's label.
pub open spec fn color_of_kind(kind: CommentKind) -> LabelColor {
    match kind {
        CommentKind::Comment => LabelColor::Muted,
        CommentKind::Question => LabelColor::Info,
        CommentKind::Task => LabelColor::Warning,
    }
}

/// How an author is named to the user.
pub open spec fn author_name(author: CommentAuthorView) -> Seq<char> {
    match author {
        CommentAuthorView::User => "You"@,
        CommentAuthorView::Agent => "Agent"@,
        CommentAuthorView::Remote { login } => login,
    }
}

impl CommentCard {
    /// The label of a kind.
    pub fn kind_label(kind: CommentKind) -> (r: &'static str)
        ensures
            r@ == kind_name(kind),
    {
        match kind {
            CommentKind::Comment => "Comment",
            CommentKind::Question => "Question",
            CommentKind::Task => "Task",
        }
    }

    /// The color of a kind's label.
    pub fn kind_color(kind: CommentKind) -> (r: LabelColor)
        ensures
            r == color_of_kind(kind),
    {
        match kind {
            CommentKind::Comment => LabelColor::Muted,
            CommentKind::Question => LabelColor::Info,
            CommentKind::Task => LabelColor::Warning,
        }
    }
}

fn author_label(author: &CommentAuthor) -> (r: String)
    ensures
        r@ == author_name(author@),
{
    match author {
        CommentAuthor::User => "You".to_owned(),
        CommentAuthor::Agent => "Agent".to_owned(),
        CommentAuthor::Remote { login } => login.clone(),
    }
}

/// Per-node state computed by the tree walk and consumed by
/// [`CommentCard::render_node`].
#[derive(Clone, Copy, PartialEq, Eq, Structural, Debug)]
pub struct NodeRenderState {
    pub is_root: bool,
    pub depth: usize,
    pub thread_resolved: bool,
    pub thread_collapsed: bool,
    /// True when the user has collapsed this node's subtree. The node itself
    /// still renders; descendants are skipped.
    pub subtree_collapsed: bool,
    /// Total descendants under this node (used to show "N replies hidden"
    /// when `subtree_collapsed` is true; also used to decide whether to show
    /// the chevron toggle at all).
    pub descendant_count: usize,
}

/// The toggle of a subtree.
#[derive(Clone, Copy, PartialEq, Eq, Structural, Debug)]
pub enum Chevron {
    /// The subtree is collapsed.
    Right,
    /// The subtree is expanded.
    Down,
}

/// An open input: what it replies to, the label of its submit button, and
/// whether it has a cancel button.
#[derive(Clone, Copy, Debug)]
pub struct Composer {
    pub parent: Option<CommentId>,
    pub submit_label: &'static str,
    pub show_cancel: bool,
}

/// The mathematical value of a [`Composer`].
#[verifier::ext_equal]
pub struct ComposerView {
    pub parent: Option<CommentId>,
    pub submit_label: Seq<char>,
    pub show_cancel: bool,
}

impl View for Composer {
    type V = ComposerView;

    open spec fn view(&self) -> ComposerView {
        ComposerView {
            parent: self.parent,
            submit_label: self.submit_label@,
            show_cancel: self.show_cancel,
        }
    }
}

/// The thread-wide actions of a root card: the labels of its buttons. A root
/// card can also be deleted.
#[derive(Clone, Copy, Debug)]
pub struct RootActions {
    pub collapse_label: &'static str,
    pub resolve_label: &'static str,
}

/// The mathematical value of [`RootActions`].
#[verifier::ext_equal]
pub struct RootActionsView {
    pub collapse_label: Seq<char>,
    pub resolve_label: Seq<char>,
}

impl View for RootActions {
    type V = RootActionsView;

    open spec fn view(&self) -> RootActionsView {
        RootActionsView {
            collapse_label: self.collapse_label@,
            resolve_label: self.resolve_label@,
        }
    }
}

/// One comment's card.
pub struct NodeCard {
    pub node_id: CommentId,
    pub depth: usize,
    /// Shown only when the node has replies.
    pub chevron: Option<Chevron>,
    pub author: String,
    pub kind_label: &'static str,
    pub kind_color: LabelColor,
    /// The kind stands in the header; otherwise among the actions that show
    /// on hover.
    pub kind_in_header: bool,
    pub resolved_badge: bool,
    pub outdated_badge: bool,
    /// Only the root card has them.
    pub root_actions: Option<RootActions>,
    pub body: String,
    /// How many replies are hidden, when some are.
    pub hidden_label: Option<String>,
    pub show_send_to_agent: bool,
    /// Cards of the agent are tinted.
    pub tinted: bool,
    /// The input, when the user replies to this comment.
    pub composer: Option<Composer>,
}

/// The mathematical value of a [`NodeCard`].
#[verifier::ext_equal]
pub struct NodeCardView {
    pub node_id: CommentId,
    pub depth: nat,
    pub chevron: Option<Chevron>,
    pub author: Seq<char>,
    pub kind_label: Seq<char>,
    pub kind_color: LabelColor,
    pub kind_in_header: bool,
    pub resolved_badge: bool,
    pub outdated_badge: bool,
    pub root_actions: Option<RootActionsView>,
    pub body: Seq<char>,
    pub hidden_label: Option<Seq<char>>,
    pub show_send_to_agent: bool,
    pub tinted: bool,
    pub composer: Option<ComposerView>,
}

impl View for NodeCard {
    type V = NodeCardView;

    open spec fn view(&self) -> NodeCardView {
        NodeCardView {
            node_id: self.node_id,
            depth: self.depth as nat,
            chevron: self.chevron,
            author: self.author@,
            kind_label: self.kind_label@,
            kind_color: self.kind_color,
            kind_in_header: self.kind_in_header,
            resolved_badge: self.resolved_badge,
            outdated_badge: self.outdated_badge,
            root_actions: match self.root_actions {
                Some(actions) => Some(actions@),
                None => None,
            },
            body: self.body@,
            hidden_label: match self.hidden_label {
                Some(label) => Some(label@),
                None => None,
            },
            show_send_to_agent: self.show_send_to_agent,
            tinted: self.tinted,
            composer: match self.composer {
                Some(composer) => Some(composer@),
                None => None,
            },
        }
    }
}

/// The values of a list of cards.
pub open spec fn card_views(cards: Seq<NodeCard>) -> Seq<NodeCardView> {
    cards.map_values(|c: NodeCard| c@)
}

/// How many replies are hidden, in words.
pub open spec fn replies_hidden(count: nat) -> Seq<char> {
    text::decimal(count) + " repl"@ + (if count == 1 {
        "y"@
    } else {
        "ies"@
    }) + " hidden"@
}

/// Whether an open input can be cancelled: not the one of an empty thread.
pub open spec fn can_cancel(card: CommentCardView) -> bool {
    card.reply_target != ReplyTarget::Closed
}

/// The card of a node in a given state.
pub open spec fn node_card_of(
    card: CommentCardView,
    node: CommentNodeView,
    state: NodeRenderState,
) -> NodeCardView {
    NodeCardView {
        node_id: node.id,
        depth: state.depth as nat,
        chevron: if state.descendant_count == 0 {
            None
        } else if state.subtree_collapsed {
            Some(Chevron::Right)
        } else {
            Some(Chevron::Down)
        },
        author: author_name(node.author),
        kind_label: kind_name(node.kind),
        kind_color: color_of_kind(node.kind),
        kind_in_header: node.kind != CommentKind::Comment,
        resolved_badge: state.is_root && state.thread_resolved,
        outdated_badge: state.is_root && !card.anchored,
        root_actions: if state.is_root {
            Some(
                RootActionsView {
                    collapse_label: if state.thread_collapsed {
                        "Expand"@
                    } else {
                        "Collapse"@
                    },
                    resolve_label: if state.thread_resolved {
                        "Reopen"@
                    } else {
                        "Resolve"@
                    },
                },
            )
        } else {
            None
        },
        body: node.body,
        hidden_label: if state.subtree_collapsed && state.descendant_count > 0 {
            Some(replies_hidden(state.descendant_count as nat))
        } else {
            None
        },
        show_send_to_agent: !(node.author is Agent),
        tinted: node.author is Agent,
        composer: if card.reply_target == ReplyTarget::Node(node.id) {
            Some(
                ComposerView {
                    parent: Some(node.id),
                    submit_label: "Reply"@,
                    show_cancel: can_cancel(card),
                },
            )
        } else {
            None
        },
    }
}

/// The state in which the walk shows a node.
pub open spec fn render_state(
    card: CommentCardView,
    thread: CommentThreadView,
    node: CommentNodeView,
    is_root: bool,
    depth: nat,
) -> NodeRenderState {
    NodeRenderState {
        is_root,
        depth: depth as usize,
        thread_resolved: thread.status == CommentStatus::Resolved,
        thread_collapsed: thread.collapsed,
        subtree_collapsed: card.subtree_collapsed.contains(node.id.0),
        descendant_count: tree::descendant_count(thread.nodes, node.id) as usize,
    }
}

/// The cards of a node and of everything below it that is not hidden, as far
/// down as `levels` levels, each node followed by its replies.
pub open spec fn subtree_cards(
    card: CommentCardView,
    thread: CommentThreadView,
    node: CommentNodeView,
    is_root: bool,
    depth: nat,
    levels: nat,
) -> Seq<NodeCardView>
    decreases levels, 0nat,
{
    let own = seq![
        node_card_of(card, node, render_state(card, thread, node, is_root, depth)),
    ];
    if levels == 0 || card.subtree_collapsed.contains(node.id.0) {
        own
    } else {
        own + list_cards(
            card,
            thread,
            thread::children_of(thread.nodes, node.id),
            depth + 1,
            (levels - 1) as nat,
        )
    }
}

/// The cards of replies and of everything below them that is not hidden.
pub open spec fn list_cards(
    card: CommentCardView,
    thread: CommentThreadView,
    list: Seq<CommentNodeView>,
    depth: nat,
    levels: nat,
) -> Seq<NodeCardView>
    decreases levels, 1 + list.len(),
{
    if list.len() == 0 {
        Seq::empty()
    } else {
        list_cards(card, thread, list.drop_last(), depth, levels) + subtree_cards(
            card,
            thread,
            list.last(),
            false,
            depth,
            levels,
        )
    }
}

/// The cards of a thread, depth first from its root.
pub open spec fn tree_cards(card: CommentCardView, thread: CommentThreadView) -> Seq<NodeCardView> {
    match thread::root_index(thread.nodes) {
        Some(r) => subtree_cards(card, thread, thread.nodes[r], true, 0, thread.nodes.len()),
        None => Seq::empty(),
    }
}

/// Whether a thread's tree can be drawn: the walk from its root comes to an
/// end, and the number of comments below it can be counted.
pub open spec fn can_draw(thread: CommentThreadView) -> bool {
    match thread::root_index(thread.nodes) {
        Some(r) => {
            &&& tree::walk_ends(thread.nodes, thread.nodes[r].id)
            &&& tree::descendant_count(thread.nodes, thread.nodes[r].id) <= usize::MAX
        },
        None => true,
    }
}

impl CommentCard {
    /// The card of one comment.
    pub fn render_node(&self, node: &CommentNode, state: NodeRenderState) -> (r: NodeCard)
        ensures
            r@ == node_card_of(self@, node@, state),
    {
        let hidden_label = if state.subtree_collapsed && state.descendant_count > 0 {
            let mut label = text::u64_to_decimal(state.descendant_count as u64);
            label.append(" repl");
            label.append(
                if state.descendant_count == 1 {
                    "y"
                } else {
                    "ies"
                },
            );
            label.append(" hidden");
            Some(label)
        } else {
            None
        };
        let chevron = if state.descendant_count == 0 {
            None
        } else if state.subtree_collapsed {
            Some(Chevron::Right)
        } else {
            Some(Chevron::Down)
        };
        let root_actions = if state.is_root {
            Some(
                RootActions {
                    collapse_label: if state.thread_collapsed {
                        "Expand"
                    } else {
                        "Collapse"
                    },
                    resolve_label: if state.thread_resolved {
                        "Reopen"
                    } else {
                        "Resolve"
                    },
                },
            )
        } else {
            None
        };
        let composer = if self.reply_target == ReplyTarget::Node(node.id) {
            Some(self.composer(Some(node.id), "Reply"))
        } else {
            None
        };
        let by_agent = node.author.is_agent();
        NodeCard {
            node_id: node.id,
            depth: state.depth,
            chevron,
            author: author_label(&node.author),
            kind_label: CommentCard::kind_label(node.kind),
            kind_color: CommentCard::kind_color(node.kind),
            kind_in_header: node.kind != CommentKind::Comment,
            resolved_badge: state.is_root && state.thread_resolved,
            outdated_badge: state.is_root && !self.anchored,
            root_actions,
            body: node.body.clone(),
            hidden_label,
            show_send_to_agent: !by_agent,
            tinted: by_agent,
            composer,
        }
    }

    /// An open input.
    fn composer(&self, parent: Option<CommentId>, submit_label: &'static str) -> (r: Composer)
        ensures
            r@ == (ComposerView {
                parent,
                submit_label: submit_label@,
                show_cancel: can_cancel(self@),
            }),
    {
        Composer { parent, submit_label, show_cancel: self.reply_target != ReplyTarget::Closed }
    }

    /// Adds the cards of a node and of what is below it. Children come
    /// directly under their parent so the visual order mirrors reply nesting.
    /// If a node's subtree is collapsed, its descendants are skipped (but the
    /// node itself still gets its card).
    fn walk(
        &self,
        thread: &CommentThread,
        node: &CommentNode,
        is_root: bool,
        depth: usize,
        out: &mut Vec<NodeCard>,
        Ghost(levels): Ghost<nat>,
    )
        requires
            tree::shallow(thread@.nodes, node.id, levels),
            tree::size_below(thread@.nodes, node.id, levels) <= usize::MAX,
            depth + levels <= usize::MAX,
            levels <= thread@.nodes.len(),
        ensures
            card_views(final(out)@) == card_views(old(out)@) + subtree_cards(
                self@,
                thread@,
                node@,
                is_root,
                depth as nat,
                levels,
            ),
        decreases levels,
    {
        broadcast use vstd::std_specs::hash::group_hash_axioms;

        let ghost nodes = thread@.nodes;
        proof {
            assert(tree::walk_ends(nodes, node.id));
            tree::lemma_size_below_settled(nodes, node.id, levels, nodes.len());
        }
        let subtree_collapsed = self.subtree_collapsed.contains(&node.id.0);
        let descendant_count: usize = count_descendants(thread, node.id);
        let state = NodeRenderState {
            is_root,
            depth,
            thread_resolved: thread.status == CommentStatus::Resolved,
            thread_collapsed: thread.collapsed,
            subtree_collapsed,
            descendant_count,
        };
        let own = self.render_node(node, state);
        let ghost shown = own@;
        let ghost before = card_views(out@);
        out.push(own);
        proof {
            assert(card_views(out@) =~= before + seq![shown]);
        }
        if subtree_collapsed {
            return;
        }
        let kids = thread.children(node.id);
        let ghost list = thread::children_of(nodes, node.id);
        let ghost start = card_views(out@);
        proof {
            tree::lemma_shallow_by_children(nodes, node.id, levels);
            assert(list.take(0) =~= Seq::empty());
            assert(start + list_cards(
                self@,
                thread@,
                list.take(0),
                depth as nat + 1,
                (levels - 1) as nat,
            ) =~= start);
        }
        for i in 0..kids.len()
            invariant
                nodes == thread@.nodes,
                list == thread::node_ref_views(kids@),
                list == thread::children_of(nodes, node.id),
                depth + levels <= usize::MAX,
                levels <= nodes.len(),
                tree::size_below(nodes, node.id, levels) <= usize::MAX,
                forall|j: int|
                    0 <= j < list.len() ==> levels > 0 && tree::shallow(
                        nodes,
                        (#[trigger] list[j]).id,
                        (levels - 1) as nat,
                    ),
                card_views(out@) == start + list_cards(
                    self@,
                    thread@,
                    list.take(i as int),
                    depth as nat + 1,
                    (levels - 1) as nat,
                ),
        {
            proof {
                assert(list[i as int] == kids@[i as int]@);
                assert(list.take(i + 1).drop_last() =~= list.take(i as int));
                tree::lemma_size_of_member(nodes, list, (levels - 1) as nat, i as int);
            }
            self.walk(thread, kids[i], false, depth + 1, out, Ghost((levels - 1) as nat));
            proof {
                assert(card_views(out@) =~= start + list_cards(
                    self@,
                    thread@,
                    list.take(i + 1),
                    depth as nat + 1,
                    (levels - 1) as nat,
                ));
            }
        }
        proof {
            assert(list.take(list.len() as int) =~= list);
            if levels == 0 {
                if list.len() > 0 {
                    assert(list[0] == list[0]);
                }
                assert(list_cards(self@, thread@, list, depth as nat + 1, (levels - 1) as nat)
                    =~= Seq::empty());
            }
            assert(card_views(out@) =~= before + subtree_cards(
                self@,
                thread@,
                node@,
                is_root,
                depth as nat,
                levels,
            ));
        }
    }

    /// The cards of a thread, depth first from its root.
    pub fn render_tree(&self, thread: &CommentThread) -> (r: Vec<NodeCard>)
        requires
            can_draw(thread@),
        ensures
            card_views(r@) == tree_cards(self@, thread@),
    {
        let mut out: Vec<NodeCard> = Vec::new();
        proof {
            assert(card_views(out@) =~= Seq::empty());
        }
        match thread.root() {
            Some(root) => {
                proof {
                    thread::lemma_root_index(thread@.nodes);
                    tree::lemma_walk_ends_within_nodes(thread@.nodes, root.id);
                    assert(thread.nodes.len() == thread@.nodes.len());
                }
                self.walk(thread, root, true, 0, &mut out, Ghost(thread@.nodes.len()));
                proof {
                    assert(card_views(out@) =~= tree_cards(self@, thread@));
                }
            },
            None => {},
        }
        out
    }
}

/// The most recent node: the one with the latest date, and the last of those.
pub open spec fn latest(nodes: Seq<CommentNodeView>) -> Option<int>
    decreases nodes.len(),
{
    if nodes.len() == 0 {
        None
    } else {
        match latest(nodes.drop_last()) {
            Some(i) => if nodes.last().created_at >= nodes[i].created_at {
                Some(nodes.len() - 1)
            } else {
                Some(i)
            },
            None => Some(nodes.len() - 1),
        }
    }
}

/// The input at the bottom of a thread: it replies to the most recent node,
/// or writes the first comment.
pub open spec fn bottom_composer_of(card: CommentCardView, thread: CommentThreadView) -> ComposerView {
    ComposerView {
        parent: match latest(thread.nodes) {
            Some(i) => Some(thread.nodes[i].id),
            None => None,
        },
        submit_label: if thread.nodes.len() == 0 {
            "Comment"@
        } else {
            "Reply"@
        },
        show_cancel: can_cancel(card),
    }
}

/// The names of the authors, each once, in the order in which they first
/// wrote.
pub open spec fn distinct_authors(nodes: Seq<CommentNodeView>) -> Seq<Seq<char>>
    decreases nodes.len(),
{
    if nodes.len() == 0 {
        Seq::empty()
    } else {
        let before = distinct_authors(nodes.drop_last());
        let name = author_name(nodes.last().author);
        if before.contains(name) {
            before
        } else {
            before.push(name)
        }
    }
}

/// The authors in a few words: all of them, or the first two and how many
/// more there are.
pub open spec fn author_summary(authors: Seq<Seq<char>>) -> Seq<char> {
    if authors.len() <= 3 {
        text::joined(authors, ", "@)
    } else {
        text::joined(authors.take(2), ", "@) + ", +"@ + text::decimal((authors.len() - 2) as nat)
    }
}

/// The one-line summary of a thread.
pub open spec fn summary_of(thread: CommentThreadView) -> Seq<char> {
    let resolved = thread.status == CommentStatus::Resolved;
    let count = text::decimal(thread.nodes.len());
    let authors = author_summary(distinct_authors(thread.nodes));
    let lead = if resolved {
        "✓ Resolved"@
    } else {
        count + " comment(s) — collapsed"@
    };
    if authors.len() == 0 {
        lead
    } else if resolved {
        lead + " · "@ + count + " · "@ + authors
    } else {
        lead + " · "@ + authors
    }
}

/// The one line that a thread shrinks to when it is collapsed or resolved.
pub struct CompactStrip {
    pub summary: String,
    pub color: LabelColor,
    pub show_reopen: bool,
}

/// The mathematical value of a [`CompactStrip`].
#[verifier::ext_equal]
pub struct CompactStripView {
    pub summary: Seq<char>,
    pub color: LabelColor,
    pub show_reopen: bool,
}

impl View for CompactStrip {
    type V = CompactStripView;

    open spec fn view(&self) -> CompactStripView {
        CompactStripView {
            summary: self.summary@,
            color: self.color,
            show_reopen: self.show_reopen,
        }
    }
}

/// The strip of a thread.
pub open spec fn strip_of(thread: CommentThreadView) -> CompactStripView {
    CompactStripView {
        summary: summary_of(thread),
        color: if thread.status == CommentStatus::Resolved {
            LabelColor::Success
        } else {
            LabelColor::Muted
        },
        show_reopen: thread.status == CommentStatus::Resolved,
    }
}

/// Whether a thread shrinks to one line: it has a comment, and it is
/// collapsed, or resolved and not inflated by the user.
pub open spec fn is_compact(card: CommentCardView, thread: CommentThreadView) -> bool {
    thread::root_index(thread.nodes) is Some && (thread.collapsed || (thread.status
        == CommentStatus::Resolved && !card.force_expanded))
}

/// What stands below the cards of a thread.
pub enum CardFooter {
    /// A button that opens the input at the bottom.
    ReplyButton,
    /// The input at the bottom.
    Input(Composer),
    /// Nothing: the input is open under a comment.
    Nothing,
}

/// What a card shows.
pub enum CardContent {
    /// The thread is gone: nothing.
    Nothing,
    /// The thread in one line.
    Strip(CompactStrip),
    /// The input for the first comment.
    FirstComment(Composer),
    /// The comments, and what stands below them.
    Comments { cards: Vec<NodeCard>, footer: CardFooter },
}

/// The mathematical value of a [`CardFooter`].
#[verifier::ext_equal]
pub enum CardFooterView {
    ReplyButton,
    Input(ComposerView),
    Nothing,
}

/// The mathematical value of a [`CardContent`].
#[verifier::ext_equal]
pub enum CardContentView {
    Nothing,
    Strip(CompactStripView),
    FirstComment(ComposerView),
    Comments { cards: Seq<NodeCardView>, footer: CardFooterView },
}

impl View for CardFooter {
    type V = CardFooterView;

    open spec fn view(&self) -> CardFooterView {
        match self {
            CardFooter::ReplyButton => CardFooterView::ReplyButton,
            CardFooter::Input(composer) => CardFooterView::Input(composer@),
            CardFooter::Nothing => CardFooterView::Nothing,
        }
    }
}

impl View for CardContent {
    type V = CardContentView;

    open spec fn view(&self) -> CardContentView {
        match self {
            CardContent::Nothing => CardContentView::Nothing,
            CardContent::Strip(strip) => CardContentView::Strip(strip@),
            CardContent::FirstComment(composer) => CardContentView::FirstComment(composer@),
            CardContent::Comments { cards, footer } => CardContentView::Comments {
                cards: card_views(cards@),
                footer: footer@,
            },
        }
    }
}

/// What the card of a thread shows.
pub open spec fn content_of(card: CommentCardView, thread: CommentThreadView) -> CardContentView {
    if is_compact(card, thread) {
        CardContentView::Strip(strip_of(thread))
    } else if thread::root_index(thread.nodes) is None {
        CardContentView::FirstComment(bottom_composer_of(card, thread))
    } else {
        CardContentView::Comments {
            cards: tree_cards(card, thread),
            footer: match card.reply_target {
                ReplyTarget::Closed => CardFooterView::ReplyButton,
                ReplyTarget::Bottom => CardFooterView::Input(bottom_composer_of(card, thread)),
                ReplyTarget::Node(_) => CardFooterView::Nothing,
            },
        }
    }
}

/// The names of the authors, each once.
fn collect_authors(nodes: &Vec<CommentNode>) -> (r: Vec<String>)
    ensures
        text::texts(r@) == distinct_authors(thread::node_views(nodes@)),
{
    let ghost views = thread::node_views(nodes@);
    let mut authors: Vec<String> = Vec::new();
    proof {
        assert(views.take(0) =~= Seq::empty());
        assert(text::texts(authors@) =~= Seq::empty());
    }
    for i in 0..nodes.len()
        invariant
            views == thread::node_views(nodes@),
            text::texts(authors@) == distinct_authors(views.take(i as int)),
    {
        proof {
            assert(views[i as int] == nodes@[i as int]@);
            assert(views.take(i + 1).drop_last() =~= views.take(i as int));
        }
        let name = author_label(&nodes[i].author);
        let ghost known = text::texts(authors@);
        let mut seen = false;
        for k in 0..authors.len()
            invariant
                known == text::texts(authors@),
                seen == (exists|j: int| 0 <= j < k && #[trigger] known[j] == name@),
        {
            proof {
                assert(known[k as int] == authors@[k as int]@);
            }
            if authors[k] == name {
                seen = true;
            }
        }
        if !seen {
            proof {
                assert(text::texts(authors@.push(name)) =~= known.push(name@));
            }
            authors.push(name);
        }
    }
    proof {
        assert(views.take(views.len() as int) =~= views);
    }
    authors
}

impl CommentCard {
    /// The one-line summary used when the thread is collapsed or resolved.
    /// Avoids the full card so closed threads recede into the background.
    pub fn render_compact_strip(&self, thread: &CommentThread) -> (r: CompactStrip)
        ensures
            r@ == strip_of(thread@),
    {
        let resolved = thread.status == CommentStatus::Resolved;
        let count = text::u64_to_decimal(thread.nodes.len() as u64);
        let authors = collect_authors(&thread.nodes);
        let ghost names = text::texts(authors@);
        let summary_of_authors = if authors.len() <= 3 {
            text::join(&authors, ", ")
        } else {
            let mut some = text::join_first(&authors, 2, ", ");
            some.append(", +");
            some.append(text::u64_to_decimal((authors.len() - 2) as u64).as_str());
            some
        };
        proof {
            assert(summary_of_authors@ =~= author_summary(names));
        }
        let mut summary = if resolved {
            "✓ Resolved".to_owned()
        } else {
            let mut lead = count.clone();
            lead.append(" comment(s) — collapsed");
            lead
        };
        if summary_of_authors.as_str().unicode_len() > 0 {
            if resolved {
                summary.append(" · ");
                summary.append(count.as_str());
            }
            summary.append(" · ");
            summary.append(summary_of_authors.as_str());
        }
        proof {
            assert(summary@ =~= summary_of(thread@));
        }
        let color = if resolved {
            LabelColor::Success
        } else {
            LabelColor::Muted
        };
        CompactStrip { summary, color, show_reopen: resolved }
    }

    /// The input at the bottom of a thread. Replies attach to the most
    /// recently added node so a linear conversation extends naturally; the
    /// first comment on an empty thread becomes the root.
    pub fn render_bottom_composer(&self, thread: &CommentThread) -> (r: Composer)
        ensures
            r@ == bottom_composer_of(self@, thread@),
    {
        let ghost views = thread@.nodes;
        if thread.nodes.len() == 0 {
            return self.composer(None, "Comment");
        }
        let mut best: usize = 0;
        proof {
            assert(views.take(1).drop_last() =~= Seq::empty());
            assert(latest(Seq::<CommentNodeView>::empty()) is None);
        }
        for i in 1..thread.nodes.len()
            invariant
                views == thread@.nodes,
                best < i,
                i <= thread.nodes.len(),
                latest(views.take(i as int)) == Some(best as int),
        {
            proof {
                assert(views[i as int] == thread.nodes@[i as int]@);
                assert(views[best as int] == thread.nodes@[best as int]@);
                assert(views.take(i + 1).drop_last() =~= views.take(i as int));
            }
            if thread.nodes[i].created_at >= thread.nodes[best].created_at {
                best = i;
            }
        }
        proof {
            assert(views.take(views.len() as int) =~= views);
            assert(views[best as int] == thread.nodes@[best as int]@);
        }
        self.composer(Some(thread.nodes[best].id), "Reply")
    }

    /// Whether a thread shrinks to one line.
    pub fn shows_compact(&self, thread: &CommentThread) -> (r: bool)
        ensures
            r == is_compact(self@, thread@),
    {
        thread.root().is_some() && (thread.collapsed || (thread.status == CommentStatus::Resolved
            && !self.force_expanded))
    }

    /// What the card shows. Resolved threads auto-collapse to a compact strip
    /// so closed conversations don't keep eating editor space; the user can
    /// inflate them transiently.
    pub fn render(&self, store: &CommentStore) -> (r: CardContent)
        requires
            store@.thread(self@.thread_id) matches Some(t) ==> is_compact(self@, t) || can_draw(t),
        ensures
            r@ == (match store@.thread(self@.thread_id) {
                Some(t) => content_of(self@, t),
                None => CardContentView::Nothing,
            }),
    {
        let thread = match store.thread(self.thread_id) {
            Some(thread) => thread,
            None => {
                return CardContent::Nothing;
            },
        };
        if self.shows_compact(thread) {
            CardContent::Strip(self.render_compact_strip(thread))
        } else if thread.root().is_none() {
            CardContent::FirstComment(self.render_bottom_composer(thread))
        } else {
            let cards = self.render_tree(thread);
            let footer = match self.reply_target {
                ReplyTarget::Closed => CardFooter::ReplyButton,
                ReplyTarget::Bottom => CardFooter::Input(self.render_bottom_composer(thread)),
                ReplyTarget::Node(_) => CardFooter::Nothing,
            };
            CardContent::Comments { cards, footer }
        }
    }
}

/// A rendered body: the node it belongs to, the text it was made of, and what
/// was made of it.
pub struct CachedMarkdown<M> {
    pub node_id: CommentId,
    pub body: String,
    pub markdown: M,
}

/// Where the rendered body of a node stands.
pub open spec fn cached_index<M>(cache: Seq<CachedMarkdown<M>>, id: CommentId) -> Option<int>
    decreases cache.len(),
{
    if cache.len() == 0 {
        None
    } else {
        match cached_index(cache.drop_last(), id) {
            Some(i) => Some(i),
            None => if cache.last().node_id == id {
                Some(cache.len() - 1)
            } else {
                None
            },
        }
    }
}

/// The rendered bodies whose node is still there.
pub open spec fn live_entries<M>(
    cache: Seq<CachedMarkdown<M>>,
    nodes: Seq<CommentNodeView>,
) -> Seq<CachedMarkdown<M>>
    decreases cache.len(),
{
    if cache.len() == 0 {
        Seq::empty()
    } else {
        let before = live_entries(cache.drop_last(), nodes);
        if thread::node_index(nodes, cache.last().node_id) is Some {
            before.push(cache.last())
        } else {
            before
        }
    }
}

/// Whether a node's body has to be rendered: it was not rendered yet, or it
/// has changed since.
pub open spec fn needs_rebuild<M>(cache: Seq<CachedMarkdown<M>>, node: CommentNodeView) -> bool {
    match cached_index(cache, node.id) {
        Some(i) => cache[i].body@ != node.body,
        None => true,
    }
}

/// Whether a cache is another one with what a node's body was rendered to, in
/// place of what was there.
pub open spec fn keeps_rendered<M>(
    before: Seq<CachedMarkdown<M>>,
    after: Seq<CachedMarkdown<M>>,
    node: CommentNodeView,
    markdown: M,
) -> bool {
    match cached_index(before, node.id) {
        Some(i) => {
            &&& after.len() == before.len()
            &&& forall|k: int|
                0 <= k < before.len() && k != i ==> (#[trigger] after[k]) == before[k]
            &&& after[i].node_id == node.id
            &&& after[i].body@ == node.body
            &&& after[i].markdown == markdown
        },
        None => {
            &&& after.len() == before.len() + 1
            &&& forall|k: int| 0 <= k < before.len() ==> (#[trigger] after[k]) == before[k]
            &&& after.last().node_id == node.id
            &&& after.last().body@ == node.body
            &&& after.last().markdown == markdown
        },
    }
}

proof fn lemma_cached_index<M>(cache: Seq<CachedMarkdown<M>>, id: CommentId)
    ensures
        match cached_index(cache, id) {
            Some(i) => {
                &&& 0 <= i < cache.len()
                &&& cache[i].node_id == id
                &&& forall|k: int| 0 <= k < i ==> (#[trigger] cache[k]).node_id != id
            },
            None => forall|k: int| 0 <= k < cache.len() ==> (#[trigger] cache[k]).node_id != id,
        },
    decreases cache.len(),
{
    if cache.len() > 0 {
        lemma_cached_index(cache.drop_last(), id);
        assert forall|k: int| 0 <= k < cache.len() - 1 implies #[trigger] cache[k]
            == cache.drop_last()[k] by {}
    }
}

fn find_cached<M>(cache: &Vec<CachedMarkdown<M>>, id: CommentId) -> (r: Option<usize>)
    ensures
        match r {
            Some(i) => cached_index(cache@, id) == Some(i as int) && i < cache.len(),
            None => cached_index(cache@, id) is None,
        },
{
    for i in 0..cache.len()
        invariant
            forall|k: int| 0 <= k < i ==> (#[trigger] cache@[k]).node_id != id,
    {
        if cache[i].node_id == id {
            proof {
                lemma_cached_index(cache@, id);
            }
            return Some(i);
        }
    }
    proof {
        lemma_cached_index(cache@, id);
    }
    None
}

/// Evicts the rendered bodies of nodes that no longer exist.
pub fn evict_markdown<M>(cache: Vec<CachedMarkdown<M>>, thread: &CommentThread) -> (r: Vec<
    CachedMarkdown<M>,
>)
    ensures
        r@ == live_entries(cache@, thread@.nodes),
{
    let ghost all = cache@;
    let mut out: Vec<CachedMarkdown<M>> = Vec::new();
    proof {
        assert(all.take(0) =~= Seq::empty());
    }
    for entry in it: cache
        invariant
            it.seq() == all,
            out@ == live_entries(all.take(it.index()), thread@.nodes),
    {
        proof {
            assert(all.take(it.index() + 1).drop_last() =~= all.take(it.index()));
            assert(all.take(it.index() + 1).last() == entry);
        }
        if find_node(&thread.nodes, entry.node_id).is_some() {
            out.push(entry);
        }
    }
    proof {
        assert(all.take(all.len() as int) =~= all);
    }
    out
}

/// Whether a node's body has to be rendered.
pub fn markdown_outdated<M>(cache: &Vec<CachedMarkdown<M>>, node: &CommentNode) -> (r: bool)
    ensures
        r == needs_rebuild(cache@, node@),
{
    match find_cached(cache, node.id) {
        Some(i) => !(cache[i].body == node.body),
        None => true,
    }
}

/// Keeps what a node's body was rendered to, in place of what was there.
pub fn keep_markdown<M>(cache: &mut Vec<CachedMarkdown<M>>, node: &CommentNode, markdown: M)
    ensures
        keeps_rendered(old(cache)@, final(cache)@, node@, markdown),
        !needs_rebuild(final(cache)@, node@),
{
    let entry = CachedMarkdown { node_id: node.id, body: node.body.clone(), markdown };
    proof {
        lemma_cached_index(cache@, node.id);
    }
    match find_cached(cache, node.id) {
        Some(i) => {
            cache[i] = entry;
        },
        None => {
            cache.push(entry);
        },
    }
    proof {
        lemma_kept_is_current(old(cache)@, cache@, node@, markdown);
    }
}

proof fn lemma_kept_is_current<M>(
    before: Seq<CachedMarkdown<M>>,
    after: Seq<CachedMarkdown<M>>,
    node: CommentNodeView,
    markdown: M,
)
    requires
        keeps_rendered(before, after, node, markdown),
    ensures
        !needs_rebuild(after, node),
{
    lemma_cached_index(before, node.id);
    lemma_cached_index(after, node.id);
    match cached_index(before, node.id) {
        Some(i) => {
            assert(after[i].node_id == node.id);
            assert forall|k: int| 0 <= k < i implies (#[trigger] after[k]).node_id != node.id by {
                assert(before[k].node_id != node.id);
            }
        },
        None => {
            assert(after[after.len() - 1].node_id == node.id);
            assert forall|k: int| 0 <= k < before.len() implies (#[trigger] after[k]).node_id
                != node.id by {
                assert(before[k].node_id != node.id);
            }
        },
    }
}

/// Keeping what one node's body was rendered to leaves every other node as
/// current, or as outdated, as it was.
pub proof fn lemma_keep_is_local<M>(
    before: Seq<CachedMarkdown<M>>,
    after: Seq<CachedMarkdown<M>>,
    node: CommentNodeView,
    markdown: M,
    other: CommentNodeView,
)
    requires
        keeps_rendered(before, after, node, markdown),
        other.id != node.id,
    ensures
        needs_rebuild(after, other) == needs_rebuild(before, other),
{
    lemma_cached_index(before, node.id);
    lemma_cached_index(before, other.id);
    lemma_cached_index(after, other.id);
    match cached_index(before, other.id) {
        Some(i) => {
            assert(after[i] == before[i]);
            let k = cached_index(after, other.id)->0;
            if k < i {
                assert(before[k].node_id != other.id);
            }
        },
        None => {
            if cached_index(after, other.id) is Some {
                let k = cached_index(after, other.id)->0;
                if k < before.len() {
                    assert(before[k].node_id != other.id);
                }
            }
        },
    }
}

/// Whether every rendered body belongs to a node.
pub open spec fn all_live<M>(
    cache: Seq<CachedMarkdown<M>>,
    nodes: Seq<CommentNodeView>,
) -> bool {
    forall|k: int|
        0 <= k < cache.len() ==> thread::node_index(nodes, (#[trigger] cache[k]).node_id) is Some
}

/// Whether no node has two rendered bodies.
pub open spec fn entries_distinct<M>(cache: Seq<CachedMarkdown<M>>) -> bool {
    forall|i: int, k: int|
        0 <= i < cache.len() && 0 <= k < cache.len() && (#[trigger] cache[i]).node_id == (
        #[trigger] cache[k]).node_id ==> i == k
}

/// After an eviction every rendered body belongs to a node; none is there that
/// was not there before, and no node has two if none had.
pub proof fn lemma_evicted_is_live<M>(
    cache: Seq<CachedMarkdown<M>>,
    nodes: Seq<CommentNodeView>,
)
    ensures
        all_live(live_entries(cache, nodes), nodes),
        forall|k: int|
            0 <= k < live_entries(cache, nodes).len() ==> cache.contains(
                #[trigger] live_entries(cache, nodes)[k],
            ),
        entries_distinct(cache) ==> entries_distinct(live_entries(cache, nodes)),
    decreases cache.len(),
{
    if cache.len() > 0 {
        let fewer = cache.drop_last();
        let before = live_entries(fewer, nodes);
        let live = live_entries(cache, nodes);
        lemma_evicted_is_live(fewer, nodes);
        assert forall|k: int| 0 <= k < live.len() implies cache.contains(#[trigger] live[k]) by {
            if k < before.len() {
                assert(fewer.contains(before[k]));
                let i = choose|i: int| 0 <= i < fewer.len() && fewer[i] == before[k];
                assert(cache[i] == live[k]);
            } else {
                assert(cache[cache.len() - 1] == live[k]);
            }
        }
        if entries_distinct(cache) {
            assert forall|i: int, k: int|
                0 <= i < fewer.len() && 0 <= k < fewer.len() && (#[trigger] fewer[i]).node_id == (
                #[trigger] fewer[k]).node_id implies i == k by {
                assert(cache[i].node_id == cache[k].node_id);
            }
            assert forall|k: int| 0 <= k < before.len() implies (#[trigger] before[k]).node_id
                != cache.last().node_id by {
                assert(fewer.contains(before[k]));
                let i = choose|i: int| 0 <= i < fewer.len() && fewer[i] == before[k];
                assert(cache[i].node_id == before[k].node_id);
                assert(cache[cache.len() - 1] == cache.last());
            }
            assert forall|i: int, k: int|
                0 <= i < live.len() && 0 <= k < live.len() && (#[trigger] live[i]).node_id == (
                #[trigger] live[k]).node_id implies i == k by {
                if i < before.len() && k < before.len() {
                    assert(before[i].node_id == before[k].node_id);
                } else if i < before.len() {
                    assert(before[i].node_id != cache.last().node_id);
                } else if k < before.len() {
                    assert(before[k].node_id != cache.last().node_id);
                }
            }
        }
    }
}

/// An eviction leaves every node of the thread as current, or as outdated, as
/// it was.
pub proof fn lemma_eviction_keeps_current<M>(
    cache: Seq<CachedMarkdown<M>>,
    nodes: Seq<CommentNodeView>,
    node: CommentNodeView,
)
    requires
        thread::node_index(nodes, node.id) is Some,
    ensures
        needs_rebuild(live_entries(cache, nodes), node) == needs_rebuild(cache, node),
        cached_index(live_entries(cache, nodes), node.id) is Some <==> cached_index(
            cache,
            node.id,
        ) is Some,
    decreases cache.len(),
{
    if cache.len() > 0 {
        let fewer = cache.drop_last();
        let before = live_entries(fewer, nodes);
        let live = live_entries(cache, nodes);
        lemma_eviction_keeps_current(fewer, nodes, node);
        lemma_cached_index(fewer, node.id);
        lemma_cached_index(before, node.id);
        if live.len() > before.len() {
            assert(live.drop_last() =~= before);
        }
    }
}

/// Whether a cache follows on another in a pass over the nodes: a node whose
/// body has to be rendered is rendered and kept, and nothing else changes.
pub open spec fn is_pass_step<M>(
    before: Seq<CachedMarkdown<M>>,
    after: Seq<CachedMarkdown<M>>,
    node: CommentNodeView,
) -> bool {
    if needs_rebuild(before, node) {
        exists|markdown: M| keeps_rendered(before, after, node, markdown)
    } else {
        after == before
    }
}

proof fn lemma_keep_is_distinct<M>(
    before: Seq<CachedMarkdown<M>>,
    after: Seq<CachedMarkdown<M>>,
    node: CommentNodeView,
    markdown: M,
)
    requires
        keeps_rendered(before, after, node, markdown),
        entries_distinct(before),
    ensures
        entries_distinct(after),
{
    lemma_cached_index(before, node.id);
    assert forall|k: int| 0 <= k < before.len() implies (#[trigger] after[k]).node_id
        == before[k].node_id by {}
    assert forall|i: int, k: int|
        0 <= i < after.len() && 0 <= k < after.len() && (#[trigger] after[i]).node_id == (
        #[trigger] after[k]).node_id implies i == k by {
        if i < before.len() && k < before.len() {
            assert(before[i].node_id == before[k].node_id);
        } else if i < before.len() {
            assert(before[i].node_id != node.id);
        } else if k < before.len() {
            assert(before[k].node_id != node.id);
        }
    }
}

proof fn lemma_pass<M>(
    nodes: Seq<CommentNodeView>,
    caches: Seq<Seq<CachedMarkdown<M>>>,
    n: nat,
)
    requires
        tree::node_ids_distinct(nodes),
        caches.len() == nodes.len() + 1,
        all_live(caches[0], nodes),
        forall|i: int|
            0 <= i < nodes.len() ==> is_pass_step(caches[i], caches[i + 1], #[trigger] nodes[i]),
        n <= nodes.len(),
    ensures
        all_live(caches[n as int], nodes),
        entries_distinct(caches[0]) ==> entries_distinct(caches[n as int]),
        forall|i: int| 0 <= i < n ==> !needs_rebuild(caches[n as int], #[trigger] nodes[i]),
    decreases n,
{
    if n > 0 {
        let before = caches[n - 1];
        let after = caches[n as int];
        let node = nodes[n - 1];
        lemma_pass(nodes, caches, (n - 1) as nat);
        assert(is_pass_step(before, after, node));
        if needs_rebuild(before, node) {
            let markdown = choose|markdown: M| keeps_rendered(before, after, node, markdown);
            lemma_kept_is_current(before, after, node, markdown);
            assert forall|i: int| 0 <= i < n implies !needs_rebuild(after, #[trigger] nodes[i]) by {
                if i < n - 1 {
                    lemma_keep_is_local(before, after, node, markdown, nodes[i]);
                }
            }
            lemma_cached_index(before, node.id);
            thread::lemma_node_index(nodes, node.id);
            assert(nodes[n - 1].id == node.id);
            assert forall|k: int| 0 <= k < after.len() implies thread::node_index(
                nodes,
                (#[trigger] after[k]).node_id,
            ) is Some by {
                if k < before.len() {
                    assert(thread::node_index(nodes, before[k].node_id) is Some);
                }
            }
            if entries_distinct(before) {
                lemma_keep_is_distinct(before, after, node, markdown);
            }
        }
    }
}

/// A pass over the nodes, after an eviction, that renders and keeps the bodies
/// that have to be rendered leaves every node's body current, and nothing that
/// belongs to no node; no node has two rendered bodies if none had.
pub proof fn lemma_pass_leaves_all_current<M>(
    cache: Seq<CachedMarkdown<M>>,
    nodes: Seq<CommentNodeView>,
    caches: Seq<Seq<CachedMarkdown<M>>>,
)
    requires
        tree::node_ids_distinct(nodes),
        caches.len() == nodes.len() + 1,
        caches[0] == live_entries(cache, nodes),
        forall|i: int|
            0 <= i < nodes.len() ==> is_pass_step(caches[i], caches[i + 1], #[trigger] nodes[i]),
    ensures
        all_live(caches.last(), nodes),
        entries_distinct(cache) ==> entries_distinct(caches.last()),
        forall|i: int| 0 <= i < nodes.len() ==> !needs_rebuild(caches.last(), #[trigger] nodes[i]),
{
    lemma_evicted_is_live(cache, nodes);
    lemma_pass(nodes, caches, nodes.len());
}

/// Cycling a kind three times, or toggling a status twice, gives it back.
pub proof fn lemma_cycles_close(kind: CommentKind, status: CommentStatus)
    ensures
        next_kind(next_kind(next_kind(kind))) == kind,
        next_kind(kind) != kind,
        other_status(other_status(status)) == status,
        other_status(status) != status,
{
}

/// A change to a thread that is taken back leaves the store as it was.
proof fn lemma_change_taken_back(
    store: CommentStoreView,
    id: ThreadId,
    f: spec_fn(CommentThreadView) -> CommentThreadView,
)
    requires
        forall|t: CommentThreadView| (#[trigger] f(t)).id == t.id && f(f(t)) == t,
    ensures
        store.with_thread(id, f).with_thread(id, f) == store,
{
    let files = store.files;
    comment_store::lemma_holder_index(files, id);
    match comment_store::holder_index(files, id) {
        Some(g) => {
            let list = files[g].threads;
            comment_store::lemma_thread_index(list, id);
            let i = comment_store::thread_index(list, id)->0;
            let changed = list.update(i, f(list[i]));
            let once = comment_store::with_thread(files, id, f);
            comment_store::lemma_thread_index(changed, id);
            assert(changed[i].id == id);
            assert forall|j: int| 0 <= j < i implies (#[trigger] changed[j]).id != id by {
                assert(list[j].id != id);
            }
            assert(comment_store::thread_index(changed, id) == Some(i));
            comment_store::lemma_holder_index(once, id);
            assert(comment_store::thread_index(once[g].threads, id) is Some);
            assert forall|j: int| 0 <= j < g implies comment_store::thread_index(
                (#[trigger] once[j]).threads,
                id,
            ) is None by {
                assert(comment_store::thread_index(files[j].threads, id) is None);
            }
            assert(comment_store::holder_index(once, id) == Some(g));
            assert(changed.update(i, f(changed[i])) =~= list);
            assert(comment_store::with_thread(once, id, f) =~= files);
        },
        None => {},
    }
}

/// Toggling a thread's status twice, or its collapsed flag twice, leaves the
/// store as it was.
pub proof fn lemma_toggling_twice(store: CommentStoreView, id: ThreadId)
    ensures
        ({
            let resolve = |t: CommentThreadView|
                CommentThreadView { status: other_status(t.status), ..t };
            store.with_thread(id, resolve).with_thread(id, resolve) == store
        }),
        ({
            let collapse = |t: CommentThreadView|
                CommentThreadView { collapsed: !t.collapsed, ..t };
            store.with_thread(id, collapse).with_thread(id, collapse) == store
        }),
{
    lemma_change_taken_back(
        store,
        id,
        |t: CommentThreadView| CommentThreadView { status: other_status(t.status), ..t },
    );
    lemma_change_taken_back(
        store,
        id,
        |t: CommentThreadView| CommentThreadView { collapsed: !t.collapsed, ..t },
    );
}

/// Once the user has expanded a thread from its one line, it is no longer
/// shown in one line.
pub proof fn lemma_expanded_is_not_compact(
    card: CommentCardView,
    store: CommentStoreView,
    thread: CommentThreadView,
)
    requires
        store.thread(card.thread_id) == Some(thread),
    ensures
        ({
            let after = store.with_thread(
                card.thread_id,
                |t: CommentThreadView| CommentThreadView { collapsed: false, ..t },
            );
            &&& after.thread(card.thread_id) == Some(
                CommentThreadView { collapsed: false, ..thread },
            )
            &&& !is_compact(
                CommentCardView { force_expanded: true, ..card },
                CommentThreadView { collapsed: false, ..thread },
            )
        }),
{
    store_laws::lemma_change_then_lookup(
        store,
        card.thread_id,
        |t: CommentThreadView| CommentThreadView { collapsed: false, ..t },
        card.thread_id,
    );
}

/// What the user submits becomes the last comment of the thread, under the
/// comment replied to; every other thread stays as it was, and the input is
/// closed. A blank input changes nothing.
pub proof fn lemma_submitted_comment_is_last(
    card: CommentCardView,
    store: CommentStoreView,
    input: Seq<char>,
    parent: Option<CommentId>,
    stamp: NodeStamp,
    other: ThreadId,
)
    ensures
        ({
            let (card_after, after, outcome) = submitted(card, store, input, parent, stamp);
            &&& text::trimmed(input).len() == 0 ==> card_after == card && after == store
            &&& other != card.thread_id ==> after.thread(other) == store.thread(other)
            &&& text::trimmed(input).len() > 0 ==> card_after.reply_target == ReplyTarget::Closed
                && match store.thread(card.thread_id) {
                Some(t) => after.thread(card.thread_id) == Some(
                    CommentThreadView {
                        nodes: t.nodes.push(
                            CommentNodeView {
                                id: stamp.id,
                                parent_id: parent,
                                author: CommentAuthorView::User,
                                body: text::trimmed(input),
                                kind: CommentKind::Comment,
                                created_at: stamp.created_at,
                                remote_id: None,
                            },
                        ),
                        ..t
                    },
                ),
                None => after.thread(card.thread_id) is None,
            }
        }),
{
    let append = |t: CommentThreadView|
        CommentThreadView {
            nodes: t.nodes.push(
                CommentNodeView {
                    id: stamp.id,
                    parent_id: parent,
                    author: CommentAuthorView::User,
                    body: text::trimmed(input),
                    kind: CommentKind::Comment,
                    created_at: stamp.created_at,
                    remote_id: None,
                },
            ),
            ..t
        };
    store_laws::lemma_change_then_lookup(store, card.thread_id, append, card.thread_id);
    store_laws::lemma_change_then_lookup(store, card.thread_id, append, other);
}

/// No node is more recent than the one that the bottom input replies to, and
/// no later one is as recent.
pub proof fn lemma_latest(nodes: Seq<CommentNodeView>)
    ensures
        match latest(nodes) {
            Some(i) => {
                &&& 0 <= i < nodes.len()
                &&& forall|j: int|
                    0 <= j < nodes.len() ==> (#[trigger] nodes[j]).created_at
                        <= nodes[i].created_at
                &&& forall|j: int|
                    i < j < nodes.len() ==> (#[trigger] nodes[j]).created_at < nodes[i].created_at
            },
            None => nodes.len() == 0,
        },
    decreases nodes.len(),
{
    if nodes.len() > 0 {
        let fewer = nodes.drop_last();
        lemma_latest(fewer);
        assert forall|j: int| 0 <= j < fewer.len() implies #[trigger] nodes[j] == fewer[j] by {}
    }
}

/// In a thread whose nodes were added in the order of their dates, the bottom
/// input replies to the node that was added last.
pub proof fn lemma_latest_is_last(nodes: Seq<CommentNodeView>)
    requires
        tree::age_ordered(nodes),
        nodes.len() > 0,
    ensures
        latest(nodes) == Some(nodes.len() - 1),
{
    lemma_latest(nodes);
    let i = latest(nodes)->0;
    assert(nodes[i].created_at <= nodes[nodes.len() - 1].created_at);
}

/// While nothing is collapsed, every comment below a node has its card: there
/// is one for the node and one for each of its descendants.
pub proof fn lemma_every_comment_has_a_card(
    card: CommentCardView,
    thread: CommentThreadView,
    node: CommentNodeView,
    is_root: bool,
    depth: nat,
    levels: nat,
)
    requires
        card.subtree_collapsed =~= Set::empty(),
    ensures
        subtree_cards(card, thread, node, is_root, depth, levels).len() == 1 + tree::size_below(
            thread.nodes,
            node.id,
            levels,
        ),
    decreases levels, 0nat,
{
    if levels > 0 {
        lemma_list_has_cards(
            card,
            thread,
            thread::children_of(thread.nodes, node.id),
            depth + 1,
            (levels - 1) as nat,
        );
    }
}

proof fn lemma_list_has_cards(
    card: CommentCardView,
    thread: CommentThreadView,
    list: Seq<CommentNodeView>,
    depth: nat,
    levels: nat,
)
    requires
        card.subtree_collapsed =~= Set::empty(),
    ensures
        list_cards(card, thread, list, depth, levels).len() == tree::size_of_list(
            thread.nodes,
            list,
            levels,
        ),
    decreases levels, 1 + list.len(),
{
    if list.len() > 0 {
        lemma_list_has_cards(card, thread, list.drop_last(), depth, levels);
        lemma_every_comment_has_a_card(card, thread, list.last(), false, depth, levels);
    }
}

/// A node whose subtree is collapsed still has its own card, and nothing below
/// it has one.
pub proof fn lemma_collapsed_subtree_is_hidden(
    card: CommentCardView,
    thread: CommentThreadView,
    node: CommentNodeView,
    is_root: bool,
    depth: nat,
    levels: nat,
)
    requires
        card.subtree_collapsed.contains(node.id.0),
    ensures
        subtree_cards(card, thread, node, is_root, depth, levels) == seq![
            node_card_of(card, node, render_state(card, thread, node, is_root, depth)),
        ],
{
}

/// A thread whose comments have distinct identifiers can always be drawn.
pub proof fn lemma_distinct_comments_can_be_drawn(thread: CommentThreadView)
    requires
        tree::node_ids_distinct(thread.nodes),
        thread.nodes.len() <= usize::MAX,
    ensures
        can_draw(thread),
{
    thread::lemma_root_index(thread.nodes);
    match thread::root_index(thread.nodes) {
        Some(r) => {
            tree::lemma_root_walk_ends(thread.nodes, r);
            tree::lemma_descendants_within_nodes(thread.nodes, thread.nodes[r].id);
        },
        None => {},
    }
}

} // verus!
