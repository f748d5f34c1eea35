//! The vocabulary of comments: kinds, authors, positions and single nodes.

use vstd::prelude::*;
use crate::clock::now_timestamp;
#[allow(unused_imports)]
use crate::ids;
use crate::ids::CommentId;

verus! {

/// A worktree-relative path in its `/`-separated form.
#[derive(Debug)]
pub struct RelPath(pub String);

impl View for RelPath {
    type V = Seq<char>;

    open spec fn view(&self) -> Seq<char> {
        self.0@
    }
}

impl Clone for RelPath {
    fn clone(&self) -> (r: Self)
        ensures
            r@ == self@,
    {
        RelPath(self.0.clone())
    }
}

impl RelPath {
    /// The path as text.
    pub fn as_unix_str(&self) -> (r: &str)
        ensures
            r@ == self@,
    {
        self.0.as_str()
    }

    /// The form in which the path is persisted and exchanged.
    pub fn to_proto(&self) -> (r: String)
        ensures
            r@ == self@,
    {
        self.0.clone()
    }

    /// Whether two paths are the same.
    pub fn same(&self, other: &RelPath) -> (r: bool)
        ensures
            r == (self@ == other@),
    {
        self.0 == other.0
    }
}

/// Identifier of a change under review, as a code-review provider names it.
#[derive(Debug)]
pub struct ChangeId(pub String);

impl View for ChangeId {
    type V = Seq<char>;

    open spec fn view(&self) -> Seq<char> {
        self.0@
    }
}

impl Clone for ChangeId {
    fn clone(&self) -> (r: Self)
        ensures
            r@ == self@,
    {
        ChangeId(self.0.clone())
    }
}

/// The text of an optional change identifier.
pub open spec fn change_text(change: Option<ChangeId>) -> Option<Seq<char>> {
    match change {
        Some(id) => Some(id@),
        None => None,
    }
}

/// Copies an optional change identifier.
pub fn clone_change(change: &Option<ChangeId>) -> (r: Option<ChangeId>)
    ensures
        change_text(r) == change_text(*change),
{
    match change {
        Some(id) => Some(id.clone()),
        None => None,
    }
}

/// Whether two optional change identifiers are the same.
pub fn same_change(a: &Option<ChangeId>, b: &Option<ChangeId>) -> (r: bool)
    ensures
        r == (change_text(*a) == change_text(*b)),
{
    match (a, b) {
        (Some(x), Some(y)) => x.0 == y.0,
        (None, None) => true,
        _ => false,
    }
}

/// The text of an optional string.
pub open spec fn option_text(s: Option<String>) -> Option<Seq<char>> {
    match s {
        Some(text) => Some(text@),
        None => None,
    }
}

/// The behavior a comment requests from the agent.
#[derive(Clone, Copy, PartialEq, Eq, Structural, Debug)]
pub enum CommentKind {
    /// A plain note; no agent involvement.
    Comment,
    /// Sent to the agent on demand; its answer is appended to the tree.
    Question,
    /// Queued; delivered to the agent in a batch via `SendTasksToAgent`.
    Task,
}

impl Default for CommentKind {
    fn default() -> (r: Self)
        ensures
            r == CommentKind::Comment,
    {
        CommentKind::Comment
    }
}

/// The persisted number of a kind.
pub open spec fn kind_number(kind: CommentKind) -> i64 {
    match kind {
        CommentKind::Comment => 0,
        CommentKind::Question => 1,
        CommentKind::Task => 2,
    }
}

/// The kind that a persisted number stands for; unknown numbers stand for a
/// plain comment.
pub open spec fn kind_of_number(value: i64) -> CommentKind {
    if value == 1 {
        CommentKind::Question
    } else if value == 2 {
        CommentKind::Task
    } else {
        CommentKind::Comment
    }
}

impl CommentKind {
    /// The number under which the kind is persisted.
    pub fn to_db(self) -> (r: i64)
        ensures
            r == kind_number(self),
    {
        match self {
            CommentKind::Comment => 0,
            CommentKind::Question => 1,
            CommentKind::Task => 2,
        }
    }

    /// The kind persisted under a number.
    pub fn from_db(value: i64) -> (r: Self)
        ensures
            r == kind_of_number(value),
    {
        match value {
            1 => CommentKind::Question,
            2 => CommentKind::Task,
            _ => CommentKind::Comment,
        }
    }
}

/// Whether a comment thread is still open or has been resolved by the user.
#[derive(Clone, Copy, PartialEq, Eq, Structural, Debug)]
pub enum CommentStatus {
    Open,
    Resolved,
}

impl Default for CommentStatus {
    fn default() -> (r: Self)
        ensures
            r == CommentStatus::Open,
    {
        CommentStatus::Open
    }
}

/// The persisted number of a status.
pub open spec fn status_number(status: CommentStatus) -> i64 {
    match status {
        CommentStatus::Open => 0,
        CommentStatus::Resolved => 1,
    }
}

/// The status that a persisted number stands for; unknown numbers stand for
/// an open thread.
pub open spec fn status_of_number(value: i64) -> CommentStatus {
    if value == 1 {
        CommentStatus::Resolved
    } else {
        CommentStatus::Open
    }
}

impl CommentStatus {
    /// The number under which the status is persisted.
    pub fn to_db(self) -> (r: i64)
        ensures
            r == status_number(self),
    {
        match self {
            CommentStatus::Open => 0,
            CommentStatus::Resolved => 1,
        }
    }

    /// The status persisted under a number.
    pub fn from_db(value: i64) -> (r: Self)
        ensures
            r == status_of_number(value),
    {
        match value {
            1 => CommentStatus::Resolved,
            _ => CommentStatus::Open,
        }
    }
}

/// Who authored a comment node.
#[derive(PartialEq, Eq, Debug)]
pub enum CommentAuthor {
    /// The local user.
    User,
    /// The active agent (a reply to a question, etc.).
    Agent,
    /// A comment pulled from a remote provider, attributed to its login.
    Remote { login: String },
}

/// The mathematical value of a [`CommentAuthor`].
pub enum CommentAuthorView {
    User,
    Agent,
    Remote { login: Seq<char> },
}

impl View for CommentAuthor {
    type V = CommentAuthorView;

    open spec fn view(&self) -> CommentAuthorView {
        match self {
            CommentAuthor::User => CommentAuthorView::User,
            CommentAuthor::Agent => CommentAuthorView::Agent,
            CommentAuthor::Remote { login } => CommentAuthorView::Remote { login: login@ },
        }
    }
}

impl Clone for CommentAuthor {
    fn clone(&self) -> (r: Self)
        ensures
            r@ == self@,
    {
        match self {
            CommentAuthor::User => CommentAuthor::User,
            CommentAuthor::Agent => CommentAuthor::Agent,
            CommentAuthor::Remote { login } => CommentAuthor::Remote { login: login.clone() },
        }
    }
}

/// The persisted number and login of an author.
pub open spec fn author_columns(author: CommentAuthorView) -> (i64, Option<Seq<char>>) {
    match author {
        CommentAuthorView::User => (0, None),
        CommentAuthorView::Agent => (1, None),
        CommentAuthorView::Remote { login } => (2, Some(login)),
    }
}

/// The author that a persisted number and login stand for. Unknown numbers
/// stand for the user, and a remote author without a login has an empty one.
pub open spec fn author_of_columns(kind: i64, login: Option<Seq<char>>) -> CommentAuthorView {
    if kind == 1 {
        CommentAuthorView::Agent
    } else if kind == 2 {
        CommentAuthorView::Remote {
            login: match login {
                Some(text) => text,
                None => Seq::empty(),
            },
        }
    } else {
        CommentAuthorView::User
    }
}

impl CommentAuthor {
    /// The number and login under which the author is persisted.
    pub fn to_db(&self) -> (r: (i64, Option<String>))
        ensures
            (r.0, option_text(r.1)) == author_columns(self@),
    {
        match self {
            CommentAuthor::User => (0, None),
            CommentAuthor::Agent => (1, None),
            CommentAuthor::Remote { login } => (2, Some(login.clone())),
        }
    }

    /// The author persisted under a number and login.
    pub fn from_db(kind: i64, login: Option<String>) -> (r: Self)
        ensures
            r@ == author_of_columns(kind, option_text(login)),
    {
        match kind {
            1 => CommentAuthor::Agent,
            2 => CommentAuthor::Remote {
                login: match login {
                    Some(text) => text,
                    None => String::new(),
                },
            },
            _ => CommentAuthor::User,
        }
    }

    /// Whether the author is the agent.
    pub fn is_agent(&self) -> (r: bool)
        ensures
            r == (self@ is Agent),
    {
        match self {
            CommentAuthor::Agent => true,
            _ => false,
        }
    }

    /// Whether the author is the local user.
    pub fn is_user(&self) -> (r: bool)
        ensures
            r == (self@ is User),
    {
        match self {
            CommentAuthor::User => true,
            _ => false,
        }
    }
}

/// Every kind, status and author reads back from the numbers it is persisted
/// under.
pub proof fn lemma_persisted_numbers_round_trip(
    kind: CommentKind,
    status: CommentStatus,
    author: CommentAuthorView,
)
    ensures
        kind_of_number(kind_number(kind)) == kind,
        status_of_number(status_number(status)) == status,
        author_of_columns(author_columns(author).0, author_columns(author).1) == author,
{
}

/// The persisted position of a thread: a row/column range plus a text
/// fingerprint of the anchored line(s) used for best-effort re-anchoring.
#[derive(Debug)]
pub struct CommentAnchor {
    pub start_row: u32,
    pub start_column: u32,
    pub end_row: u32,
    pub end_column: u32,
    /// Trimmed text of the anchored line(s) at creation time.
    pub fingerprint: String,
}

/// The mathematical value of a [`CommentAnchor`].
#[verifier::ext_equal]
pub struct CommentAnchorView {
    pub start_row: u32,
    pub start_column: u32,
    pub end_row: u32,
    pub end_column: u32,
    pub fingerprint: Seq<char>,
}

impl View for CommentAnchor {
    type V = CommentAnchorView;

    open spec fn view(&self) -> CommentAnchorView {
        CommentAnchorView {
            start_row: self.start_row,
            start_column: self.start_column,
            end_row: self.end_row,
            end_column: self.end_column,
            fingerprint: self.fingerprint@,
        }
    }
}

impl Clone for CommentAnchor {
    fn clone(&self) -> (r: Self)
        ensures
            r@ == self@,
    {
        CommentAnchor {
            start_row: self.start_row,
            start_column: self.start_column,
            end_row: self.end_row,
            end_column: self.end_column,
            fingerprint: self.fingerprint.clone(),
        }
    }
}

impl Default for CommentAnchor {
    fn default() -> (r: Self)
        ensures
            r@ == (CommentAnchorView {
                start_row: 0,
                start_column: 0,
                end_row: 0,
                end_column: 0,
                fingerprint: Seq::empty(),
            }),
    {
        CommentAnchor {
            start_row: 0,
            start_column: 0,
            end_row: 0,
            end_column: 0,
            fingerprint: String::new(),
        }
    }
}

/// What sets a new node apart from every other: its identifier and its date.
#[derive(Clone, Copy, PartialEq, Eq, Structural, Debug)]
pub struct NodeStamp {
    pub id: CommentId,
    /// Unix timestamp (seconds).
    pub created_at: i64,
}

impl NodeStamp {
    /// A stamp with a random identifier and the current time.
    pub fn fresh() -> (r: Self)
        ensures
            ids::is_random_uuid(r.id.0),
    {
        NodeStamp { id: CommentId::new(), created_at: now_timestamp() }
    }
}

/// A single message within a thread's comment tree.
#[derive(Debug)]
pub struct CommentNode {
    pub id: CommentId,
    /// `None` for the thread's root comment.
    pub parent_id: Option<CommentId>,
    pub author: CommentAuthor,
    pub body: String,
    /// Per-node classification. Lets individual replies be tagged as a
    /// Question or Task even when the rest of the thread is something else
    /// (so an agent can answer with a Task-tagged "handled in <commit>" reply).
    pub kind: CommentKind,
    /// Unix timestamp (seconds).
    pub created_at: i64,
    /// Identifier on the remote provider, once synced.
    pub remote_id: Option<i64>,
}

/// The mathematical value of a [`CommentNode`].
#[verifier::ext_equal]
pub struct CommentNodeView {
    pub id: CommentId,
    pub parent_id: Option<CommentId>,
    pub author: CommentAuthorView,
    pub body: Seq<char>,
    pub kind: CommentKind,
    pub created_at: i64,
    pub remote_id: Option<i64>,
}

impl View for CommentNode {
    type V = CommentNodeView;

    open spec fn view(&self) -> CommentNodeView {
        CommentNodeView {
            id: self.id,
            parent_id: self.parent_id,
            author: self.author@,
            body: self.body@,
            kind: self.kind,
            created_at: self.created_at,
            remote_id: self.remote_id,
        }
    }
}

impl Clone for CommentNode {
    fn clone(&self) -> (r: Self)
        ensures
            r@ == self@,
    {
        CommentNode {
            id: self.id,
            parent_id: self.parent_id,
            author: self.author.clone(),
            body: self.body.clone(),
            kind: self.kind,
            created_at: self.created_at,
            remote_id: self.remote_id,
        }
    }
}

impl CommentNode {
    /// A new local node with a given stamp.
    pub fn with_stamp(
        author: CommentAuthor,
        body: String,
        parent_id: Option<CommentId>,
        kind: CommentKind,
        stamp: NodeStamp,
    ) -> (r: Self)
        ensures
            r@ == (CommentNodeView {
                id: stamp.id,
                parent_id,
                author: author@,
                body: body@,
                kind,
                created_at: stamp.created_at,
                remote_id: None,
            }),
    {
        CommentNode {
            id: stamp.id,
            parent_id,
            author,
            body,
            kind,
            created_at: stamp.created_at,
            remote_id: None,
        }
    }

    /// A new local node with a random identifier, dated now.
    pub fn new(
        author: CommentAuthor,
        body: String,
        parent_id: Option<CommentId>,
        kind: CommentKind,
    ) -> (r: Self)
        ensures
            ids::is_random_uuid(r.id.0),
            r@ == (CommentNodeView {
                id: r.id,
                parent_id,
                author: author@,
                body: body@,
                kind,
                created_at: r.created_at,
                remote_id: None,
            }),
    {
        CommentNode::with_stamp(author, body, parent_id, kind, NodeStamp::fresh())
    }
}

} // verus!
