//! The rows under which threads and comments are persisted, and how threads
//! are rebuilt from them.
//!
//! Positions are kept as row/column pairs plus a text fingerprint so they can
//! be re-anchored after the file changes.

use vstd::prelude::*;
#[allow(unused_imports)]
use crate::comment;
use crate::comment::{
    CommentAnchor, CommentAnchorView, CommentAuthor, CommentKind, CommentNode, CommentNodeView,
    CommentStatus, RelPath,
};
#[allow(unused_imports)]
use crate::comment_store;
use crate::comment_store::{CommentStore, CommentStoreEvent, CommentStoreView, FileThreads, FileThreadsView};
#[allow(unused_imports)]
use crate::ids;
use crate::ids::{CommentId, ThreadId};
#[allow(unused_imports)]
use crate::thread;
use crate::thread::{CommentThread, CommentThreadView};

verus! {

/// One persisted thread (without its workspace, which is implied by the
/// query).
#[derive(Clone, Debug)]
pub struct DbConversationRow {
    pub conversation_id: String,
    pub path: String,
    pub start_row: u32,
    pub start_column: u32,
    pub end_row: u32,
    pub end_column: u32,
    pub fingerprint: String,
    pub kind: i64,
    pub status: i64,
    pub collapsed: bool,
}

/// The mathematical value of a [`DbConversationRow`].
#[verifier::ext_equal]
pub struct DbConversationRowView {
    pub conversation_id: Seq<char>,
    pub path: Seq<char>,
    pub start_row: u32,
    pub start_column: u32,
    pub end_row: u32,
    pub end_column: u32,
    pub fingerprint: Seq<char>,
    pub kind: i64,
    pub status: i64,
    pub collapsed: bool,
}

impl View for DbConversationRow {
    type V = DbConversationRowView;

    open spec fn view(&self) -> DbConversationRowView {
        DbConversationRowView {
            conversation_id: self.conversation_id@,
            path: self.path@,
            start_row: self.start_row,
            start_column: self.start_column,
            end_row: self.end_row,
            end_column: self.end_column,
            fingerprint: self.fingerprint@,
            kind: self.kind,
            status: self.status,
            collapsed: self.collapsed,
        }
    }
}

/// One persisted comment (a single message within a thread's tree).
#[derive(Clone, Debug)]
pub struct DbCommentRow {
    pub conversation_id: String,
    pub comment_id: String,
    pub in_reply_to: Option<String>,
    pub author_kind: i64,
    pub author_login: Option<String>,
    pub body: String,
    pub created_at: i64,
    pub remote_id: Option<i64>,
    /// Per-comment CommentKind (Comment / Question / Task). Defaults to 0 for
    /// rows persisted before this column existed.
    pub kind: i64,
}

/// The mathematical value of a [`DbCommentRow`].
#[verifier::ext_equal]
pub struct DbCommentRowView {
    pub conversation_id: Seq<char>,
    pub comment_id: Seq<char>,
    pub in_reply_to: Option<Seq<char>>,
    pub author_kind: i64,
    pub author_login: Option<Seq<char>>,
    pub body: Seq<char>,
    pub created_at: i64,
    pub remote_id: Option<i64>,
    pub kind: i64,
}

impl View for DbCommentRow {
    type V = DbCommentRowView;

    open spec fn view(&self) -> DbCommentRowView {
        DbCommentRowView {
            conversation_id: self.conversation_id@,
            comment_id: self.comment_id@,
            in_reply_to: comment::option_text(self.in_reply_to),
            author_kind: self.author_kind,
            author_login: comment::option_text(self.author_login),
            body: self.body@,
            created_at: self.created_at,
            remote_id: self.remote_id,
            kind: self.kind,
        }
    }
}

/// The values of a list of conversation rows.
pub open spec fn conversation_row_views(rows: Seq<DbConversationRow>) -> Seq<DbConversationRowView> {
    rows.map_values(|row: DbConversationRow| row@)
}

/// The values of a list of comment rows.
pub open spec fn comment_row_views(rows: Seq<DbCommentRow>) -> Seq<DbCommentRowView> {
    rows.map_values(|row: DbCommentRow| row@)
}

/// The row of a thread.
pub open spec fn conversation_row(thread: CommentThreadView) -> DbConversationRowView {
    DbConversationRowView {
        conversation_id: ids::hyphenated(thread.id.0),
        path: thread.file,
        start_row: thread.anchor.start_row,
        start_column: thread.anchor.start_column,
        end_row: thread.anchor.end_row,
        end_column: thread.anchor.end_column,
        fingerprint: thread.anchor.fingerprint,
        kind: comment::kind_number(thread.kind),
        status: comment::status_number(thread.status),
        collapsed: thread.collapsed,
    }
}

/// The row of a node of a thread.
pub open spec fn comment_row(thread_id: ThreadId, node: CommentNodeView) -> DbCommentRowView {
    DbCommentRowView {
        conversation_id: ids::hyphenated(thread_id.0),
        comment_id: ids::hyphenated(node.id.0),
        in_reply_to: match node.parent_id {
            Some(parent) => Some(ids::hyphenated(parent.0)),
            None => None,
        },
        author_kind: comment::author_columns(node.author).0,
        author_login: comment::author_columns(node.author).1,
        body: node.body,
        created_at: node.created_at,
        remote_id: node.remote_id,
        kind: comment::kind_number(node.kind),
    }
}

/// The rows of a thread's nodes, in list order.
pub open spec fn comment_rows(thread: CommentThreadView) -> Seq<DbCommentRowView> {
    Seq::new(thread.nodes.len(), |i: int| comment_row(thread.id, thread.nodes[i]))
}

/// The rows of some threads.
pub open spec fn conversation_rows_of(threads: Seq<CommentThreadView>) -> Seq<
    DbConversationRowView,
> {
    Seq::new(threads.len(), |i: int| conversation_row(threads[i]))
}

/// The rows of the nodes of some threads, thread by thread.
pub open spec fn comment_rows_of(threads: Seq<CommentThreadView>) -> Seq<DbCommentRowView>
    decreases threads.len(),
{
    if threads.len() == 0 {
        Seq::empty()
    } else {
        comment_rows_of(threads.drop_last()) + comment_rows(threads.last())
    }
}

/// The node that a row stands for; `None` when one of its identifiers is not
/// valid.
pub open spec fn node_of_row(row: DbCommentRowView) -> Option<CommentNodeView> {
    match ids::comment_id_of(row.comment_id) {
        None => None,
        Some(id) => {
            let node = CommentNodeView {
                id,
                parent_id: None,
                author: comment::author_of_columns(row.author_kind, row.author_login),
                body: row.body,
                kind: comment::kind_of_number(row.kind),
                created_at: row.created_at,
                remote_id: row.remote_id,
            };
            match row.in_reply_to {
                None => Some(node),
                Some(text) => match ids::comment_id_of(text) {
                    None => None,
                    Some(parent) => Some(CommentNodeView { parent_id: Some(parent), ..node }),
                },
            }
        },
    }
}

/// The nodes that the rows of one thread stand for, in row order.
pub open spec fn nodes_of_rows(
    rows: Seq<DbCommentRowView>,
    conversation_id: Seq<char>,
) -> Seq<CommentNodeView>
    decreases rows.len(),
{
    if rows.len() == 0 {
        Seq::empty()
    } else {
        let before = nodes_of_rows(rows.drop_last(), conversation_id);
        if rows.last().conversation_id == conversation_id {
            match node_of_row(rows.last()) {
                Some(node) => before.push(node),
                None => before,
            }
        } else {
            before
        }
    }
}

/// A thread's row as it was read, with the file that its path denotes; `None`
/// when the path denotes none.
#[derive(Debug)]
pub struct LoadedConversation {
    pub row: DbConversationRow,
    pub file: Option<RelPath>,
}

/// The mathematical value of a [`LoadedConversation`].
#[verifier::ext_equal]
pub struct LoadedConversationView {
    pub row: DbConversationRowView,
    pub file: Option<Seq<char>>,
}

impl View for LoadedConversation {
    type V = LoadedConversationView;

    open spec fn view(&self) -> LoadedConversationView {
        LoadedConversationView {
            row: self.row@,
            file: match self.file {
                Some(path) => Some(path@),
                None => None,
            },
        }
    }
}

/// The values of a list of loaded rows.
pub open spec fn loaded_views(rows: Seq<LoadedConversation>) -> Seq<LoadedConversationView> {
    rows.map_values(|row: LoadedConversation| row@)
}

/// Whether a row stands for a thread: its identifier and its path are valid.
pub open spec fn is_thread_row(loaded: LoadedConversationView) -> bool {
    ids::thread_id_of(loaded.row.conversation_id) is Some && loaded.file is Some
}

/// Whether one of the rows stands for a thread with the given identifier text.
pub open spec fn claimed(loaded: Seq<LoadedConversationView>, conversation_id: Seq<char>) -> bool {
    exists|i: int|
        0 <= i < loaded.len() && is_thread_row(#[trigger] loaded[i])
            && loaded[i].row.conversation_id == conversation_id
}

/// The thread that a valid row stands for, with the given nodes.
pub open spec fn thread_of_row(
    loaded: LoadedConversationView,
    nodes: Seq<CommentNodeView>,
) -> CommentThreadView {
    CommentThreadView {
        id: ids::thread_id_of(loaded.row.conversation_id)->0,
        change_id: None,
        file: loaded.file->0,
        anchor: CommentAnchorView {
            start_row: loaded.row.start_row,
            start_column: loaded.row.start_column,
            end_row: loaded.row.end_row,
            end_column: loaded.row.end_column,
            fingerprint: loaded.row.fingerprint,
        },
        kind: comment::kind_of_number(loaded.row.kind),
        status: comment::status_of_number(loaded.row.status),
        nodes,
        collapsed: loaded.row.collapsed,
    }
}

/// The files with a thread appended to its own file.
pub open spec fn appended(
    files: Seq<FileThreadsView>,
    thread: CommentThreadView,
) -> Seq<FileThreadsView> {
    match comment_store::file_index(files, thread.file) {
        Some(g) => files.update(
            g,
            FileThreadsView { file: files[g].file, threads: files[g].threads.push(thread) },
        ),
        None => files.push(FileThreadsView { file: thread.file, threads: seq![thread] }),
    }
}

/// The index that rows stand for: each valid row's thread appended to its
/// file, in row order. The comments of an identifier text go to the first
/// valid row with that text.
pub open spec fn index_of_rows(
    loaded: Seq<LoadedConversationView>,
    comments: Seq<DbCommentRowView>,
) -> Seq<FileThreadsView>
    decreases loaded.len(),
{
    if loaded.len() == 0 {
        Seq::empty()
    } else {
        let before = index_of_rows(loaded.drop_last(), comments);
        let row = loaded.last();
        if is_thread_row(row) {
            let nodes = if claimed(loaded.drop_last(), row.row.conversation_id) {
                Seq::empty()
            } else {
                nodes_of_rows(comments, row.row.conversation_id)
            };
            appended(before, thread_of_row(row, nodes))
        } else {
            before
        }
    }
}

impl CommentThread {
    /// The thread's row and the rows of its nodes.
    pub fn to_db_rows(&self) -> (r: (DbConversationRow, Vec<DbCommentRow>))
        ensures
            r.0@ == conversation_row(self@),
            comment_row_views(r.1@) == comment_rows(self@),
    {
        let thread_row = DbConversationRow {
            conversation_id: self.id.to_text(),
            path: self.file.to_proto(),
            start_row: self.anchor.start_row,
            start_column: self.anchor.start_column,
            end_row: self.anchor.end_row,
            end_column: self.anchor.end_column,
            fingerprint: self.anchor.fingerprint.clone(),
            kind: self.kind.to_db(),
            status: self.status.to_db(),
            collapsed: self.collapsed,
        };
        let mut node_rows: Vec<DbCommentRow> = Vec::new();
        for i in 0..self.nodes.len()
            invariant
                node_rows@.len() == i,
                forall|j: int|
                    0 <= j < i ==> (#[trigger] node_rows@[j])@ == comment_row(
                        self.id,
                        self.nodes@[j]@,
                    ),
        {
            let node = &self.nodes[i];
            let (author_kind, author_login) = node.author.to_db();
            node_rows.push(
                DbCommentRow {
                    conversation_id: self.id.to_text(),
                    comment_id: node.id.to_text(),
                    in_reply_to: match node.parent_id {
                        Some(parent) => Some(parent.to_text()),
                        None => None,
                    },
                    author_kind,
                    author_login,
                    body: node.body.clone(),
                    created_at: node.created_at,
                    remote_id: node.remote_id,
                    kind: node.kind.to_db(),
                },
            );
        }
        proof {
            assert(comment_row_views(node_rows@) =~= comment_rows(self@));
        }
        (thread_row, node_rows)
    }
}

impl CommentStore {
    /// The rows of every thread and of every node.
    pub fn to_db_rows(&self) -> (r: (Vec<DbConversationRow>, Vec<DbCommentRow>))
        ensures
            conversation_row_views(r.0@) == conversation_rows_of(self@.threads()),
            comment_row_views(r.1@) == comment_rows_of(self@.threads()),
    {
        let mut threads: Vec<DbConversationRow> = Vec::new();
        let mut nodes: Vec<DbCommentRow> = Vec::new();
        let all = self.all_threads();
        let ghost views = self@.threads();
        proof {
            assert(views.take(0) =~= Seq::empty());
            assert(comment_row_views(nodes@) =~= Seq::empty());
        }
        for i in 0..all.len()
            invariant
                views == thread::thread_ref_views(all@),
                threads@.len() == i,
                forall|j: int|
                    0 <= j < i ==> (#[trigger] threads@[j])@ == conversation_row(views[j]),
                comment_row_views(nodes@) == comment_rows_of(views.take(i as int)),
        {
            proof {
                assert(views[i as int] == all@[i as int]@);
                assert(views.take(i + 1).drop_last() =~= views.take(i as int));
            }
            let (thread_row, mut node_rows) = all[i].to_db_rows();
            threads.push(thread_row);
            proof {
                assert(comment_row_views(nodes@ + node_rows@) =~= comment_row_views(nodes@)
                    + comment_row_views(node_rows@));
            }
            nodes.append(&mut node_rows);
        }
        proof {
            assert(views.take(views.len() as int) =~= views);
            assert(conversation_row_views(threads@) =~= conversation_rows_of(views));
        }
        (threads, nodes)
    }

    /// Replaces every thread by those that the rows stand for.
    pub fn load(
        &mut self,
        conversations: &Vec<LoadedConversation>,
        comments: &Vec<DbCommentRow>,
    ) -> (event: CommentStoreEvent)
        ensures
            final(self)@ == (CommentStoreView {
                files: index_of_rows(loaded_views(conversations@), comment_row_views(comments@)),
                ..old(self)@
            }),
            event == CommentStoreEvent::Changed,
    {
        self.replace_files(build_index(conversations, comments));
        CommentStoreEvent::Changed
    }
}

/// The node that a row stands for.
pub fn node_from_row(row: &DbCommentRow) -> (r: Option<CommentNode>)
    ensures
        match r {
            Some(node) => node_of_row(row@) == Some(node@),
            None => node_of_row(row@) is None,
        },
{
    let id = match CommentId::from_text(row.comment_id.as_str()) {
        Some(id) => id,
        None => {
            return None;
        },
    };
    let parent_id = match &row.in_reply_to {
        Some(parent) => match CommentId::from_text(parent.as_str()) {
            Some(parent_id) => Some(parent_id),
            None => {
                return None;
            },
        },
        None => None,
    };
    let login: Option<String> = match &row.author_login {
        Some(login) => Some(login.clone()),
        None => None,
    };
    Some(
        CommentNode {
            id,
            parent_id,
            author: CommentAuthor::from_db(row.author_kind, login),
            body: row.body.clone(),
            kind: CommentKind::from_db(row.kind),
            created_at: row.created_at,
            remote_id: row.remote_id,
        },
    )
}

/// The nodes of one thread, in row order.
fn collect_nodes(rows: &Vec<DbCommentRow>, conversation_id: &String) -> (r: Vec<CommentNode>)
    ensures
        thread::node_views(r@) == nodes_of_rows(comment_row_views(rows@), conversation_id@),
{
    let ghost views = comment_row_views(rows@);
    let mut out: Vec<CommentNode> = Vec::new();
    proof {
        assert(views.take(0) =~= Seq::empty());
        assert(thread::node_views(out@) =~= Seq::empty());
    }
    for i in 0..rows.len()
        invariant
            views == comment_row_views(rows@),
            thread::node_views(out@) == nodes_of_rows(views.take(i as int), conversation_id@),
    {
        proof {
            assert(views[i as int] == rows@[i as int]@);
            assert(views.take(i + 1).drop_last() =~= views.take(i as int));
        }
        if rows[i].conversation_id == *conversation_id {
            match node_from_row(&rows[i]) {
                Some(node) => {
                    proof {
                        assert(thread::node_views(out@.push(node)) =~= thread::node_views(
                            out@,
                        ).push(node@));
                    }
                    out.push(node);
                },
                None => {},
            }
        }
    }
    proof {
        assert(views.take(views.len() as int) =~= views);
    }
    out
}

/// Whether one of the first `count` rows stands for a thread with the given
/// identifier text.
fn is_claimed(rows: &Vec<LoadedConversation>, count: usize, conversation_id: &String) -> (r: bool)
    requires
        count <= rows.len(),
    ensures
        r == claimed(loaded_views(rows@).take(count as int), conversation_id@),
{
    let ghost views = loaded_views(rows@).take(count as int);
    for i in 0..count
        invariant
            count <= rows.len(),
            views == loaded_views(rows@).take(count as int),
            forall|j: int|
                0 <= j < i ==> !(is_thread_row(#[trigger] views[j]) && views[j].row.conversation_id
                    == conversation_id@),
    {
        let loaded = &rows[i];
        proof {
            assert(views[i as int] == loaded@);
        }
        if loaded.row.conversation_id == *conversation_id && loaded.file.is_some() {
            match ThreadId::from_text(loaded.row.conversation_id.as_str()) {
                Some(_) => {
                    return true;
                },
                None => {},
            }
        }
    }
    false
}

/// Appends a thread to its own file.
fn append_thread(files: &mut Vec<FileThreads>, thread: CommentThread)
    ensures
        comment_store::file_views(final(files)@) == appended(
            comment_store::file_views(old(files)@),
            thread@,
        ),
{
    let ghost before = comment_store::file_views(files@);
    match comment_store::find_file(files, &thread.file) {
        Some(g) => {
            let ghost list = thread::thread_views(files@[g as int].threads@);
            let ghost shown = thread@;
            files[g].threads.push(thread);
            proof {
                assert(thread::thread_views(files@[g as int].threads@) =~= list.push(shown));
                assert(comment_store::file_views(files@) =~= appended(before, shown));
            }
        },
        None => {
            let ghost shown = thread@;
            let file = thread.file.clone();
            let mut threads: Vec<CommentThread> = Vec::new();
            threads.push(thread);
            proof {
                assert(thread::thread_views(threads@) =~= seq![shown]);
            }
            files.push(FileThreads { file, threads });
            proof {
                assert(comment_store::file_views(files@) =~= appended(before, shown));
            }
        },
    }
}

/// Rebuilds the in-memory thread index from rows loaded out of the database.
/// Rows with an invalid identifier or path are skipped.
pub fn build_index(
    conversations: &Vec<LoadedConversation>,
    comments: &Vec<DbCommentRow>,
) -> (r: Vec<FileThreads>)
    ensures
        comment_store::file_views(r@) == index_of_rows(
            loaded_views(conversations@),
            comment_row_views(comments@),
        ),
{
    let ghost views = loaded_views(conversations@);
    let ghost comment_views = comment_row_views(comments@);
    let mut index: Vec<FileThreads> = Vec::new();
    proof {
        assert(views.take(0) =~= Seq::empty());
        assert(comment_store::file_views(index@) =~= Seq::empty());
    }
    for i in 0..conversations.len()
        invariant
            views == loaded_views(conversations@),
            comment_views == comment_row_views(comments@),
            comment_store::file_views(index@) == index_of_rows(
                views.take(i as int),
                comment_views,
            ),
    {
        let loaded = &conversations[i];
        proof {
            assert(views[i as int] == loaded@);
            assert(views.take(i + 1).drop_last() =~= views.take(i as int));
        }
        let row = &loaded.row;
        match (ThreadId::from_text(row.conversation_id.as_str()), &loaded.file) {
            (Some(id), Some(file)) => {
                let nodes = if is_claimed(conversations, i, &row.conversation_id) {
                    let none: Vec<CommentNode> = Vec::new();
                    proof {
                        assert(thread::node_views(none@) =~= Seq::empty());
                    }
                    none
                } else {
                    collect_nodes(comments, &row.conversation_id)
                };
                let thread = CommentThread {
                    id,
                    change_id: None,
                    file: file.clone(),
                    anchor: CommentAnchor {
                        start_row: row.start_row,
                        start_column: row.start_column,
                        end_row: row.end_row,
                        end_column: row.end_column,
                        fingerprint: row.fingerprint.clone(),
                    },
                    kind: CommentKind::from_db(row.kind),
                    status: CommentStatus::from_db(row.status),
                    nodes,
                    collapsed: row.collapsed,
                };
                append_thread(&mut index, thread);
            },
            _ => {},
        }
    }
    proof {
        assert(views.take(views.len() as int) =~= views);
    }
    index
}

/// A row reads back as the node it was written from.
pub proof fn lemma_node_round_trip(thread_id: ThreadId, node: CommentNodeView)
    ensures
        node_of_row(comment_row(thread_id, node)) == Some(node),
{
    ids::lemma_uuid_text_round_trip(node.id.0);
    match node.parent_id {
        Some(parent) => {
            ids::lemma_uuid_text_round_trip(parent.0);
        },
        None => {},
    }
    comment::lemma_persisted_numbers_round_trip(node.kind, CommentStatus::Open, node.author);
}

proof fn lemma_nodes_of_rows_concat(
    a: Seq<DbCommentRowView>,
    b: Seq<DbCommentRowView>,
    id: Seq<char>,
)
    ensures
        nodes_of_rows(a + b, id) == nodes_of_rows(a, id) + nodes_of_rows(b, id),
    decreases b.len(),
{
    if b.len() == 0 {
        assert(a + b =~= a);
    } else {
        lemma_nodes_of_rows_concat(a, b.drop_last(), id);
        assert((a + b).drop_last() =~= a + b.drop_last());
    }
}

/// The rows of a thread give its nodes back under its own identifier, and
/// none under another.
proof fn lemma_nodes_of_own_rows(
    thread_id: ThreadId,
    nodes: Seq<CommentNodeView>,
    id: Seq<char>,
)
    ensures
        nodes_of_rows(
            Seq::new(nodes.len(), |i: int| comment_row(thread_id, nodes[i])),
            id,
        ) == (if ids::hyphenated(thread_id.0) == id {
            nodes
        } else {
            Seq::empty()
        }),
    decreases nodes.len(),
{
    let rows = Seq::new(nodes.len(), |i: int| comment_row(thread_id, nodes[i]));
    if nodes.len() > 0 {
        let fewer = nodes.drop_last();
        lemma_nodes_of_own_rows(thread_id, fewer, id);
        assert(rows.drop_last() =~= Seq::new(
            fewer.len(),
            |i: int| comment_row(thread_id, fewer[i]),
        ));
        lemma_node_round_trip(thread_id, nodes.last());
        assert(nodes =~= fewer.push(nodes.last()));
    }
}

/// The rows of threads with distinct identifiers give each thread its nodes
/// back.
proof fn lemma_nodes_of_all_rows(threads: Seq<CommentThreadView>, id: ThreadId)
    requires
        comment_store::ids_distinct(threads),
    ensures
        nodes_of_rows(comment_rows_of(threads), ids::hyphenated(id.0)) == (
        match comment_store::thread_index(threads, id) {
            Some(i) => threads[i].nodes,
            None => Seq::empty(),
        }),
    decreases threads.len(),
{
    if threads.len() > 0 {
        let fewer = threads.drop_last();
        let last = threads.last();
        let text = ids::hyphenated(id.0);
        lemma_nodes_of_all_rows(fewer, id);
        lemma_nodes_of_rows_concat(comment_rows_of(fewer), comment_rows(last), text);
        lemma_nodes_of_own_rows(last.id, last.nodes, text);
        comment_store::lemma_thread_index(fewer, id);
        if ids::hyphenated(last.id.0) == text {
            ids::lemma_hyphenated_injective(last.id.0, id.0);
            if comment_store::thread_index(fewer, id) is Some {
                let i = comment_store::thread_index(fewer, id)->0;
                assert(threads[i].id == threads[threads.len() - 1].id);
            }
            assert(Seq::<CommentNodeView>::empty() + last.nodes =~= last.nodes);
        } else {
            let before = nodes_of_rows(comment_rows_of(fewer), text);
            assert(before + Seq::<CommentNodeView>::empty() =~= before);
        }
    }
}

/// Rows as they are read back from what the threads were written as, every
/// path denoting the file it was written from.
pub open spec fn reloaded(threads: Seq<CommentThreadView>) -> Seq<LoadedConversationView> {
    Seq::new(
        threads.len(),
        |i: int|
            LoadedConversationView { row: conversation_row(threads[i]), file: Some(threads[i].file) },
    )
}

/// The files with some threads appended one after the other.
pub open spec fn all_appended(threads: Seq<CommentThreadView>) -> Seq<FileThreadsView>
    decreases threads.len(),
{
    if threads.len() == 0 {
        Seq::empty()
    } else {
        appended(all_appended(threads.drop_last()), threads.last())
    }
}

/// What persisting keeps of a thread: everything but the change it belongs to.
pub open spec fn persisted(thread: CommentThreadView) -> CommentThreadView {
    CommentThreadView { change_id: None, ..thread }
}

proof fn lemma_reloaded_threads(
    all: Seq<CommentThreadView>,
    some: Seq<CommentThreadView>,
)
    requires
        comment_store::ids_distinct(all),
        some.len() <= all.len(),
        some == all.take(some.len() as int),
    ensures
        index_of_rows(reloaded(some), comment_rows_of(all)) == all_appended(
            some.map_values(|t: CommentThreadView| persisted(t)),
        ),
    decreases some.len(),
{
    let shown = some.map_values(|t: CommentThreadView| persisted(t));
    if some.len() > 0 {
        let fewer = some.drop_last();
        let last = some.last();
        let rows = reloaded(some);
        assert(fewer =~= all.take(fewer.len() as int));
        lemma_reloaded_threads(all, fewer);
        assert(rows.drop_last() =~= reloaded(fewer));
        assert(shown.drop_last() =~= fewer.map_values(|t: CommentThreadView| persisted(t)));
        ids::lemma_uuid_text_round_trip(last.id.0);
        comment::lemma_persisted_numbers_round_trip(
            last.kind,
            last.status,
            comment::CommentAuthorView::User,
        );
        let text = ids::hyphenated(last.id.0);
        if claimed(rows.drop_last(), text) {
            let i = choose|i: int|
                0 <= i < rows.len() - 1 && is_thread_row(#[trigger] rows.drop_last()[i])
                    && rows.drop_last()[i].row.conversation_id == text;
            ids::lemma_hyphenated_injective(some[i].id.0, last.id.0);
            assert(all[i].id == all[some.len() - 1].id);
        }
        lemma_nodes_of_all_rows(all, last.id);
        comment_store::lemma_thread_index(all, last.id);
        let at = comment_store::thread_index(all, last.id);
        assert(all[some.len() - 1].id == last.id);
        assert(all[at->0].id == all[some.len() - 1].id);
        assert(at == Some(some.len() - 1));
        assert(thread_of_row(rows.last(), last.nodes) =~= persisted(last));
    }
}

proof fn lemma_appended_group(
    files: Seq<FileThreadsView>,
    threads: Seq<CommentThreadView>,
    before: Seq<CommentThreadView>,
    file: Seq<char>,
)
    requires
        all_appended(before) == files,
        comment_store::file_index(files, file) is None,
        forall|i: int| 0 <= i < threads.len() ==> (#[trigger] threads[i]).file == file,
        threads.len() > 0,
    ensures
        all_appended(before + threads) == files.push(FileThreadsView { file, threads }),
    decreases threads.len(),
{
    let fewer = threads.drop_last();
    assert((before + threads).drop_last() =~= before + fewer);
    assert((before + threads).last() == threads.last());
    if fewer.len() == 0 {
        assert(before + fewer =~= before);
        assert(seq![threads.last()] =~= threads);
    } else {
        lemma_appended_group(files, fewer, before, file);
        let grown = files.push(FileThreadsView { file, threads: fewer });
        assert(grown.drop_last() =~= files);
        comment_store::lemma_file_index(grown, file);
        assert(fewer.push(threads.last()) =~= threads);
        assert(grown.update(files.len() as int, FileThreadsView { file, threads }) =~= files.push(
            FileThreadsView { file, threads },
        ));
    }
}

/// Appending the threads of well-formed files one after the other gives the
/// files back.
proof fn lemma_regrouped(files: Seq<FileThreadsView>)
    requires
        comment_store::well_grouped(files),
    ensures
        all_appended(comment_store::threads_of(files)) == files,
    decreases files.len(),
{
    if files.len() == 0 {
    } else {
        let fewer = files.drop_last();
        let last = files.last();
        assert(comment_store::well_grouped(fewer)) by {
            assert forall|g: int| 0 <= g < fewer.len() implies #[trigger] fewer[g] == files[g] by {}
        }
        lemma_regrouped(fewer);
        comment_store::lemma_file_index(fewer, last.file);
        if comment_store::file_index(fewer, last.file) is Some {
            let g = comment_store::file_index(fewer, last.file)->0;
            assert(files[g].file == files[files.len() - 1].file);
        }
        lemma_appended_group(fewer, last.threads, comment_store::threads_of(fewer), last.file);
        assert(files =~= fewer.push(last));
    }
}

/// What persisting keeps of files: everything but the changes that threads
/// belong to.
pub open spec fn persisted_files(files: Seq<FileThreadsView>) -> Seq<FileThreadsView> {
    Seq::new(
        files.len(),
        |g: int|
            FileThreadsView {
                file: files[g].file,
                threads: files[g].threads.map_values(|t: CommentThreadView| persisted(t)),
            },
    )
}

proof fn lemma_persisted_threads(files: Seq<FileThreadsView>)
    ensures
        comment_store::threads_of(persisted_files(files)) == comment_store::threads_of(
            files,
        ).map_values(|t: CommentThreadView| persisted(t)),
    decreases files.len(),
{
    let keep = |t: CommentThreadView| persisted(t);
    if files.len() == 0 {
        assert(comment_store::threads_of(persisted_files(files)) =~= comment_store::threads_of(
            files,
        ).map_values(keep));
    } else {
        let fewer = files.drop_last();
        lemma_persisted_threads(fewer);
        assert(persisted_files(files).drop_last() =~= persisted_files(fewer));
        let before = comment_store::threads_of(fewer);
        let last = files.last().threads;
        assert((before + last).map_values(keep) =~= before.map_values(keep) + last.map_values(
            keep,
        ));
    }
}

/// Saving a store and loading the rows again gives every thread back, with
/// all of its comments, in its own file and in its own place. Only the change
/// that a thread belongs to is not persisted.
pub proof fn lemma_save_and_reload(store: CommentStoreView)
    requires
        store.wf(),
    ensures
        index_of_rows(reloaded(store.threads()), comment_rows_of(store.threads()))
            == persisted_files(store.files),
        (forall|i: int|
            0 <= i < store.threads().len() ==> (#[trigger] store.threads()[i]).change_id is None)
            ==> index_of_rows(reloaded(store.threads()), comment_rows_of(store.threads()))
            == store.files,
{
    let threads = store.threads();
    let keep = |t: CommentThreadView| persisted(t);
    assert(threads.take(threads.len() as int) =~= threads);
    lemma_reloaded_threads(threads, threads);
    lemma_persisted_threads(store.files);
    let kept = persisted_files(store.files);
    assert(comment_store::well_grouped(kept)) by {
        assert forall|g: int, i: int|
            0 <= g < kept.len() && 0 <= i < kept[g].threads.len() implies (
        #[trigger] kept[g].threads[i]).file == kept[g].file by {
            assert(kept[g].threads[i] == persisted(store.files[g].threads[i]));
        }
    }
    lemma_regrouped(kept);
    if forall|i: int| 0 <= i < threads.len() ==> (#[trigger] threads[i]).change_id is None {
        assert(threads.map_values(keep) =~= threads) by {
            assert forall|i: int| 0 <= i < threads.len() implies persisted(#[trigger] threads[i])
                == threads[i] by {}
        }
        lemma_regrouped(store.files);
    }
}

} // verus!
