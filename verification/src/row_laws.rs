//! What is written to the database and read from it, column by column and row
//! by row, and how a store's lists go together.

use vstd::prelude::*;
#[allow(unused_imports)]
use crate::comment;
#[allow(unused_imports)]
use crate::comment::{CommentAuthorView, CommentKind, CommentNodeView, CommentStatus};
#[allow(unused_imports)]
use crate::comment_store;
#[allow(unused_imports)]
use crate::comment_store::{CommentStoreView, FileThreadsView};
#[allow(unused_imports)]
use crate::ids;
#[allow(unused_imports)]
use crate::ids::{CommentId, ThreadId};
#[allow(unused_imports)]
use crate::persistence;
#[allow(unused_imports)]
use crate::persistence::{DbCommentRowView, LoadedConversationView};
#[allow(unused_imports)]
use crate::store_laws;
#[allow(unused_imports)]
use crate::thread;
#[allow(unused_imports)]
use crate::thread::CommentThreadView;

verus! {

/// A thread's row holds its anchor, path and flag as they are, its kind and
/// status as numbers, and its identifier as a text that reads back.
pub proof fn lemma_conversation_row(thread: CommentThreadView)
    ensures
        ({
            let row = persistence::conversation_row(thread);
            &&& ids::thread_id_of(row.conversation_id) == Some(thread.id)
            &&& row.path == thread.file
            &&& row.start_row == thread.anchor.start_row
            &&& row.start_column == thread.anchor.start_column
            &&& row.end_row == thread.anchor.end_row
            &&& row.end_column == thread.anchor.end_column
            &&& row.fingerprint == thread.anchor.fingerprint
            &&& row.collapsed == thread.collapsed
            &&& row.kind == (match thread.kind {
                CommentKind::Comment => 0i64,
                CommentKind::Question => 1i64,
                CommentKind::Task => 2i64,
            })
            &&& row.status == (match thread.status {
                CommentStatus::Open => 0i64,
                CommentStatus::Resolved => 1i64,
            })
        }),
{
    ids::lemma_uuid_text_round_trip(thread.id.0);
}

/// A comment's row holds its body character for character, its date and its
/// number as they are, its kind and author as numbers, the login of a remote
/// author, and identifiers that read back: its thread's, its own, and that of
/// the comment it replies to.
pub proof fn lemma_comment_row(thread_id: ThreadId, node: CommentNodeView)
    ensures
        ({
            let row = persistence::comment_row(thread_id, node);
            &&& ids::thread_id_of(row.conversation_id) == Some(thread_id)
            &&& ids::comment_id_of(row.comment_id) == Some(node.id)
            &&& node.parent_id is None ==> row.in_reply_to is None
            &&& node.parent_id matches Some(parent) ==> row.in_reply_to is Some
                && ids::comment_id_of(row.in_reply_to->0) == Some(parent)
            &&& row.body == node.body
            &&& row.created_at == node.created_at
            &&& row.remote_id == node.remote_id
            &&& row.kind == (match node.kind {
                CommentKind::Comment => 0i64,
                CommentKind::Question => 1i64,
                CommentKind::Task => 2i64,
            })
            &&& node.author is User ==> row.author_kind == 0 && row.author_login is None
            &&& node.author is Agent ==> row.author_kind == 1 && row.author_login is None
            &&& node.author matches CommentAuthorView::Remote { login } ==> row.author_kind == 2
                && row.author_login == Some(login)
        }),
{
    ids::lemma_uuid_text_round_trip(thread_id.0);
    ids::lemma_uuid_text_round_trip(node.id.0);
    if let Some(parent) = node.parent_id {
        ids::lemma_uuid_text_round_trip(parent.0);
    }
}

/// Every thread has one row, in order, and one more thread adds one row for
/// each of its comments, in order.
pub proof fn lemma_every_comment_has_a_row(
    threads: Seq<CommentThreadView>,
    thread: CommentThreadView,
)
    ensures
        persistence::conversation_rows_of(threads).len() == threads.len(),
        forall|i: int|
            0 <= i < threads.len() ==> #[trigger] persistence::conversation_rows_of(threads)[i]
                == persistence::conversation_row(threads[i]),
        persistence::comment_rows_of(Seq::empty()).len() == 0,
        persistence::comment_rows_of(threads.push(thread)) == persistence::comment_rows_of(threads)
            + thread.nodes.map_values(
            |node: CommentNodeView| persistence::comment_row(thread.id, node),
        ),
{
    assert(threads.push(thread).drop_last() =~= threads);
    assert(persistence::comment_rows(thread) =~= thread.nodes.map_values(
        |node: CommentNodeView| persistence::comment_row(thread.id, node),
    ));
}

/// A comment's row is read exactly when its identifiers are valid; body, date
/// and number are taken as they are. An unknown kind is a plain comment, an
/// unknown author the user.
pub proof fn lemma_row_is_read(row: DbCommentRowView)
    ensures
        persistence::node_of_row(row) is Some <==> ids::comment_id_of(row.comment_id) is Some && (
        row.in_reply_to matches Some(parent) ==> ids::comment_id_of(parent) is Some),
        persistence::node_of_row(row) matches Some(node) ==> {
            &&& ids::comment_id_of(row.comment_id) == Some(node.id)
            &&& node.parent_id == (match row.in_reply_to {
                Some(parent) => ids::comment_id_of(parent),
                None => None,
            })
            &&& node.body == row.body
            &&& node.created_at == row.created_at
            &&& node.remote_id == row.remote_id
            &&& node.kind == (if row.kind == 1 {
                CommentKind::Question
            } else if row.kind == 2 {
                CommentKind::Task
            } else {
                CommentKind::Comment
            })
            &&& row.author_kind == 1 ==> node.author is Agent
            &&& row.author_kind == 2 ==> node.author == CommentAuthorView::Remote {
                login: match row.author_login {
                    Some(login) => login,
                    None => Seq::empty(),
                },
            }
            &&& row.author_kind != 1 && row.author_kind != 2 ==> node.author is User
        },
{
}

/// One more comment row adds its comment behind the others of its thread, if it
/// can be read and belongs to the thread, and otherwise nothing.
pub proof fn lemma_every_row_is_read(
    rows: Seq<DbCommentRowView>,
    row: DbCommentRowView,
    conversation_id: Seq<char>,
)
    ensures
        persistence::nodes_of_rows(Seq::empty(), conversation_id).len() == 0,
        persistence::nodes_of_rows(rows.push(row), conversation_id) == (if row.conversation_id
            == conversation_id && persistence::node_of_row(row) is Some {
            persistence::nodes_of_rows(rows, conversation_id).push(
                persistence::node_of_row(row)->0,
            )
        } else {
            persistence::nodes_of_rows(rows, conversation_id)
        }),
{
    assert(rows.push(row).drop_last() =~= rows);
}

/// One more thread row adds its thread to the files, if its identifier and its
/// path are valid, with the comments of that identifier unless an earlier row
/// has them; otherwise it adds nothing. The thread has what the row holds.
pub proof fn lemma_every_thread_row_is_read(
    loaded: Seq<LoadedConversationView>,
    row: LoadedConversationView,
    comments: Seq<DbCommentRowView>,
)
    ensures
        ({
            let before = persistence::index_of_rows(loaded, comments);
            let after = persistence::index_of_rows(loaded.push(row), comments);
            let valid = ids::thread_id_of(row.row.conversation_id) is Some && row.file is Some;
            let taken = exists|i: int|
                0 <= i < loaded.len() && (#[trigger] loaded[i]).row.conversation_id
                    == row.row.conversation_id && loaded[i].file is Some;
            let nodes = if taken {
                Seq::empty()
            } else {
                persistence::nodes_of_rows(comments, row.row.conversation_id)
            };
            let thread = persistence::thread_of_row(row, nodes);
            &&& persistence::index_of_rows(Seq::empty(), comments).len() == 0
            &&& !valid ==> after == before
            &&& valid ==> {
                &&& after == persistence::appended(before, thread)
                &&& Some(thread.id) == ids::thread_id_of(row.row.conversation_id)
                &&& Some(thread.file) == row.file
                &&& thread.nodes == nodes
                &&& thread.change_id is None
                &&& thread.anchor.start_row == row.row.start_row
                &&& thread.anchor.start_column == row.row.start_column
                &&& thread.anchor.end_row == row.row.end_row
                &&& thread.anchor.end_column == row.row.end_column
                &&& thread.anchor.fingerprint == row.row.fingerprint
                &&& thread.collapsed == row.row.collapsed
                &&& thread.kind == (if row.row.kind == 1 {
                    CommentKind::Question
                } else if row.row.kind == 2 {
                    CommentKind::Task
                } else {
                    CommentKind::Comment
                })
                &&& thread.status == (if row.row.status == 1 {
                    CommentStatus::Resolved
                } else {
                    CommentStatus::Open
                })
            }
        }),
{
    let id = row.row.conversation_id;
    assert(loaded.push(row).drop_last() =~= loaded);
    if ids::thread_id_of(id) is Some && row.file is Some {
        if persistence::claimed(loaded, id) {
            let i = choose|i: int|
                0 <= i < loaded.len() && persistence::is_thread_row(#[trigger] loaded[i])
                    && loaded[i].row.conversation_id == id;
            assert(loaded[i].file is Some);
        }
        if exists|i: int|
            0 <= i < loaded.len() && (#[trigger] loaded[i]).row.conversation_id == id
                && loaded[i].file is Some {
            let i = choose|i: int|
                0 <= i < loaded.len() && (#[trigger] loaded[i]).row.conversation_id == id
                    && loaded[i].file is Some;
            assert(persistence::is_thread_row(loaded[i]));
        }
    }
}

/// A thread that is appended stands last in its own file; no other file
/// changes.
pub proof fn lemma_appended_stands_last(
    store: CommentStoreView,
    thread: CommentThreadView,
    file: Seq<char>,
)
    ensures
        (CommentStoreView {
            files: persistence::appended(store.files, thread),
            ..store
        }).threads_for_file(file) == (if file == thread.file {
            store.threads_for_file(file).push(thread)
        } else {
            store.threads_for_file(file)
        }),
{
    let files = store.files;
    let after = persistence::appended(files, thread);
    comment_store::lemma_file_index(files, thread.file);
    comment_store::lemma_file_index(files, file);
    comment_store::lemma_file_index(after, file);
    match comment_store::file_index(files, thread.file) {
        Some(g) => {
            assert(after[g].file == thread.file);
            if let Some(h) = comment_store::file_index(files, file) {
                assert(after[h].file == file);
                let k = comment_store::file_index(after, file)->0;
                if k < h {
                    assert(files[k].file == after[k].file);
                }
            } else if let Some(k) = comment_store::file_index(after, file) {
                assert(files[k].file == after[k].file);
            }
        },
        None => {
            let last = files.len() as int;
            assert(after[last].file == thread.file);
            assert(seq![thread] =~= Seq::empty().push(thread));
            if let Some(h) = comment_store::file_index(files, file) {
                assert(after[h].file == file);
                let k = comment_store::file_index(after, file)->0;
                if k < h {
                    assert(files[k].file == after[k].file);
                }
            } else if let Some(k) = comment_store::file_index(after, file) {
                if k < last {
                    assert(files[k].file == after[k].file);
                }
            }
        },
    }
}

/// Every thread of a store is one of a file: all of them are the threads of the
/// files, one file behind the other.
pub proof fn lemma_all_threads_by_file(files: Seq<FileThreadsView>, group: FileThreadsView)
    ensures
        comment_store::threads_of(Seq::empty()).len() == 0,
        comment_store::threads_of(files.push(group)) == comment_store::threads_of(files)
            + group.threads,
{
    assert(files.push(group).drop_last() =~= files);
}

proof fn lemma_filter_same_file(
    threads: Seq<CommentThreadView>,
    group: Seq<char>,
    file: Seq<char>,
)
    requires
        forall|i: int| 0 <= i < threads.len() ==> (#[trigger] threads[i]).file == group,
    ensures
        threads.filter(|t: CommentThreadView| t.file == file) == (if group == file {
            threads
        } else {
            Seq::empty()
        }),
    decreases threads.len(),
{
    reveal(Seq::filter);
    if threads.len() > 0 {
        let fewer = threads.drop_last();
        assert forall|i: int| 0 <= i < fewer.len() implies (#[trigger] fewer[i]).file == group by {
            assert(threads[i] == fewer[i]);
        }
        lemma_filter_same_file(fewer, group, file);
        assert(threads[threads.len() - 1] == threads.last());
        assert(fewer.push(threads.last()) =~= threads);
    } else {
        assert(threads =~= Seq::empty());
    }
}

proof fn lemma_filter_parts(
    a: Seq<CommentThreadView>,
    b: Seq<CommentThreadView>,
    file: Seq<char>,
)
    ensures
        (a + b).filter(|t: CommentThreadView| t.file == file) == a.filter(
            |t: CommentThreadView| t.file == file,
        ) + b.filter(|t: CommentThreadView| t.file == file),
    decreases b.len(),
{
    reveal(Seq::filter);
    let of_file = |t: CommentThreadView| t.file == file;
    if b.len() == 0 {
        assert(a + b =~= a);
        assert(a.filter(of_file) + b.filter(of_file) =~= a.filter(of_file));
    } else {
        lemma_filter_parts(a, b.drop_last(), file);
        assert((a + b).drop_last() =~= a + b.drop_last());
        assert((a + b).last() == b.last());
        assert((a + b).filter(of_file) =~= a.filter(of_file) + b.filter(of_file));
    }
}

proof fn lemma_file_is_filtered(files: Seq<FileThreadsView>, file: Seq<char>)
    requires
        comment_store::well_grouped(files),
    ensures
        comment_store::threads_of(files).filter(|t: CommentThreadView| t.file == file) == (
        match comment_store::file_index(files, file) {
            Some(g) => files[g].threads,
            None => Seq::empty(),
        }),
    decreases files.len(),
{
    reveal(Seq::filter);
    if files.len() > 0 {
        let fewer = files.drop_last();
        let last = files.last();
        let before = comment_store::threads_of(fewer);
        let of_file = |t: CommentThreadView| t.file == file;
        assert(comment_store::well_grouped(fewer)) by {
            assert forall|g: int| 0 <= g < fewer.len() implies #[trigger] fewer[g] == files[g] by {}
        }
        lemma_file_is_filtered(fewer, file);
        lemma_filter_parts(before, last.threads, file);
        assert forall|i: int| 0 <= i < last.threads.len() implies (
        #[trigger] last.threads[i]).file == last.file by {
            assert(files[files.len() - 1].threads[i].file == last.file);
        }
        lemma_filter_same_file(last.threads, last.file, file);
        comment_store::lemma_file_index(fewer, file);
        if let Some(g) = comment_store::file_index(fewer, file) {
            if last.file == file {
                assert(files[g].file == files[files.len() - 1].file);
            }
            assert(before.filter(of_file) + Seq::empty() =~= before.filter(of_file));
        } else {
            assert(Seq::empty() + last.threads =~= last.threads);
            assert(Seq::<CommentThreadView>::empty() + Seq::empty() =~= Seq::empty());
        }
    }
}

/// The threads of a file are those of the store that stand in it, all of them
/// and in order.
pub proof fn lemma_threads_of_a_file(store: CommentStoreView, file: Seq<char>)
    requires
        store.wf(),
    ensures
        store.threads_for_file(file) == store.threads().filter(
            |t: CommentThreadView| t.file == file,
        ),
{
    lemma_file_is_filtered(store.files, file);
}

/// A lookup finds the first thread with an identifier, exactly if there is one.
pub proof fn lemma_lookup_finds_the_first(store: CommentStoreView, id: ThreadId)
    ensures
        match store.thread(id) {
            Some(t) => t.id == id && exists|i: int|
                0 <= i < store.threads().len() && #[trigger] store.threads()[i] == t && forall|
                    j: int,
                |
                    0 <= j < i ==> (#[trigger] store.threads()[j]).id != id,
            None => forall|i: int|
                0 <= i < store.threads().len() ==> (#[trigger] store.threads()[i]).id != id,
        },
{
    store_laws::lemma_thread_is_first(store, id);
    comment_store::lemma_thread_index(store.threads(), id);
    if let Some(i) = comment_store::thread_index(store.threads(), id) {
        assert(store.threads()[i] == store.thread(id)->0);
    }
}

/// A thread put into a list that has its identifier takes the place of the
/// first one that has it; otherwise it goes to the end. Nothing else changes.
pub proof fn lemma_put_in_place(threads: Seq<CommentThreadView>, thread: CommentThreadView, i: int)
    requires
        0 <= i < threads.len(),
    ensures
        ({
            let after = comment_store::put_in_list(threads, thread);
            let first = threads[i].id == thread.id && forall|j: int|
                0 <= j < i ==> (#[trigger] threads[j]).id != thread.id;
            let known = exists|j: int|
                0 <= j < threads.len() && (#[trigger] threads[j]).id == thread.id;
            &&& after[i] == (if first {
                thread
            } else {
                threads[i]
            })
            &&& known ==> after.len() == threads.len()
            &&& !known ==> after == threads.push(thread)
        }),
{
    comment_store::lemma_thread_index(threads, thread.id);
}

/// Taking a thread out of a list leaves every other, in order.
pub proof fn lemma_taken_out(threads: Seq<CommentThreadView>, id: ThreadId)
    ensures
        comment_store::without_thread(threads, id) == threads.filter(
            |t: CommentThreadView| t.id != id,
        ),
    decreases threads.len(),
{
    reveal(Seq::filter);
    if threads.len() == 0 {
        assert(threads =~= Seq::empty());
    } else {
        lemma_taken_out(threads.drop_last(), id);
    }
}

/// A store has a node exactly when the thread is there and one of its comments
/// has the identifier.
pub proof fn lemma_has_node(store: CommentStoreView, thread_id: ThreadId, node_id: CommentId)
    ensures
        store.has_node(thread_id, node_id) <==> (store.thread(thread_id) matches Some(t) && exists|
            n: int,
        |
            0 <= n < t.nodes.len() && (#[trigger] t.nodes[n]).id == node_id),
{
    if let Some(t) = store.thread(thread_id) {
        thread::lemma_node_index(t.nodes, node_id);
        if let Some(n) = thread::node_index(t.nodes, node_id) {
            assert(t.nodes[n].id == node_id);
        }
    }
}

/// No change of a store's threads changes the workspace that it belongs to.
pub proof fn lemma_workspace_stays(
    store: CommentStoreView,
    thread: CommentThreadView,
    id: ThreadId,
    f: spec_fn(CommentThreadView) -> CommentThreadView,
)
    ensures
        store.upserted(thread).workspace_id == store.workspace_id,
        store.removed(id).workspace_id == store.workspace_id,
        store.with_thread(id, f).workspace_id == store.workspace_id,
{
}

} // verus!
