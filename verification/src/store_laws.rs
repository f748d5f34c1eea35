//! What the operations of a [`CommentStore`](crate::comment_store::CommentStore)
//! promise together: which threads a lookup finds after a change, which stay
//! as they were, and what every change keeps.

use vstd::prelude::*;
#[allow(unused_imports)]
use crate::comment::CommentNodeView;
#[allow(unused_imports)]
use crate::comment_store;
#[allow(unused_imports)]
use crate::comment_store::{CommentStoreView, FileThreadsView};
#[allow(unused_imports)]
use crate::ids::{CommentId, ThreadId};
#[allow(unused_imports)]
use crate::ids;
#[allow(unused_imports)]
use crate::persistence;
#[allow(unused_imports)]
use crate::persistence::{DbCommentRowView, LoadedConversationView};
#[allow(unused_imports)]
use crate::thread;
#[allow(unused_imports)]
use crate::thread::CommentThreadView;

verus! {

/// The first thread of a list with an identifier.
pub open spec fn found(threads: Seq<CommentThreadView>, id: ThreadId) -> Option<CommentThreadView> {
    match comment_store::thread_index(threads, id) {
        Some(i) => Some(threads[i]),
        None => None,
    }
}

/// The threads of a file.
spec fn listed(files: Seq<FileThreadsView>, file: Seq<char>) -> Seq<CommentThreadView> {
    match comment_store::file_index(files, file) {
        Some(g) => files[g].threads,
        None => Seq::empty(),
    }
}

/// How many threads of a list have an identifier.
spec fn times(threads: Seq<CommentThreadView>, id: ThreadId) -> nat
    decreases threads.len(),
{
    if threads.len() == 0 {
        0
    } else {
        times(threads.drop_last(), id) + if threads.last().id == id {
            1nat
        } else {
            0
        }
    }
}

proof fn lemma_found_concat(a: Seq<CommentThreadView>, b: Seq<CommentThreadView>, id: ThreadId)
    ensures
        found(a + b, id) == (if found(a, id) is Some {
            found(a, id)
        } else {
            found(b, id)
        }),
        times(a + b, id) == times(a, id) + times(b, id),
    decreases b.len(),
{
    comment_store::lemma_thread_index(a, id);
    if b.len() == 0 {
        assert(a + b =~= a);
    } else {
        lemma_found_concat(a, b.drop_last(), id);
        assert((a + b).drop_last() =~= a + b.drop_last());
        comment_store::lemma_thread_index(a + b.drop_last(), id);
        comment_store::lemma_thread_index(b.drop_last(), id);
    }
}

proof fn lemma_times_found(threads: Seq<CommentThreadView>, id: ThreadId)
    ensures
        times(threads, id) == 0 <==> found(threads, id) is None,
    decreases threads.len(),
{
    if threads.len() > 0 {
        lemma_times_found(threads.drop_last(), id);
    }
}

proof fn lemma_times_at(threads: Seq<CommentThreadView>, i: int)
    requires
        0 <= i < threads.len(),
    ensures
        times(threads, threads[i].id) >= 1,
{
    comment_store::lemma_thread_index(threads, threads[i].id);
    lemma_times_found(threads, threads[i].id);
}

proof fn lemma_distinct_by_times(threads: Seq<CommentThreadView>)
    ensures
        comment_store::ids_distinct(threads) <==> (forall|id: ThreadId|
            #[trigger] times(threads, id) <= 1),
    decreases threads.len(),
{
    if threads.len() > 0 {
        let fewer = threads.drop_last();
        let last = threads.last();
        lemma_distinct_by_times(fewer);
        if comment_store::ids_distinct(threads) {
            assert(comment_store::ids_distinct(fewer)) by {
                assert forall|i: int, j: int|
                    0 <= i < fewer.len() && 0 <= j < fewer.len() && (#[trigger] fewer[i]).id == (
                    #[trigger] fewer[j]).id implies i == j by {
                    assert(threads[i].id == threads[j].id);
                }
            }
            comment_store::lemma_thread_index(fewer, last.id);
            lemma_times_found(fewer, last.id);
            if found(fewer, last.id) is Some {
                let i = comment_store::thread_index(fewer, last.id)->0;
                assert(threads[i].id == threads[threads.len() - 1].id);
            }
            assert forall|id: ThreadId| #[trigger] times(threads, id) <= 1 by {
                assert(times(fewer, id) <= 1);
            }
        }
        if forall|id: ThreadId| #[trigger] times(threads, id) <= 1 {
            assert forall|id: ThreadId| #[trigger] times(fewer, id) <= 1 by {
                assert(times(threads, id) <= 1);
            }
            assert forall|i: int, j: int|
                0 <= i < threads.len() && 0 <= j < threads.len() && (#[trigger] threads[i]).id == (
                #[trigger] threads[j]).id implies i == j by {
                assert(times(threads, last.id) <= 1);
                if i < fewer.len() && j < fewer.len() {
                    assert(fewer[i].id == fewer[j].id);
                } else if i < fewer.len() {
                    lemma_times_at(fewer, i);
                } else if j < fewer.len() {
                    lemma_times_at(fewer, j);
                }
            }
        }
    }
}

proof fn lemma_without(threads: Seq<CommentThreadView>, gone: ThreadId, id: ThreadId)
    ensures
        found(comment_store::without_thread(threads, gone), id) == (if id == gone {
            None
        } else {
            found(threads, id)
        }),
        times(comment_store::without_thread(threads, gone), id) == (if id == gone {
            0
        } else {
            times(threads, id)
        }),
    decreases threads.len(),
{
    if threads.len() > 0 {
        let fewer = threads.drop_last();
        lemma_without(fewer, gone, id);
        let left = comment_store::without_thread(fewer, gone);
        comment_store::lemma_thread_index(fewer, id);
        comment_store::lemma_thread_index(left, id);
        if threads.last().id != gone {
            assert(left.push(threads.last()).drop_last() =~= left);
        }
    }
}

proof fn lemma_without_subset(threads: Seq<CommentThreadView>, gone: ThreadId, file: Seq<char>)
    requires
        forall|i: int| 0 <= i < threads.len() ==> (#[trigger] threads[i]).file == file,
    ensures
        forall|i: int|
            0 <= i < comment_store::without_thread(threads, gone).len() ==> (
            #[trigger] comment_store::without_thread(threads, gone)[i]).file == file,
    decreases threads.len(),
{
    if threads.len() > 0 {
        assert forall|i: int| 0 <= i < threads.len() - 1 implies (
        #[trigger] threads.drop_last()[i]).file == file by {
            assert(threads[i].file == file);
        }
        lemma_without_subset(threads.drop_last(), gone, file);
        assert(threads[threads.len() - 1].file == file);
    }
}

proof fn lemma_put_in_list(threads: Seq<CommentThreadView>, thread: CommentThreadView, id: ThreadId)
    ensures
        found(comment_store::put_in_list(threads, thread), id) == (if id == thread.id {
            Some(thread)
        } else {
            found(threads, id)
        }),
        id != thread.id ==> times(comment_store::put_in_list(threads, thread), id) == times(
            threads,
            id,
        ),
        id == thread.id && times(threads, id) <= 1 ==> times(
            comment_store::put_in_list(threads, thread),
            id,
        ) == 1,
{
    comment_store::lemma_thread_index(threads, thread.id);
    match comment_store::thread_index(threads, thread.id) {
        Some(i) => {
            lemma_replaced(threads, i, thread, id);
            lemma_times_at(threads, i);
        },
        None => {
            assert(threads.push(thread).drop_last() =~= threads);
            comment_store::lemma_thread_index(threads, id);
            lemma_times_found(threads, thread.id);
        },
    }
}

proof fn lemma_replaced(
    threads: Seq<CommentThreadView>,
    i: int,
    thread: CommentThreadView,
    id: ThreadId,
)
    requires
        comment_store::thread_index(threads, thread.id) == Some(i),
    ensures
        found(threads.update(i, thread), id) == (if id == thread.id {
            Some(thread)
        } else {
            found(threads, id)
        }),
        times(threads.update(i, thread), id) == times(threads, id),
    decreases threads.len(),
{
    let after = threads.update(i, thread);
    comment_store::lemma_thread_index(threads, thread.id);
    comment_store::lemma_thread_index(threads, id);
    comment_store::lemma_thread_index(after, id);
    if id == thread.id {
        assert(after[i].id == id);
        assert forall|j: int| 0 <= j < i implies (#[trigger] after[j]).id != id by {
            assert(threads[j].id != id);
        }
    } else {
        assert forall|j: int| 0 <= j < threads.len() implies ((#[trigger] after[j]).id == id)
            == (threads[j].id == id) by {}
        match comment_store::thread_index(threads, id) {
            Some(k) => {
                assert(after[k].id == id);
                let at = comment_store::thread_index(after, id)->0;
                assert(threads[at].id == id);
            },
            None => {
                if comment_store::thread_index(after, id) is Some {
                    let at = comment_store::thread_index(after, id)->0;
                    assert(threads[at].id == id);
                }
            },
        }
    }
    lemma_times_same_ids(threads, after, id);
}

proof fn lemma_times_same_ids(a: Seq<CommentThreadView>, b: Seq<CommentThreadView>, id: ThreadId)
    requires
        a.len() == b.len(),
        forall|j: int| 0 <= j < a.len() ==> (#[trigger] a[j]).id == (#[trigger] b[j]).id,
    ensures
        times(a, id) == times(b, id),
    decreases a.len(),
{
    if a.len() > 0 {
        assert forall|j: int| 0 <= j < a.len() - 1 implies (#[trigger] a.drop_last()[j]).id == (
        #[trigger] b.drop_last()[j]).id by {
            assert(a[j].id == b[j].id);
        }
        lemma_times_same_ids(a.drop_last(), b.drop_last(), id);
        assert(a[a.len() - 1].id == b[b.len() - 1].id);
    }
}

/// A lookup finds the first thread of the whole store with the identifier.
pub proof fn lemma_thread_is_first(store: CommentStoreView, id: ThreadId)
    ensures
        store.thread(id) == found(store.threads(), id),
    decreases store.files.len(),
{
    let files = store.files;
    if files.len() > 0 {
        let fewer = CommentStoreView { files: files.drop_last(), ..store };
        lemma_thread_is_first(fewer, id);
        lemma_found_concat(fewer.threads(), files.last().threads, id);
        comment_store::lemma_holder_index(fewer.files, id);
        match comment_store::holder_index(fewer.files, id) {
            Some(g) => {
                assert(files[g] == fewer.files[g]);
            },
            None => {},
        }
    }
}

proof fn lemma_update_group(
    files: Seq<FileThreadsView>,
    g: int,
    group: FileThreadsView,
    id: ThreadId,
)
    requires
        0 <= g < files.len(),
    ensures
        times(comment_store::threads_of(files.update(g, group)), id) + times(files[g].threads, id)
            == times(comment_store::threads_of(files), id) + times(group.threads, id),
        found(group.threads, id) == found(files[g].threads, id) ==> found(
            comment_store::threads_of(files.update(g, group)),
            id,
        ) == found(comment_store::threads_of(files), id),
        (forall|h: int| 0 <= h < g ==> found((#[trigger] files[h]).threads, id) is None) && found(
            group.threads,
            id,
        ) is Some ==> found(comment_store::threads_of(files.update(g, group)), id) == found(
            group.threads,
            id,
        ),
    decreases files.len(),
{
    let after = files.update(g, group);
    let fewer = files.drop_last();
    lemma_found_concat(comment_store::threads_of(fewer), files.last().threads, id);
    lemma_found_concat(comment_store::threads_of(after.drop_last()), after.last().threads, id);
    if g == files.len() - 1 {
        assert(after.drop_last() =~= fewer);
        if forall|h: int| 0 <= h < g ==> found((#[trigger] files[h]).threads, id) is None {
            lemma_none_found(fewer, id);
        }
    } else {
        assert(after.drop_last() =~= fewer.update(g, group));
        lemma_update_group(fewer, g, group, id);
        if forall|h: int| 0 <= h < g ==> found((#[trigger] files[h]).threads, id) is None {
            assert forall|h: int| 0 <= h < g implies found((#[trigger] fewer[h]).threads, id) is None by {
                assert(found(files[h].threads, id) is None);
            }
        }
    }
}

proof fn lemma_none_found(files: Seq<FileThreadsView>, id: ThreadId)
    requires
        forall|h: int| 0 <= h < files.len() ==> found((#[trigger] files[h]).threads, id) is None,
    ensures
        found(comment_store::threads_of(files), id) is None,
    decreases files.len(),
{
    if files.len() > 0 {
        let fewer = files.drop_last();
        assert forall|h: int| 0 <= h < fewer.len() implies found(
            (#[trigger] fewer[h]).threads,
            id,
        ) is None by {
            assert(found(files[h].threads, id) is None);
        }
        lemma_none_found(fewer, id);
        lemma_found_concat(comment_store::threads_of(fewer), files.last().threads, id);
        assert(found(files[files.len() - 1].threads, id) is None);
    }
}

proof fn lemma_stripped(
    files: Seq<FileThreadsView>,
    gone: ThreadId,
    kept: Option<Seq<char>>,
    id: ThreadId,
)
    ensures
        id != gone ==> found(
            comment_store::threads_of(comment_store::stripped(files, gone, kept)),
            id,
        ) == found(comment_store::threads_of(files), id),
        id != gone ==> times(
            comment_store::threads_of(comment_store::stripped(files, gone, kept)),
            id,
        ) == times(comment_store::threads_of(files), id),
        times(comment_store::threads_of(comment_store::stripped(files, gone, kept)), id) <= times(
            comment_store::threads_of(files),
            id,
        ),
        id == gone && kept is None ==> times(
            comment_store::threads_of(comment_store::stripped(files, gone, kept)),
            id,
        ) == 0,
        forall|g: int|
            0 <= g < comment_store::stripped(files, gone, kept).len() && kept != Some(
                (#[trigger] comment_store::stripped(files, gone, kept)[g]).file,
            ) ==> times(comment_store::stripped(files, gone, kept)[g].threads, gone) == 0,
    decreases files.len(),
{
    if files.len() > 0 {
        let fewer = files.drop_last();
        let group = files.last();
        let rest = comment_store::stripped(fewer, gone, kept);
        let left = comment_store::without_thread(group.threads, gone);
        lemma_stripped(fewer, gone, kept, id);
        lemma_found_concat(comment_store::threads_of(fewer), group.threads, id);
        lemma_without(group.threads, gone, id);
        lemma_without(group.threads, gone, gone);
        let after = comment_store::stripped(files, gone, kept);
        if kept == Some(group.file) {
            assert(rest.push(group).drop_last() =~= rest);
            lemma_found_concat(comment_store::threads_of(rest), group.threads, id);
        } else if left.len() == 0 {
            assert(found(left, id) is None);
            assert(times(left, id) == 0);
        } else {
            let next = FileThreadsView { file: group.file, threads: left };
            assert(rest.push(next).drop_last() =~= rest);
            lemma_found_concat(comment_store::threads_of(rest), left, id);
        }
        assert forall|g: int|
            0 <= g < after.len() && kept != Some((#[trigger] after[g]).file) implies times(
            after[g].threads,
            gone,
        ) == 0 by {
            if g < rest.len() {
                assert(after[g] == rest[g]);
            }
        }
    }
}

proof fn lemma_stripped_grouped(
    files: Seq<FileThreadsView>,
    gone: ThreadId,
    kept: Option<Seq<char>>,
)
    requires
        comment_store::well_grouped(files),
    ensures
        comment_store::well_grouped(comment_store::stripped(files, gone, kept)),
        forall|file: Seq<char>|
            #[trigger] comment_store::file_index(files, file) is None
                ==> comment_store::file_index(
                comment_store::stripped(files, gone, kept),
                file,
            ) is None,
        forall|file: Seq<char>|
            #![trigger comment_store::file_index(comment_store::stripped(files, gone, kept), file)]
            listed(comment_store::stripped(files, gone, kept), file) == (if kept == Some(file) {
                listed(files, file)
            } else {
                comment_store::without_thread(listed(files, file), gone)
            }),
    decreases files.len(),
{
    let after = comment_store::stripped(files, gone, kept);
    if files.len() > 0 {
        let fewer = files.drop_last();
        let group = files.last();
        let rest = comment_store::stripped(fewer, gone, kept);
        let left = comment_store::without_thread(group.threads, gone);
        assert(comment_store::well_grouped(fewer)) by {
            assert forall|g: int| 0 <= g < fewer.len() implies #[trigger] fewer[g] == files[g] by {}
        }
        lemma_stripped_grouped(fewer, gone, kept);
        comment_store::lemma_file_index(fewer, group.file);
        if comment_store::file_index(fewer, group.file) is Some {
            let g = comment_store::file_index(fewer, group.file)->0;
            assert(files[g].file == files[files.len() - 1].file);
        }
        comment_store::lemma_file_index(rest, group.file);
        assert forall|i: int| 0 <= i < group.threads.len() implies (
        #[trigger] group.threads[i]).file == group.file by {
            assert(files[files.len() - 1].threads[i].file == files[files.len() - 1].file);
        }
        lemma_without_subset(group.threads, gone, group.file);
        assert forall|g: int| 0 <= g < rest.len() implies #[trigger] after[g] == rest[g] by {}
        assert(after.len() > rest.len() ==> after.drop_last() =~= rest);
        assert forall|g: int, h: int|
            0 <= g < after.len() && 0 <= h < after.len() && (#[trigger] after[g]).file == (
            #[trigger] after[h]).file implies g == h by {
            if g < rest.len() && h < rest.len() {
                assert(rest[g].file == rest[h].file);
            } else if g < rest.len() {
                assert(rest[g].file != group.file);
            } else if h < rest.len() {
                assert(rest[h].file != group.file);
            }
        }
        assert forall|g: int, i: int|
            0 <= g < after.len() && 0 <= i < after[g].threads.len() implies (
        #[trigger] after[g].threads[i]).file == after[g].file by {
            if g < rest.len() {
                assert(rest[g].threads[i].file == rest[g].file);
            }
        }
        assert forall|g: int| 0 <= g < after.len() implies (
        #[trigger] after[g]).threads.len() > 0 by {
            if g < rest.len() {
                assert(rest[g].threads.len() > 0);
            } else {
                assert(files[files.len() - 1].threads.len() > 0);
            }
        }
        assert forall|file: Seq<char>|
            #[trigger] comment_store::file_index(files, file) is None implies comment_store::file_index(
            after,
            file,
        ) is None by {
            assert(comment_store::file_index(fewer, file) is None);
        }
        assert forall|file: Seq<char>|
            #![trigger comment_store::file_index(after, file)]
            listed(after, file) == (if kept == Some(file) {
                listed(files, file)
            } else {
                comment_store::without_thread(listed(files, file), gone)
            }) by {
            assert(comment_store::file_index(rest, file) == comment_store::file_index(rest, file));
            comment_store::lemma_file_index(rest, file);
            comment_store::lemma_file_index(fewer, file);
            if file == group.file {
                assert(comment_store::file_index(fewer, file) is None);
                assert(comment_store::file_index(rest, file) is None);
                assert(listed(files, file) == group.threads);
            } else {
                assert(listed(files, file) == listed(fewer, file));
                assert(listed(after, file) == listed(rest, file));
            }
        }
    }
}

/// After an upsert a lookup finds the thread as it was given, and every other
/// thread as it was.
pub proof fn lemma_upsert_then_lookup(
    store: CommentStoreView,
    thread: CommentThreadView,
    id: ThreadId,
)
    ensures
        store.upserted(thread).thread(id) == (if id == thread.id {
            Some(thread)
        } else {
            store.thread(id)
        }),
{
    let base = comment_store::stripped(store.files, thread.id, Some(thread.file));
    let after = comment_store::put_in_file(base, thread);
    lemma_thread_is_first(store, id);
    lemma_thread_is_first(store.upserted(thread), id);
    lemma_stripped(store.files, thread.id, Some(thread.file), id);
    comment_store::lemma_file_index(base, thread.file);
    match comment_store::file_index(base, thread.file) {
        Some(g) => {
            let group = FileThreadsView {
                file: base[g].file,
                threads: comment_store::put_in_list(base[g].threads, thread),
            };
            lemma_put_in_list(base[g].threads, thread, id);
            assert forall|h: int| 0 <= h < g && id == thread.id implies found(
                (#[trigger] base[h]).threads,
                id,
            ) is None by {
                lemma_times_found(base[h].threads, id);
            }
            lemma_update_group(base, g, group, id);
        },
        None => {
            let one = seq![thread];
            assert(after.drop_last() =~= base);
            lemma_found_concat(comment_store::threads_of(base), one, id);
            comment_store::lemma_thread_index(one, id);
            assert(one[0] == thread);
            if id == thread.id {
                assert forall|h: int| 0 <= h < base.len() implies found(
                    (#[trigger] base[h]).threads,
                    id,
                ) is None by {
                    lemma_times_found(base[h].threads, id);
                }
                lemma_none_found(base, id);
            }
        },
    }
}

/// After a removal a lookup does not find the thread, and finds every other
/// thread as it was.
pub proof fn lemma_remove_then_lookup(store: CommentStoreView, gone: ThreadId, id: ThreadId)
    ensures
        store.removed(gone).thread(id) == (if id == gone {
            None
        } else {
            store.thread(id)
        }),
{
    lemma_thread_is_first(store, id);
    lemma_thread_is_first(store.removed(gone), id);
    lemma_stripped(store.files, gone, None, id);
    lemma_times_found(store.removed(gone).threads(), id);
}

/// After a change to one thread a lookup finds that thread changed, and every
/// other thread as it was.
pub proof fn lemma_change_then_lookup(
    store: CommentStoreView,
    changed: ThreadId,
    f: spec_fn(CommentThreadView) -> CommentThreadView,
    id: ThreadId,
)
    requires
        forall|t: CommentThreadView| (#[trigger] f(t)).id == t.id,
    ensures
        store.with_thread(changed, f).thread(id) == (if id == changed {
            match store.thread(changed) {
                Some(t) => Some(f(t)),
                None => None,
            }
        } else {
            store.thread(id)
        }),
{
    let files = store.files;
    lemma_thread_is_first(store, id);
    lemma_thread_is_first(store.with_thread(changed, f), id);
    comment_store::lemma_holder_index(files, changed);
    match comment_store::holder_index(files, changed) {
        Some(g) => {
            comment_store::lemma_thread_index(files[g].threads, changed);
            let i = comment_store::thread_index(files[g].threads, changed)->0;
            let next = f(files[g].threads[i]);
            let group = FileThreadsView {
                file: files[g].file,
                threads: files[g].threads.update(i, next),
            };
            lemma_replaced(files[g].threads, i, next, id);
            assert forall|h: int| 0 <= h < g && id == changed implies found(
                (#[trigger] files[h]).threads,
                id,
            ) is None by {}
            lemma_update_group(files, g, group, id);
        },
        None => {},
    }
}

/// Inserting or replacing a thread puts it last in its file, or in the place
/// of the thread with its identifier there; a thread with its identifier in
/// another file is gone.
pub proof fn lemma_upsert_by_file(
    store: CommentStoreView,
    thread: CommentThreadView,
    file: Seq<char>,
)
    requires
        store.wf(),
    ensures
        store.upserted(thread).threads_for_file(file) == (if file == thread.file {
            comment_store::put_in_list(store.threads_for_file(file), thread)
        } else {
            comment_store::without_thread(store.threads_for_file(file), thread.id)
        }),
{
    let base = comment_store::stripped(store.files, thread.id, Some(thread.file));
    let after = comment_store::put_in_file(base, thread);
    lemma_stripped_grouped(store.files, thread.id, Some(thread.file));
    assert(listed(base, file) == (if file == thread.file {
        listed(store.files, file)
    } else {
        comment_store::without_thread(listed(store.files, file), thread.id)
    }));
    lemma_put_file_listed(base, thread, file);
}

proof fn lemma_put_file_listed(
    base: Seq<FileThreadsView>,
    thread: CommentThreadView,
    file: Seq<char>,
)
    ensures
        listed(comment_store::put_in_file(base, thread), file) == (if file == thread.file {
            comment_store::put_in_list(listed(base, file), thread)
        } else {
            listed(base, file)
        }),
{
    let after = comment_store::put_in_file(base, thread);
    comment_store::lemma_file_index(base, thread.file);
    comment_store::lemma_file_index(base, file);
    comment_store::lemma_file_index(after, file);
    match comment_store::file_index(base, thread.file) {
        Some(g) => {
            assert forall|h: int| 0 <= h < base.len() implies (#[trigger] after[h]).file
                == base[h].file by {}
            match comment_store::file_index(base, file) {
                Some(h) => {
                    assert(after[h].file == file);
                    let at = comment_store::file_index(after, file)->0;
                    assert(base[at].file == file);
                },
                None => {
                    if comment_store::file_index(after, file) is Some {
                        let at = comment_store::file_index(after, file)->0;
                        assert(base[at].file == file);
                    }
                },
            }
        },
        None => {
            assert(after.drop_last() =~= base);
            assert(Seq::<CommentThreadView>::empty().push(thread) =~= seq![thread]);
        },
    }
}

/// Removing a thread leaves the other threads of every file in their order.
pub proof fn lemma_remove_by_file(store: CommentStoreView, gone: ThreadId, file: Seq<char>)
    requires
        store.wf(),
    ensures
        store.removed(gone).threads_for_file(file) == comment_store::without_thread(
            store.threads_for_file(file),
            gone,
        ),
{
    lemma_stripped_grouped(store.files, gone, None);
    let after = comment_store::stripped(store.files, gone, None);
    assert(listed(after, file) == comment_store::without_thread(listed(store.files, file), gone));
    if comment_store::holder_index(store.files, gone) is None {
        comment_store::lemma_holder_index(store.files, gone);
        comment_store::lemma_file_index(store.files, file);
        match comment_store::file_index(store.files, file) {
            Some(g) => {
                lemma_without_absent(store.files[g].threads, gone);
            },
            None => {},
        }
    }
}

proof fn lemma_without_absent(threads: Seq<CommentThreadView>, gone: ThreadId)
    requires
        comment_store::thread_index(threads, gone) is None,
    ensures
        comment_store::without_thread(threads, gone) == threads,
    decreases threads.len(),
{
    if threads.len() > 0 {
        lemma_without_absent(threads.drop_last(), gone);
        assert(threads.drop_last().push(threads.last()) =~= threads);
    }
}

/// An upsert keeps the store in order.
pub proof fn lemma_upsert_keeps_order(store: CommentStoreView, thread: CommentThreadView)
    requires
        store.wf(),
    ensures
        store.upserted(thread).wf(),
{
    let kept = Some(thread.file);
    let base = comment_store::stripped(store.files, thread.id, kept);
    let after = comment_store::put_in_file(base, thread);
    lemma_stripped_grouped(store.files, thread.id, kept);
    comment_store::lemma_file_index(base, thread.file);
    lemma_distinct_by_times(store.threads());
    match comment_store::file_index(base, thread.file) {
        Some(g) => {
            let list = base[g].threads;
            let put = comment_store::put_in_list(list, thread);
            comment_store::lemma_thread_index(list, thread.id);
            assert forall|i: int| 0 <= i < put.len() implies (#[trigger] put[i]).file
                == base[g].file by {
                if i < list.len() {
                    assert(base[g].threads[i].file == base[g].file);
                }
            }
            assert forall|h: int, i: int|
                0 <= h < after.len() && 0 <= i < after[h].threads.len() implies (
            #[trigger] after[h].threads[i]).file == after[h].file by {
                if h != g {
                    assert(base[h].threads[i].file == base[h].file);
                }
            }
            assert forall|h: int, k: int|
                0 <= h < after.len() && 0 <= k < after.len() && (#[trigger] after[h]).file == (
                #[trigger] after[k]).file implies h == k by {
                assert(base[h].file == base[k].file);
            }
            assert forall|h: int| 0 <= h < after.len() implies (
            #[trigger] after[h]).threads.len() > 0 by {
                assert(base[h].threads.len() > 0);
            }
        },
        None => {
            assert forall|h: int, i: int|
                0 <= h < after.len() && 0 <= i < after[h].threads.len() implies (
            #[trigger] after[h].threads[i]).file == after[h].file by {
                if h < base.len() {
                    assert(base[h].threads[i].file == base[h].file);
                }
            }
            assert forall|h: int, k: int|
                0 <= h < after.len() && 0 <= k < after.len() && (#[trigger] after[h]).file == (
                #[trigger] after[k]).file implies h == k by {
                if h < base.len() && k < base.len() {
                    assert(base[h].file == base[k].file);
                } else if h < base.len() {
                    assert(base[h].file != thread.file);
                } else if k < base.len() {
                    assert(base[k].file != thread.file);
                }
            }
            assert forall|h: int| 0 <= h < after.len() implies (
            #[trigger] after[h]).threads.len() > 0 by {
                if h < base.len() {
                    assert(base[h].threads.len() > 0);
                }
            }
        },
    }
    assert forall|id: ThreadId| #[trigger] times(comment_store::threads_of(after), id) <= 1 by {
        assert(times(store.threads(), id) <= 1);
        lemma_stripped(store.files, thread.id, kept, id);
        match comment_store::file_index(base, thread.file) {
            Some(g) => {
                let group = FileThreadsView {
                    file: base[g].file,
                    threads: comment_store::put_in_list(base[g].threads, thread),
                };
                lemma_update_group(base, g, base[g], id);
                lemma_update_group(base, g, group, id);
                lemma_times_in_group(base, g, id);
                lemma_put_in_list(base[g].threads, thread, id);
                if id == thread.id {
                    assert forall|h: int| 0 <= h < base.len() && h != g implies times(
                        (#[trigger] base[h]).threads,
                        id,
                    ) == 0 by {
                        assert(base[h].file != base[g].file);
                    }
                    lemma_times_one_group(base, g, id);
                }
            },
            None => {
                let one = seq![thread];
                assert(after.drop_last() =~= base);
                lemma_found_concat(comment_store::threads_of(base), one, id);
                assert(one.drop_last() =~= Seq::empty());
                assert(times(Seq::empty(), id) == 0);
                assert(one.last() == thread);
                if id == thread.id {
                    assert forall|h: int| 0 <= h < base.len() implies found(
                        (#[trigger] base[h]).threads,
                        id,
                    ) is None by {
                        lemma_times_found(base[h].threads, id);
                    }
                    lemma_none_found(base, id);
                    lemma_times_found(comment_store::threads_of(base), id);
                }
            },
        }
    }
    lemma_distinct_by_times(comment_store::threads_of(after));
}

proof fn lemma_times_in_group(files: Seq<FileThreadsView>, g: int, id: ThreadId)
    requires
        0 <= g < files.len(),
    ensures
        times(files[g].threads, id) <= times(comment_store::threads_of(files), id),
    decreases files.len(),
{
    let fewer = files.drop_last();
    lemma_found_concat(comment_store::threads_of(fewer), files.last().threads, id);
    if g < fewer.len() {
        lemma_times_in_group(fewer, g, id);
        assert(fewer[g] == files[g]);
    }
}

proof fn lemma_times_one_group(files: Seq<FileThreadsView>, g: int, id: ThreadId)
    requires
        0 <= g < files.len(),
        forall|h: int|
            0 <= h < files.len() && h != g ==> times((#[trigger] files[h]).threads, id) == 0,
    ensures
        times(comment_store::threads_of(files), id) == times(files[g].threads, id),
    decreases files.len(),
{
    let fewer = files.drop_last();
    lemma_found_concat(comment_store::threads_of(fewer), files.last().threads, id);
    if g < fewer.len() {
        assert forall|h: int| 0 <= h < fewer.len() && h != g implies times(
            (#[trigger] fewer[h]).threads,
            id,
        ) == 0 by {
            assert(times(files[h].threads, id) == 0);
        }
        lemma_times_one_group(fewer, g, id);
        assert(times(files[files.len() - 1].threads, id) == 0);
    } else {
        assert forall|h: int| 0 <= h < fewer.len() implies found(
            (#[trigger] fewer[h]).threads,
            id,
        ) is None by {
            assert(times(files[h].threads, id) == 0);
            lemma_times_found(fewer[h].threads, id);
        }
        lemma_none_found(fewer, id);
        lemma_times_found(comment_store::threads_of(fewer), id);
    }
}

/// A removal keeps the store in order.
pub proof fn lemma_remove_keeps_order(store: CommentStoreView, gone: ThreadId)
    requires
        store.wf(),
    ensures
        store.removed(gone).wf(),
{
    let after = comment_store::stripped(store.files, gone, None);
    lemma_stripped_grouped(store.files, gone, None);
    lemma_distinct_by_times(store.threads());
    assert forall|id: ThreadId| #[trigger] times(comment_store::threads_of(after), id) <= 1 by {
        assert(times(store.threads(), id) <= 1);
        lemma_stripped(store.files, gone, None, id);
    }
    lemma_distinct_by_times(comment_store::threads_of(after));
}

/// A change to one thread that keeps its identifier and its file keeps the
/// store in order.
pub proof fn lemma_change_keeps_order(
    store: CommentStoreView,
    changed: ThreadId,
    f: spec_fn(CommentThreadView) -> CommentThreadView,
)
    requires
        store.wf(),
        forall|t: CommentThreadView| (#[trigger] f(t)).id == t.id && f(t).file == t.file,
    ensures
        store.with_thread(changed, f).wf(),
{
    let files = store.files;
    let after = comment_store::with_thread(files, changed, f);
    comment_store::lemma_holder_index(files, changed);
    match comment_store::holder_index(files, changed) {
        Some(g) => {
            comment_store::lemma_thread_index(files[g].threads, changed);
            let i = comment_store::thread_index(files[g].threads, changed)->0;
            let next = f(files[g].threads[i]);
            let group = FileThreadsView {
                file: files[g].file,
                threads: files[g].threads.update(i, next),
            };
            assert(after == files.update(g, group));
            assert forall|h: int, k: int|
                0 <= h < after.len() && 0 <= k < after[h].threads.len() implies (
            #[trigger] after[h].threads[k]).file == after[h].file by {
                assert(files[h].threads[k].file == files[h].file);
            }
            assert forall|h: int, k: int|
                0 <= h < after.len() && 0 <= k < after.len() && (#[trigger] after[h]).file == (
                #[trigger] after[k]).file implies h == k by {
                assert(files[h].file == files[k].file);
            }
            assert forall|h: int| 0 <= h < after.len() implies (
            #[trigger] after[h]).threads.len() > 0 by {
                assert(files[h].threads.len() > 0);
            }
            lemma_distinct_by_times(store.threads());
            assert forall|id: ThreadId| #[trigger] times(comment_store::threads_of(after), id)
                <= 1 by {
                assert(times(store.threads(), id) <= 1);
                lemma_replaced(files[g].threads, i, next, id);
                lemma_update_group(files, g, group, id);
            }
            lemma_distinct_by_times(comment_store::threads_of(after));
        },
        None => {},
    }
}

proof fn lemma_appended(files: Seq<FileThreadsView>, thread: CommentThreadView, id: ThreadId)
    requires
        comment_store::well_grouped(files),
    ensures
        comment_store::well_grouped(persistence::appended(files, thread)),
        times(comment_store::threads_of(persistence::appended(files, thread)), id) == times(
            comment_store::threads_of(files),
            id,
        ) + if thread.id == id {
            1nat
        } else {
            0
        },
{
    let after = persistence::appended(files, thread);
    comment_store::lemma_file_index(files, thread.file);
    match comment_store::file_index(files, thread.file) {
        Some(g) => {
            let list = files[g].threads;
            let group = FileThreadsView { file: files[g].file, threads: list.push(thread) };
            assert(list.push(thread).drop_last() =~= list);
            lemma_update_group(files, g, group, id);
            assert forall|h: int, k: int|
                0 <= h < after.len() && 0 <= k < after[h].threads.len() implies (
            #[trigger] after[h].threads[k]).file == after[h].file by {
                if k < files[h].threads.len() {
                    assert(files[h].threads[k].file == files[h].file);
                }
            }
            assert forall|h: int, k: int|
                0 <= h < after.len() && 0 <= k < after.len() && (#[trigger] after[h]).file == (
                #[trigger] after[k]).file implies h == k by {
                assert(files[h].file == files[k].file);
            }
            assert forall|h: int| 0 <= h < after.len() implies (
            #[trigger] after[h]).threads.len() > 0 by {
                assert(files[h].threads.len() > 0);
            }
        },
        None => {
            let one = seq![thread];
            assert(after.drop_last() =~= files);
            lemma_found_concat(comment_store::threads_of(files), one, id);
            assert(one.drop_last() =~= Seq::empty());
            assert(times(Seq::empty(), id) == 0);
            assert(one.last() == thread);
            assert forall|h: int, i: int|
                0 <= h < after.len() && 0 <= i < after[h].threads.len() implies (
            #[trigger] after[h].threads[i]).file == after[h].file by {
                if h < files.len() {
                    assert(files[h].threads[i].file == files[h].file);
                }
            }
            assert forall|h: int, k: int|
                0 <= h < after.len() && 0 <= k < after.len() && (#[trigger] after[h]).file == (
                #[trigger] after[k]).file implies h == k by {
                if h < files.len() && k < files.len() {
                    assert(files[h].file == files[k].file);
                } else if h < files.len() {
                    assert(files[h].file != thread.file);
                } else if k < files.len() {
                    assert(files[k].file != thread.file);
                }
            }
            assert forall|h: int| 0 <= h < after.len() implies (
            #[trigger] after[h]).threads.len() > 0 by {
                if h < files.len() {
                    assert(files[h].threads.len() > 0);
                }
            }
        },
    }
}

/// Whether no two of the rows that stand for threads name the same thread.
pub open spec fn rows_distinct(loaded: Seq<LoadedConversationView>) -> bool {
    forall|i: int, j: int|
        0 <= i < loaded.len() && 0 <= j < loaded.len() && persistence::is_thread_row(
            #[trigger] loaded[i],
        ) && persistence::is_thread_row(#[trigger] loaded[j]) && ids::thread_id_of(
            loaded[i].row.conversation_id,
        ) == ids::thread_id_of(loaded[j].row.conversation_id) ==> i == j
}

proof fn lemma_loaded_times(
    loaded: Seq<LoadedConversationView>,
    comments: Seq<DbCommentRowView>,
    id: ThreadId,
)
    ensures
        comment_store::well_grouped(persistence::index_of_rows(loaded, comments)),
        rows_distinct(loaded) ==> times(
            comment_store::threads_of(persistence::index_of_rows(loaded, comments)),
            id,
        ) <= 1,
        times(comment_store::threads_of(persistence::index_of_rows(loaded, comments)), id) > 0
            ==> exists|i: int|
            0 <= i < loaded.len() && persistence::is_thread_row(#[trigger] loaded[i])
                && ids::thread_id_of(loaded[i].row.conversation_id) == Some(id),
    decreases loaded.len(),
{
    if loaded.len() > 0 {
        let fewer = loaded.drop_last();
        let last = loaded.last();
        lemma_loaded_times(fewer, comments, id);
        let before = persistence::index_of_rows(fewer, comments);
        assert forall|i: int| 0 <= i < fewer.len() implies #[trigger] fewer[i] == loaded[i] by {}
        if rows_distinct(loaded) {
            assert(rows_distinct(fewer));
        }
        if times(comment_store::threads_of(before), id) > 0 {
            let i = choose|i: int|
                0 <= i < fewer.len() && persistence::is_thread_row(#[trigger] fewer[i])
                    && ids::thread_id_of(fewer[i].row.conversation_id) == Some(id);
            assert(loaded[i] == fewer[i]);
        }
        if persistence::is_thread_row(last) {
            let nodes = if persistence::claimed(fewer, last.row.conversation_id) {
                Seq::empty()
            } else {
                persistence::nodes_of_rows(comments, last.row.conversation_id)
            };
            lemma_appended(before, persistence::thread_of_row(last, nodes), id);
            assert(loaded[loaded.len() - 1] == last);
        }
    } else {
        assert(comment_store::threads_of(persistence::index_of_rows(loaded, comments))
            =~= Seq::empty());
    }
}

/// Loading puts a store in order whenever no two rows name the same thread;
/// its files are in order in any case.
pub proof fn lemma_load_in_order(
    store: CommentStoreView,
    loaded: Seq<LoadedConversationView>,
    comments: Seq<DbCommentRowView>,
)
    requires
        store.files == persistence::index_of_rows(loaded, comments),
    ensures
        comment_store::well_grouped(store.files),
        rows_distinct(loaded) ==> store.wf(),
{
    lemma_loaded_times(loaded, comments, ThreadId(0));
    assert forall|id: ThreadId| rows_distinct(loaded) implies #[trigger] times(store.threads(), id)
        <= 1 by {
        lemma_loaded_times(loaded, comments, id);
    }
    lemma_distinct_by_times(store.threads());
}

/// Changing one node leaves the rest of its thread as it was: every other
/// node, and everything about the thread but its nodes.
pub proof fn lemma_node_change_is_local(
    t: CommentThreadView,
    id: CommentId,
    f: spec_fn(CommentNodeView) -> CommentNodeView,
    i: int,
)
    requires
        0 <= i < t.nodes.len(),
    ensures
        ({
            let after = comment_store::with_node(t, id, f);
            &&& after == (CommentThreadView { nodes: after.nodes, ..t })
            &&& after.nodes.len() == t.nodes.len()
            &&& after.nodes[i] == (if thread::node_index(t.nodes, id) == Some(i) {
                f(t.nodes[i])
            } else {
                t.nodes[i]
            })
            &&& t.nodes[i].id != id ==> after.nodes[i] == t.nodes[i]
        }),
{
    thread::lemma_node_index(t.nodes, id);
}

} // verus!
