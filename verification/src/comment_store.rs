//! The per-workspace [`CommentStore`] that owns every comment thread.
//!
//! The store groups its threads by file. Files stand in the order in which
//! they were first commented on, threads of one file in insertion order.

use vstd::prelude::*;
use crate::comment::{CommentKind, CommentNode, CommentNodeView, CommentStatus, RelPath};
use crate::ids::{CommentId, ThreadId};
#[allow(unused_imports)]
use crate::store_laws;
#[allow(unused_imports)]
use crate::thread;
use crate::thread::{CommentThread, CommentThreadView, find_node};

verus! {

/// Database identifier of a workspace.
#[derive(Clone, Copy, PartialEq, Eq, Structural, Hash, Debug)]
pub struct WorkspaceId(pub i64);

/// Emitted whenever any thread or node changes; editors observe this to
/// refresh their rendered comment cards.
#[derive(Clone, Copy, PartialEq, Eq, Structural, Debug)]
pub enum CommentStoreEvent {
    Changed,
}

/// The threads of one file.
#[derive(Debug)]
pub struct FileThreads {
    pub file: RelPath,
    pub threads: Vec<CommentThread>,
}

/// The mathematical value of the threads of one file.
#[verifier::ext_equal]
pub struct FileThreadsView {
    pub file: Seq<char>,
    pub threads: Seq<CommentThreadView>,
}

impl View for FileThreads {
    type V = FileThreadsView;

    open spec fn view(&self) -> FileThreadsView {
        FileThreadsView { file: self.file@, threads: thread::thread_views(self.threads@) }
    }
}

/// The per-workspace owner of all comment threads.
pub struct CommentStore {
    workspace_id: WorkspaceId,
    files: Vec<FileThreads>,
}

/// The mathematical value of a [`CommentStore`].
#[verifier::ext_equal]
pub struct CommentStoreView {
    pub workspace_id: WorkspaceId,
    pub files: Seq<FileThreadsView>,
}

impl View for CommentStore {
    type V = CommentStoreView;

    closed spec fn view(&self) -> CommentStoreView {
        CommentStoreView { workspace_id: self.workspace_id, files: file_views(self.files@) }
    }
}

/// The values of a list of files.
pub open spec fn file_views(files: Seq<FileThreads>) -> Seq<FileThreadsView> {
    files.map_values(|f: FileThreads| f@)
}

/// The position of the first thread with an identifier.
pub open spec fn thread_index(threads: Seq<CommentThreadView>, id: ThreadId) -> Option<int>
    decreases threads.len(),
{
    if threads.len() == 0 {
        None
    } else {
        match thread_index(threads.drop_last(), id) {
            Some(i) => Some(i),
            None => if threads.last().id == id {
                Some(threads.len() - 1)
            } else {
                None
            },
        }
    }
}

/// The position of the first file with a thread that has the identifier.
pub open spec fn holder_index(files: Seq<FileThreadsView>, id: ThreadId) -> Option<int>
    decreases files.len(),
{
    if files.len() == 0 {
        None
    } else {
        match holder_index(files.drop_last(), id) {
            Some(i) => Some(i),
            None => if thread_index(files.last().threads, id) is Some {
                Some(files.len() - 1)
            } else {
                None
            },
        }
    }
}

/// The position of a file.
pub open spec fn file_index(files: Seq<FileThreadsView>, file: Seq<char>) -> Option<int>
    decreases files.len(),
{
    if files.len() == 0 {
        None
    } else {
        match file_index(files.drop_last(), file) {
            Some(i) => Some(i),
            None => if files.last().file == file {
                Some(files.len() - 1)
            } else {
                None
            },
        }
    }
}

/// Every thread of every file.
pub open spec fn threads_of(files: Seq<FileThreadsView>) -> Seq<CommentThreadView>
    decreases files.len(),
{
    if files.len() == 0 {
        Seq::empty()
    } else {
        threads_of(files.drop_last()) + files.last().threads
    }
}

/// The threads of a list but those with an identifier.
pub open spec fn without_thread(
    threads: Seq<CommentThreadView>,
    id: ThreadId,
) -> Seq<CommentThreadView>
    decreases threads.len(),
{
    if threads.len() == 0 {
        Seq::empty()
    } else if threads.last().id == id {
        without_thread(threads.drop_last(), id)
    } else {
        without_thread(threads.drop_last(), id).push(threads.last())
    }
}

/// The files after every thread with an identifier has gone from the files
/// other than `kept`; files that lose their last thread go too.
pub open spec fn stripped(
    files: Seq<FileThreadsView>,
    id: ThreadId,
    kept: Option<Seq<char>>,
) -> Seq<FileThreadsView>
    decreases files.len(),
{
    if files.len() == 0 {
        Seq::empty()
    } else {
        let rest = stripped(files.drop_last(), id, kept);
        let group = files.last();
        let left = without_thread(group.threads, id);
        if kept == Some(group.file) {
            rest.push(group)
        } else if left.len() == 0 {
            rest
        } else {
            rest.push(FileThreadsView { file: group.file, threads: left })
        }
    }
}

/// A file's threads with one of them inserted at the end, or put in the place
/// of the first one with the same identifier.
pub open spec fn put_in_list(
    threads: Seq<CommentThreadView>,
    thread: CommentThreadView,
) -> Seq<CommentThreadView> {
    match thread_index(threads, thread.id) {
        Some(i) => threads.update(i, thread),
        None => threads.push(thread),
    }
}

/// The files with a thread put into its own file.
pub open spec fn put_in_file(
    files: Seq<FileThreadsView>,
    thread: CommentThreadView,
) -> Seq<FileThreadsView> {
    match file_index(files, thread.file) {
        Some(g) => files.update(
            g,
            FileThreadsView {
                file: files[g].file,
                threads: put_in_list(files[g].threads, thread),
            },
        ),
        None => files.push(FileThreadsView { file: thread.file, threads: seq![thread] }),
    }
}

/// The files with the first thread that has an identifier changed by `f`.
pub open spec fn with_thread(
    files: Seq<FileThreadsView>,
    id: ThreadId,
    f: spec_fn(CommentThreadView) -> CommentThreadView,
) -> Seq<FileThreadsView> {
    match holder_index(files, id) {
        Some(g) => match thread_index(files[g].threads, id) {
            Some(i) => files.update(
                g,
                FileThreadsView {
                    file: files[g].file,
                    threads: files[g].threads.update(i, f(files[g].threads[i])),
                },
            ),
            None => files,
        },
        None => files,
    }
}

/// A thread with the first node that has an identifier changed by `f`.
pub open spec fn with_node(
    thread: CommentThreadView,
    id: CommentId,
    f: spec_fn(CommentNodeView) -> CommentNodeView,
) -> CommentThreadView {
    match thread::node_index(thread.nodes, id) {
        Some(i) => CommentThreadView { nodes: thread.nodes.update(i, f(thread.nodes[i])), ..thread },
        None => thread,
    }
}

/// Whether no two threads of a list share an identifier.
pub open spec fn ids_distinct(threads: Seq<CommentThreadView>) -> bool {
    forall|i: int, j: int|
        0 <= i < threads.len() && 0 <= j < threads.len() && (#[trigger] threads[i]).id == (
        #[trigger] threads[j]).id ==> i == j
}

/// Whether files are in order: none stands twice, none is empty, and every
/// thread stands in its own file.
pub open spec fn well_grouped(files: Seq<FileThreadsView>) -> bool {
    &&& forall|g: int, h: int|
        0 <= g < files.len() && 0 <= h < files.len() && (#[trigger] files[g]).file == (
        #[trigger] files[h]).file ==> g == h
    &&& forall|g: int| 0 <= g < files.len() ==> (#[trigger] files[g]).threads.len() > 0
    &&& forall|g: int, i: int|
        0 <= g < files.len() && 0 <= i < files[g].threads.len() ==> (
        #[trigger] files[g].threads[i]).file == files[g].file
}

impl CommentStoreView {
    /// What every store keeps: its files are in order and no two threads share
    /// an identifier.
    pub open spec fn wf(self) -> bool {
        &&& well_grouped(self.files)
        &&& ids_distinct(self.threads())
    }

    /// Every thread across every file.
    pub open spec fn threads(self) -> Seq<CommentThreadView> {
        threads_of(self.files)
    }

    /// The first thread with an identifier.
    pub open spec fn thread(self, id: ThreadId) -> Option<CommentThreadView> {
        match holder_index(self.files, id) {
            Some(g) => match thread_index(self.files[g].threads, id) {
                Some(i) => Some(self.files[g].threads[i]),
                None => None,
            },
            None => None,
        }
    }

    /// The threads of a file.
    pub open spec fn threads_for_file(self, file: Seq<char>) -> Seq<CommentThreadView> {
        match file_index(self.files, file) {
            Some(g) => self.files[g].threads,
            None => Seq::empty(),
        }
    }

    /// Whether the store has a thread with a node of the given identifiers.
    pub open spec fn has_node(self, thread_id: ThreadId, node_id: CommentId) -> bool {
        match self.thread(thread_id) {
            Some(thread) => thread::node_index(thread.nodes, node_id) is Some,
            None => false,
        }
    }

    /// The store after a thread was inserted or replaced.
    pub open spec fn upserted(self, thread: CommentThreadView) -> CommentStoreView {
        CommentStoreView {
            files: put_in_file(stripped(self.files, thread.id, Some(thread.file)), thread),
            ..self
        }
    }

    /// The store after a thread was removed.
    pub open spec fn removed(self, id: ThreadId) -> CommentStoreView {
        if holder_index(self.files, id) is Some {
            CommentStoreView { files: stripped(self.files, id, None), ..self }
        } else {
            self
        }
    }

    /// The store after a thread was changed by `f`.
    pub open spec fn with_thread(
        self,
        id: ThreadId,
        f: spec_fn(CommentThreadView) -> CommentThreadView,
    ) -> CommentStoreView {
        CommentStoreView { files: with_thread(self.files, id, f), ..self }
    }

    /// The store after a node got its number on the remote.
    pub open spec fn numbered(
        self,
        thread_id: ThreadId,
        node_id: CommentId,
        remote_id: i64,
    ) -> CommentStoreView {
        self.with_thread(
            thread_id,
            |t: CommentThreadView|
                with_node(
                    t,
                    node_id,
                    |n: CommentNodeView| CommentNodeView { remote_id: Some(remote_id), ..n },
                ),
        )
    }
}

/// The position of the first thread with an identifier is the least one.
pub proof fn lemma_thread_index(threads: Seq<CommentThreadView>, id: ThreadId)
    ensures
        match thread_index(threads, id) {
            Some(i) => {
                &&& 0 <= i < threads.len()
                &&& threads[i].id == id
                &&& forall|j: int| 0 <= j < i ==> (#[trigger] threads[j]).id != id
            },
            None => forall|j: int| 0 <= j < threads.len() ==> (#[trigger] threads[j]).id != id,
        },
    decreases threads.len(),
{
    if threads.len() > 0 {
        lemma_thread_index(threads.drop_last(), id);
        assert forall|j: int| 0 <= j < threads.len() - 1 implies #[trigger] threads[j]
            == threads.drop_last()[j] by {}
    }
}

/// The position of the first holder is the least one.
pub proof fn lemma_holder_index(files: Seq<FileThreadsView>, id: ThreadId)
    ensures
        match holder_index(files, id) {
            Some(i) => {
                &&& 0 <= i < files.len()
                &&& thread_index(files[i].threads, id) is Some
                &&& forall|j: int|
                    0 <= j < i ==> thread_index((#[trigger] files[j]).threads, id) is None
            },
            None => forall|j: int|
                0 <= j < files.len() ==> thread_index((#[trigger] files[j]).threads, id) is None,
        },
    decreases files.len(),
{
    if files.len() > 0 {
        lemma_holder_index(files.drop_last(), id);
        assert forall|j: int| 0 <= j < files.len() - 1 implies #[trigger] files[j]
            == files.drop_last()[j] by {}
    }
}

/// The position of a file is the least one.
pub proof fn lemma_file_index(files: Seq<FileThreadsView>, file: Seq<char>)
    ensures
        match file_index(files, file) {
            Some(i) => {
                &&& 0 <= i < files.len()
                &&& files[i].file == file
                &&& forall|j: int| 0 <= j < i ==> (#[trigger] files[j]).file != file
            },
            None => forall|j: int| 0 <= j < files.len() ==> (#[trigger] files[j]).file != file,
        },
    decreases files.len(),
{
    if files.len() > 0 {
        lemma_file_index(files.drop_last(), file);
        assert forall|j: int| 0 <= j < files.len() - 1 implies #[trigger] files[j]
            == files.drop_last()[j] by {}
    }
}

proof fn lemma_thread_changed(
    before: Seq<FileThreads>,
    after: Seq<FileThreads>,
    g: int,
    i: int,
    id: ThreadId,
    f: spec_fn(CommentThreadView) -> CommentThreadView,
)
    requires
        0 <= g < before.len(),
        0 <= i < before[g].threads@.len(),
        holder_index(file_views(before), id) == Some(g),
        thread_index(before[g]@.threads, id) == Some(i),
        after == before.update(g, after[g]),
        after[g].file == before[g].file,
        after[g].threads@ == before[g].threads@.update(i, after[g].threads@[i]),
        after[g].threads@[i]@ == f(before[g].threads@[i]@),
    ensures
        file_views(after) == with_thread(file_views(before), id, f),
{
    assert(after[g]@.threads =~= before[g]@.threads.update(i, f(before[g]@.threads[i])));
    assert(file_views(after) =~= file_views(before).update(g, after[g]@));
}

/// Finds the first thread with an identifier in a list.
fn find_thread(threads: &Vec<CommentThread>, id: ThreadId) -> (r: Option<usize>)
    ensures
        match r {
            Some(i) => {
                &&& i < threads.len()
                &&& thread_index(thread::thread_views(threads@), id) == Some(i as int)
            },
            None => thread_index(thread::thread_views(threads@), id) is None,
        },
{
    let ghost views = thread::thread_views(threads@);
    for i in 0..threads.len()
        invariant
            views == thread::thread_views(threads@),
            forall|j: int| 0 <= j < i ==> (#[trigger] views[j]).id != id,
    {
        if threads[i].id == id {
            proof {
                lemma_thread_index(views, id);
                assert(views[i as int].id == id);
            }
            return Some(i);
        }
    }
    proof {
        lemma_thread_index(views, id);
    }
    None
}

/// Finds a file.
pub(crate) fn find_file(files: &Vec<FileThreads>, path: &RelPath) -> (r: Option<usize>)
    ensures
        match r {
            Some(g) => {
                &&& g < files.len()
                &&& file_index(file_views(files@), path@) == Some(g as int)
            },
            None => file_index(file_views(files@), path@) is None,
        },
{
    let ghost views = file_views(files@);
    for g in 0..files.len()
        invariant
            views == file_views(files@),
            forall|j: int| 0 <= j < g ==> (#[trigger] views[j]).file != path@,
    {
        proof {
            assert(views[g as int] == files@[g as int]@);
        }
        if files[g].file.same(path) {
            proof {
                lemma_file_index(views, path@);
            }
            return Some(g);
        }
    }
    proof {
        lemma_file_index(views, path@);
    }
    None
}

/// The threads of a list but those with an identifier.
fn retain_others(threads: Vec<CommentThread>, id: ThreadId) -> (r: Vec<CommentThread>)
    ensures
        thread::thread_views(r@) == without_thread(thread::thread_views(threads@), id),
{
    let ghost views = thread::thread_views(threads@);
    let ghost all = threads@;
    let mut out: Vec<CommentThread> = Vec::new();
    proof {
        assert(views.take(0) =~= Seq::empty());
        assert(thread::thread_views(out@) =~= Seq::empty());
    }
    for t in it: threads
        invariant
            it.seq() == all,
            views == thread::thread_views(all),
            thread::thread_views(out@) == without_thread(views.take(it.index()), id),
    {
        proof {
            assert(views.take(it.index() + 1).drop_last() =~= views.take(it.index()));
            assert(views.take(it.index() + 1).last() == t@);
            assert(thread::thread_views(out@.push(t)) =~= thread::thread_views(out@).push(t@));
        }
        if t.id != id {
            out.push(t);
        }
    }
    proof {
        assert(views.take(views.len() as int) =~= views);
    }
    out
}

impl CommentStore {
    /// Creates an empty store for a workspace.
    pub fn new(workspace_id: WorkspaceId) -> (r: Self)
        ensures
            r@ == (CommentStoreView { workspace_id, files: Seq::empty() }),
            r@.wf(),
    {
        let r = CommentStore { workspace_id, files: Vec::new() };
        proof {
            assert(file_views(r.files@) =~= Seq::empty());
        }
        r
    }

    pub fn workspace_id(&self) -> (r: WorkspaceId)
        ensures
            r == self@.workspace_id,
    {
        self.workspace_id
    }

    /// Replaces every thread.
    pub(crate) fn replace_files(&mut self, files: Vec<FileThreads>)
        ensures
            final(self)@ == (CommentStoreView { files: file_views(files@), ..old(self)@ }),
    {
        self.files = files;
    }

    /// Where the first thread with an identifier stands.
    fn locate(&self, id: ThreadId) -> (r: Option<(usize, usize)>)
        ensures
            match r {
                Some((g, i)) => {
                    &&& g < self.files.len()
                    &&& i < self.files@[g as int].threads.len()
                    &&& holder_index(self@.files, id) == Some(g as int)
                    &&& thread_index(self@.files[g as int].threads, id) == Some(i as int)
                    &&& self@.files[g as int] == self.files@[g as int]@
                },
                None => holder_index(self@.files, id) is None,
            },
    {
        let ghost views = self@.files;
        for g in 0..self.files.len()
            invariant
                views == file_views(self.files@),
                views == self@.files,
                forall|j: int|
                    0 <= j < g ==> thread_index((#[trigger] views[j]).threads, id) is None,
        {
            proof {
                assert(views[g as int] == self.files@[g as int]@);
            }
            match find_thread(&self.files[g].threads, id) {
                Some(i) => {
                    proof {
                        lemma_holder_index(views, id);
                    }
                    return Some((g, i));
                },
                None => {},
            }
        }
        proof {
            lemma_holder_index(views, id);
        }
        None
    }

    /// Threads anchored in the given file, in insertion order.
    pub fn threads_for_file(&self, path: &RelPath) -> (r: &[CommentThread])
        ensures
            thread::thread_views(r@) == self@.threads_for_file(path@),
    {
        match find_file(&self.files, path) {
            Some(g) => self.files[g].threads.as_slice(),
            None => {
                let none: &[CommentThread] = &[];
                proof {
                    assert(thread::thread_views(none@) =~= Seq::empty());
                }
                none
            },
        }
    }

    /// Every thread across every file.
    pub fn all_threads(&self) -> (r: Vec<&CommentThread>)
        ensures
            thread::thread_ref_views(r@) == self@.threads(),
    {
        let mut out: Vec<&CommentThread> = Vec::new();
        let ghost views = self@.files;
        proof {
            assert(views.take(0) =~= Seq::empty());
            assert(thread::thread_ref_views(out@) =~= Seq::empty());
        }
        for g in 0..self.files.len()
            invariant
                views == file_views(self.files@),
                thread::thread_ref_views(out@) == threads_of(views.take(g as int)),
        {
            let list = &self.files[g].threads;
            let ghost before = thread::thread_ref_views(out@);
            let ghost mine = thread::thread_views(list@);
            proof {
                assert(mine.take(0) =~= Seq::empty());
                assert(before + mine.take(0) =~= before);
            }
            for i in 0..list.len()
                invariant
                    mine == thread::thread_views(list@),
                    thread::thread_ref_views(out@) == before + mine.take(i as int),
            {
                proof {
                    assert(thread::thread_ref_views(out@.push(&list@[i as int]))
                        =~= thread::thread_ref_views(out@).push(mine[i as int]));
                    assert(mine.take(i + 1) =~= mine.take(i as int).push(mine[i as int]));
                    assert(before + mine.take(i + 1) =~= (before + mine.take(i as int)).push(
                        mine[i as int],
                    ));
                }
                out.push(&list[i]);
            }
            proof {
                assert(mine.take(mine.len() as int) =~= mine);
                assert(views.take(g + 1).drop_last() =~= views.take(g as int));
                assert(views.take(g + 1).last() == self.files@[g as int]@);
            }
        }
        proof {
            assert(views.take(views.len() as int) =~= views);
        }
        out
    }

    /// The thread with an identifier, if there is one.
    pub fn thread(&self, id: ThreadId) -> (r: Option<&CommentThread>)
        ensures
            match r {
                Some(t) => self@.thread(id) == Some(t@),
                None => self@.thread(id) is None,
            },
    {
        match self.locate(id) {
            Some((g, i)) => Some(&self.files[g].threads[i]),
            None => None,
        }
    }

    /// Drops every thread with an identifier from the files other than `kept`.
    fn strip(&mut self, id: ThreadId, kept: Option<&RelPath>)
        ensures
            final(self)@.workspace_id == old(self)@.workspace_id,
            final(self)@.files == stripped(
                old(self)@.files,
                id,
                match kept {
                    Some(path) => Some(path@),
                    None => None,
                },
            ),
    {
        let ghost kept_text = match kept {
            Some(path) => Some(path@),
            None => None,
        };
        let mut old_files: Vec<FileThreads> = Vec::new();
        std::mem::swap(&mut old_files, &mut self.files);
        let ghost all = old_files@;
        let ghost views = file_views(all);
        let mut out: Vec<FileThreads> = Vec::new();
        proof {
            assert(views.take(0) =~= Seq::empty());
            assert(file_views(out@) =~= Seq::empty());
        }
        for group in it: old_files
            invariant
                it.seq() == all,
                views == file_views(all),
                kept_text == (match kept {
                    Some(path) => Some(path@),
                    None => None,
                }),
                file_views(out@) == stripped(views.take(it.index()), id, kept_text),
        {
            let ghost before = file_views(out@);
            proof {
                assert(views.take(it.index() + 1).drop_last() =~= views.take(it.index()));
                assert(views.take(it.index() + 1).last() == group@);
            }
            let keep = match kept {
                Some(path) => path.same(&group.file),
                None => false,
            };
            if keep {
                out.push(group);
                proof {
                    assert(file_views(out@) =~= before.push(group@));
                }
            } else {
                let FileThreads { file, threads } = group;
                let left = retain_others(threads, id);
                if left.len() > 0 {
                    let next = FileThreads { file, threads: left };
                    let ghost shown = next@;
                    out.push(next);
                    proof {
                        assert(file_views(out@) =~= before.push(shown));
                    }
                }
            }
        }
        proof {
            assert(views.take(views.len() as int) =~= views);
        }
        self.files = out;
    }

    /// Inserts a new thread or replaces an existing one with the same id.
    pub fn upsert_thread(&mut self, thread: CommentThread) -> (event: CommentStoreEvent)
        ensures
            final(self)@ == old(self)@.upserted(thread@),
            event == CommentStoreEvent::Changed,
            old(self)@.wf() ==> final(self)@.wf(),
    {
        proof {
            if self@.wf() {
                store_laws::lemma_upsert_keeps_order(self@, thread@);
            }
        }
        self.strip(thread.id, Some(&thread.file));
        let ghost base = self@.files;
        match find_file(&self.files, &thread.file) {
            Some(g) => {
                let found = find_thread(&self.files[g].threads, thread.id);
                let ghost list = thread::thread_views(self.files@[g as int].threads@);
                match found {
                    Some(i) => {
                        let ghost shown = thread@;
                        self.files[g].threads[i] = thread;
                        proof {
                            assert(thread::thread_views(self.files@[g as int].threads@)
                                =~= list.update(i as int, shown));
                        }
                    },
                    None => {
                        let ghost shown = thread@;
                        self.files[g].threads.push(thread);
                        proof {
                            assert(thread::thread_views(self.files@[g as int].threads@)
                                =~= list.push(shown));
                        }
                    },
                }
                proof {
                    assert(self@.files =~= put_in_file(base, thread@));
                }
            },
            None => {
                let ghost shown = thread@;
                let file = thread.file.clone();
                let mut threads: Vec<CommentThread> = Vec::new();
                threads.push(thread);
                proof {
                    assert(thread::thread_views(threads@) =~= seq![shown]);
                }
                self.files.push(FileThreads { file, threads });
                proof {
                    assert(self@.files =~= put_in_file(base, shown));
                }
            },
        }
        CommentStoreEvent::Changed
    }

    /// Removes a thread and all of its nodes.
    pub fn remove_thread(&mut self, id: ThreadId) -> (event: Option<CommentStoreEvent>)
        ensures
            final(self)@ == old(self)@.removed(id),
            event == (if old(self)@.thread(id) is Some {
                Some(CommentStoreEvent::Changed)
            } else {
                None
            }),
            old(self)@.wf() ==> final(self)@.wf(),
    {
        proof {
            if self@.wf() {
                store_laws::lemma_remove_keeps_order(self@, id);
            }
        }
        match self.locate(id) {
            Some(_) => {
                self.strip(id, None);
                Some(CommentStoreEvent::Changed)
            },
            None => None,
        }
    }

    /// Appends a node (a reply or an agent answer) to a thread.
    pub fn add_node(&mut self, thread_id: ThreadId, node: CommentNode) -> (event: Option<
        CommentStoreEvent,
    >)
        ensures
            final(self)@ == old(self)@.with_thread(
                thread_id,
                |t: CommentThreadView| CommentThreadView { nodes: t.nodes.push(node@), ..t },
            ),
            event == (if old(self)@.thread(thread_id) is Some {
                Some(CommentStoreEvent::Changed)
            } else {
                None
            }),
            old(self)@.wf() ==> final(self)@.wf(),
    {
        proof {
            if self@.wf() {
                store_laws::lemma_change_keeps_order(
                    self@,
                    thread_id,
                    |t: CommentThreadView| CommentThreadView { nodes: t.nodes.push(node@), ..t },
                );
            }
        }
        match self.locate(thread_id) {
            Some((g, i)) => {
                let ghost before = self.files@;
                let ghost shown = node@;
                self.files[g].threads[i].nodes.push(node);
                proof {
                    assert(self.files@[g as int].threads@[i as int]@.nodes
                        =~= before[g as int].threads@[i as int]@.nodes.push(shown));
                    lemma_thread_changed(
                        before,
                        self.files@,
                        g as int,
                        i as int,
                        thread_id,
                        |t: CommentThreadView| CommentThreadView { nodes: t.nodes.push(shown), ..t },
                    );
                }
                Some(CommentStoreEvent::Changed)
            },
            None => None,
        }
    }

    /// Replaces the body of an existing node.
    pub fn update_node_body(&mut self, thread_id: ThreadId, node_id: CommentId, body: String) -> (event:
        Option<CommentStoreEvent>)
        ensures
            final(self)@ == old(self)@.with_thread(
                thread_id,
                |t: CommentThreadView|
                    with_node(
                        t,
                        node_id,
                        |n: CommentNodeView| CommentNodeView { body: body@, ..n },
                    ),
            ),
            event == (if old(self)@.has_node(thread_id, node_id) {
                Some(CommentStoreEvent::Changed)
            } else {
                None
            }),
            old(self)@.wf() ==> final(self)@.wf(),
    {
        proof {
            if self@.wf() {
                store_laws::lemma_change_keeps_order(
                    self@,
                    thread_id,
                    |t: CommentThreadView|
                        with_node(
                            t,
                            node_id,
                            |n: CommentNodeView| CommentNodeView { body: body@, ..n },
                        ),
                );
            }
        }
        let ghost change = |t: CommentThreadView|
            with_node(t, node_id, |n: CommentNodeView| CommentNodeView { body: body@, ..n });
        match self.locate(thread_id) {
            Some((g, i)) => {
                let ghost before = self.files@;
                let ghost nodes = before[g as int].threads@[i as int]@.nodes;
                match find_node(&self.files[g].threads[i].nodes, node_id) {
                    Some(k) => {
                        self.files[g].threads[i].nodes[k].body = body;
                        proof {
                            assert(self.files@[g as int].threads@[i as int]@.nodes =~= nodes.update(
                                k as int,
                                CommentNodeView { body: body@, ..nodes[k as int] },
                            ));
                            lemma_thread_changed(
                                before,
                                self.files@,
                                g as int,
                                i as int,
                                thread_id,
                                change,
                            );
                        }
                        Some(CommentStoreEvent::Changed)
                    },
                    None => {
                        proof {
                            let group = before[g as int];
                            assert(before =~= before.update(g as int, group));
                            assert(group.threads@ =~= group.threads@.update(
                                i as int,
                                group.threads@[i as int],
                            ));
                            lemma_thread_changed(
                                before,
                                self.files@,
                                g as int,
                                i as int,
                                thread_id,
                                change,
                            );
                        }
                        None
                    },
                }
            },
            None => None,
        }
    }

    /// Sets a thread's resolved/open status.
    pub fn set_thread_status(&mut self, thread_id: ThreadId, status: CommentStatus) -> (event: Option<
        CommentStoreEvent,
    >)
        ensures
            final(self)@ == old(self)@.with_thread(
                thread_id,
                |t: CommentThreadView| CommentThreadView { status, ..t },
            ),
            event == (if old(self)@.thread(thread_id) is Some {
                Some(CommentStoreEvent::Changed)
            } else {
                None
            }),
            old(self)@.wf() ==> final(self)@.wf(),
    {
        proof {
            if self@.wf() {
                store_laws::lemma_change_keeps_order(
                    self@,
                    thread_id,
                    |t: CommentThreadView| CommentThreadView { status, ..t },
                );
            }
        }
        match self.locate(thread_id) {
            Some((g, i)) => {
                let ghost before = self.files@;
                self.files[g].threads[i].status = status;
                proof {
                    lemma_thread_changed(
                        before,
                        self.files@,
                        g as int,
                        i as int,
                        thread_id,
                        |t: CommentThreadView| CommentThreadView { status, ..t },
                    );
                }
                Some(CommentStoreEvent::Changed)
            },
            None => None,
        }
    }

    /// Sets a thread's comment kind (Comment / Question / Task).
    pub fn set_thread_kind(&mut self, thread_id: ThreadId, kind: CommentKind) -> (event: Option<
        CommentStoreEvent,
    >)
        ensures
            final(self)@ == old(self)@.with_thread(
                thread_id,
                |t: CommentThreadView| CommentThreadView { kind, ..t },
            ),
            event == (if old(self)@.thread(thread_id) is Some {
                Some(CommentStoreEvent::Changed)
            } else {
                None
            }),
            old(self)@.wf() ==> final(self)@.wf(),
    {
        proof {
            if self@.wf() {
                store_laws::lemma_change_keeps_order(
                    self@,
                    thread_id,
                    |t: CommentThreadView| CommentThreadView { kind, ..t },
                );
            }
        }
        match self.locate(thread_id) {
            Some((g, i)) => {
                let ghost before = self.files@;
                self.files[g].threads[i].kind = kind;
                proof {
                    lemma_thread_changed(
                        before,
                        self.files@,
                        g as int,
                        i as int,
                        thread_id,
                        |t: CommentThreadView| CommentThreadView { kind, ..t },
                    );
                }
                Some(CommentStoreEvent::Changed)
            },
            None => None,
        }
    }

    /// Sets a single node's kind. Independent of the thread-level kind so an
    /// individual reply can be tagged as a Question/Task (e.g. for an agent
    /// "handled in <commit>" answer) without changing the whole thread.
    pub fn set_node_kind(&mut self, thread_id: ThreadId, node_id: CommentId, kind: CommentKind) -> (event:
        Option<CommentStoreEvent>)
        ensures
            final(self)@ == old(self)@.with_thread(
                thread_id,
                |t: CommentThreadView|
                    with_node(
                        t,
                        node_id,
                        |n: CommentNodeView| CommentNodeView { kind, ..n },
                    ),
            ),
            event == (if old(self)@.has_node(thread_id, node_id) {
                Some(CommentStoreEvent::Changed)
            } else {
                None
            }),
            old(self)@.wf() ==> final(self)@.wf(),
    {
        proof {
            if self@.wf() {
                store_laws::lemma_change_keeps_order(
                    self@,
                    thread_id,
                    |t: CommentThreadView|
                        with_node(
                            t,
                            node_id,
                            |n: CommentNodeView| CommentNodeView { kind, ..n },
                        ),
                );
            }
        }
        let ghost change = |t: CommentThreadView|
            with_node(t, node_id, |n: CommentNodeView| CommentNodeView { kind, ..n });
        match self.locate(thread_id) {
            Some((g, i)) => {
                let ghost before = self.files@;
                let ghost nodes = before[g as int].threads@[i as int]@.nodes;
                match find_node(&self.files[g].threads[i].nodes, node_id) {
                    Some(k) => {
                        self.files[g].threads[i].nodes[k].kind = kind;
                        proof {
                            assert(self.files@[g as int].threads@[i as int]@.nodes =~= nodes.update(
                                k as int,
                                CommentNodeView { kind, ..nodes[k as int] },
                            ));
                            lemma_thread_changed(
                                before,
                                self.files@,
                                g as int,
                                i as int,
                                thread_id,
                                change,
                            );
                        }
                        Some(CommentStoreEvent::Changed)
                    },
                    None => {
                        proof {
                            let group = before[g as int];
                            assert(before =~= before.update(g as int, group));
                            assert(group.threads@ =~= group.threads@.update(
                                i as int,
                                group.threads@[i as int],
                            ));
                            lemma_thread_changed(
                                before,
                                self.files@,
                                g as int,
                                i as int,
                                thread_id,
                                change,
                            );
                        }
                        None
                    },
                }
            },
            None => None,
        }
    }

    /// Sets the number that a node has on the remote.
    pub fn set_node_remote_id(
        &mut self,
        thread_id: ThreadId,
        node_id: CommentId,
        remote_id: i64,
    ) -> (event: Option<CommentStoreEvent>)
        ensures
            final(self)@ == old(self)@.numbered(thread_id, node_id, remote_id),
            event == (if old(self)@.has_node(thread_id, node_id) {
                Some(CommentStoreEvent::Changed)
            } else {
                None
            }),
            old(self)@.wf() ==> final(self)@.wf(),
    {
        let ghost change = |t: CommentThreadView|
            with_node(
                t,
                node_id,
                |n: CommentNodeView| CommentNodeView { remote_id: Some(remote_id), ..n },
            );
        proof {
            if self@.wf() {
                store_laws::lemma_change_keeps_order(self@, thread_id, change);
            }
        }
        match self.locate(thread_id) {
            Some((g, i)) => {
                let ghost before = self.files@;
                let ghost nodes = before[g as int].threads@[i as int]@.nodes;
                match find_node(&self.files[g].threads[i].nodes, node_id) {
                    Some(k) => {
                        self.files[g].threads[i].nodes[k].remote_id = Some(remote_id);
                        proof {
                            assert(self.files@[g as int].threads@[i as int]@.nodes =~= nodes.update(
                                k as int,
                                CommentNodeView { remote_id: Some(remote_id), ..nodes[k as int] },
                            ));
                            lemma_thread_changed(
                                before,
                                self.files@,
                                g as int,
                                i as int,
                                thread_id,
                                change,
                            );
                        }
                        Some(CommentStoreEvent::Changed)
                    },
                    None => {
                        proof {
                            let group = before[g as int];
                            assert(before =~= before.update(g as int, group));
                            assert(group.threads@ =~= group.threads@.update(
                                i as int,
                                group.threads@[i as int],
                            ));
                            lemma_thread_changed(
                                before,
                                self.files@,
                                g as int,
                                i as int,
                                thread_id,
                                change,
                            );
                        }
                        None
                    },
                }
            },
            None => None,
        }
    }

    /// Sets a thread's collapsed/expanded state.
    pub fn set_thread_collapsed(&mut self, thread_id: ThreadId, collapsed: bool) -> (event: Option<
        CommentStoreEvent,
    >)
        ensures
            final(self)@ == old(self)@.with_thread(
                thread_id,
                |t: CommentThreadView| CommentThreadView { collapsed, ..t },
            ),
            event == (if old(self)@.thread(thread_id) is Some {
                Some(CommentStoreEvent::Changed)
            } else {
                None
            }),
            old(self)@.wf() ==> final(self)@.wf(),
    {
        proof {
            if self@.wf() {
                store_laws::lemma_change_keeps_order(
                    self@,
                    thread_id,
                    |t: CommentThreadView| CommentThreadView { collapsed, ..t },
                );
            }
        }
        match self.locate(thread_id) {
            Some((g, i)) => {
                let ghost before = self.files@;
                self.files[g].threads[i].collapsed = collapsed;
                proof {
                    lemma_thread_changed(
                        before,
                        self.files@,
                        g as int,
                        i as int,
                        thread_id,
                        |t: CommentThreadView| CommentThreadView { collapsed, ..t },
                    );
                }
                Some(CommentStoreEvent::Changed)
            },
            None => None,
        }
    }
}

} // verus!
