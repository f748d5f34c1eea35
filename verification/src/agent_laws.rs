//! What is sent to the agent and what is kept of its reply: every comment of a
//! thread, every open task, the chain of comments that leads up to the one
//! asked about, and every word that the agent says.

use vstd::prelude::*;
#[allow(unused_imports)]
use crate::agent_integration;
#[allow(unused_imports)]
use crate::agent_integration::{AgentThreadEntry, AssistantMessageChunk};
#[allow(unused_imports)]
use crate::comment::{CommentAuthorView, CommentKind, CommentNodeView, CommentStatus, NodeStamp};
#[allow(unused_imports)]
use crate::comment_store::CommentStoreView;
#[allow(unused_imports)]
use crate::ids::{CommentId, ThreadId};
#[allow(unused_imports)]
use crate::store_laws;
#[allow(unused_imports)]
use crate::text;
#[allow(unused_imports)]
use crate::thread;
#[allow(unused_imports)]
use crate::thread::CommentThreadView;
#[allow(unused_imports)]
use crate::tree;

verus! {

/// The user and the agent are named as such, a remote author by the login,
/// character for character; each kind by its own word.
pub proof fn lemma_words(author: CommentAuthorView, kind: CommentKind)
    ensures
        author is User ==> agent_integration::author_word(author) == "User"@,
        author is Agent ==> agent_integration::author_word(author) == "Agent"@,
        author matches CommentAuthorView::Remote { login } ==> agent_integration::author_word(
            author,
        ) == login,
        kind == CommentKind::Comment ==> agent_integration::kind_word(kind) == "comment"@,
        kind == CommentKind::Question ==> agent_integration::kind_word(kind) == "question"@,
        kind == CommentKind::Task ==> agent_integration::kind_word(kind) == "task"@,
{
}

/// One more comment at the end of a thread adds one bullet at the end of its
/// feedback, with the author and the body, character for character, and
/// changes nothing before it: whatever the comment's author, kind, parent or
/// number on the remote.
pub proof fn lemma_feedback_has_every_comment(thread: CommentThreadView, node: CommentNodeView)
    ensures
        agent_integration::feedback(CommentThreadView { nodes: thread.nodes.push(node), ..thread })
            == agent_integration::feedback(thread) + "- "@ + (match node.author {
            CommentAuthorView::User => "User"@,
            CommentAuthorView::Agent => "Agent"@,
            CommentAuthorView::Remote { login } => login,
        }) + ": "@ + node.body + "\n"@,
{
    let longer = CommentThreadView { nodes: thread.nodes.push(node), ..thread };
    assert(longer.nodes.drop_last() =~= thread.nodes);
    assert(agent_integration::feedback(longer) =~= agent_integration::feedback(thread) + "- "@ + (
    match node.author {
        CommentAuthorView::User => "User"@,
        CommentAuthorView::Agent => "Agent"@,
        CommentAuthorView::Remote { login } => login,
    }) + ": "@ + node.body + "\n"@);
}

/// The feedback of a thread without comments is its header: the file, the rows
/// of the anchor counted from one, and the anchored text, if there is any.
pub proof fn lemma_feedback_header(thread: CommentThreadView)
    requires
        thread.nodes.len() == 0,
    ensures
        agent_integration::feedback(thread) == "Inline code comment on `"@ + thread.file
            + "` (lines "@ + text::decimal((thread.anchor.start_row + 1) as nat) + "-"@
            + text::decimal((thread.anchor.end_row + 1) as nat) + "):\n"@ + (
        if thread.anchor.fingerprint == Seq::<char>::empty() {
            Seq::empty()
        } else {
            "Anchored line: `"@ + thread.anchor.fingerprint + "`\n"@
        }) + "\n"@,
{
    if thread.anchor.fingerprint.len() == 0 {
        assert(thread.anchor.fingerprint =~= Seq::<char>::empty());
    }
    assert(agent_integration::feedback(thread) =~= "Inline code comment on `"@ + thread.file
        + "` (lines "@ + text::decimal((thread.anchor.start_row + 1) as nat) + "-"@
        + text::decimal((thread.anchor.end_row + 1) as nat) + "):\n"@ + (
    if thread.anchor.fingerprint.len() == 0 {
        Seq::empty()
    } else {
        "Anchored line: `"@ + thread.anchor.fingerprint + "`\n"@
    }) + "\n"@);
}

/// The feedback of a thread is its header, followed by one bullet for each of
/// its comments, in order, and by nothing else.
pub proof fn lemma_feedback_is_header_and_bullets(thread: CommentThreadView)
    ensures
        agent_integration::feedback(thread) == agent_integration::feedback(
            CommentThreadView { nodes: Seq::empty(), ..thread },
        ) + thread.nodes.map_values(
            |node: CommentNodeView|
                "- "@ + (match node.author {
                    CommentAuthorView::User => "User"@,
                    CommentAuthorView::Agent => "Agent"@,
                    CommentAuthorView::Remote { login } => login,
                }) + ": "@ + node.body + "\n"@,
        ).flatten(),
    decreases thread.nodes.len(),
{
    let line = |node: CommentNodeView|
        "- "@ + (match node.author {
            CommentAuthorView::User => "User"@,
            CommentAuthorView::Agent => "Agent"@,
            CommentAuthorView::Remote { login } => login,
        }) + ": "@ + node.body + "\n"@;
    let header = agent_integration::feedback(CommentThreadView { nodes: Seq::empty(), ..thread });
    let pieces = thread.nodes.map_values(line);
    if thread.nodes.len() == 0 {
        assert(thread.nodes =~= Seq::empty());
        assert(pieces =~= Seq::empty());
        assert(header + pieces.flatten() =~= header);
    } else {
        let last = thread.nodes.last();
        let fewer = CommentThreadView { nodes: thread.nodes.drop_last(), ..thread };
        lemma_feedback_is_header_and_bullets(fewer);
        lemma_feedback_has_every_comment(fewer, last);
        assert(fewer.nodes.push(last) =~= thread.nodes);
        assert(pieces.drop_last() =~= fewer.nodes.map_values(line));
        pieces.lemma_flatten_and_flatten_alt_are_equivalent();
        pieces.drop_last().lemma_flatten_and_flatten_alt_are_equivalent();
        assert(pieces.last() == line(last));
        assert(agent_integration::feedback(thread) =~= header + pieces.flatten());
    }
}

/// A thread is batched exactly when it is a task and open: it then adds its
/// whole feedback and an empty line behind what came before, and otherwise it
/// adds nothing.
pub proof fn lemma_every_open_task_is_sent(
    threads: Seq<CommentThreadView>,
    thread: CommentThreadView,
)
    ensures
        ({
            let open = thread.kind == CommentKind::Task && thread.status == CommentStatus::Open;
            &&& agent_integration::tasks_message(Seq::empty()) is None
            &&& !open ==> agent_integration::tasks_message(threads.push(thread))
                == agent_integration::tasks_message(threads)
            &&& open ==> agent_integration::tasks_message(threads.push(thread)) == Some(
                (match agent_integration::tasks_message(threads) {
                    Some(message) => message,
                    None => "Please address the following review tasks:\n\n"@,
                }) + agent_integration::feedback(thread) + "\n"@,
            )
        }),
{
    let more = threads.push(thread);
    let open = thread.kind == CommentKind::Task && thread.status == CommentStatus::Open;
    assert(more.drop_last() =~= threads);
    if open {
        assert(agent_integration::is_open_task(more[threads.len() as int]));
        if agent_integration::tasks_message(threads) is None {
            lemma_no_task_no_text(threads);
        }
        assert(agent_integration::tasks_message(more)->0 =~= (
        match agent_integration::tasks_message(threads) {
            Some(message) => message,
            None => "Please address the following review tasks:\n\n"@,
        }) + agent_integration::feedback(thread) + "\n"@);
    } else {
        if exists|i: int|
            0 <= i < threads.len() && agent_integration::is_open_task(#[trigger] threads[i]) {
            let i = choose|i: int|
                0 <= i < threads.len() && agent_integration::is_open_task(#[trigger] threads[i]);
            assert(more[i] == threads[i]);
        }
        if exists|i: int|
            0 <= i < more.len() && agent_integration::is_open_task(#[trigger] more[i]) {
            let i = choose|i: int|
                0 <= i < more.len() && agent_integration::is_open_task(#[trigger] more[i]);
            assert(threads[i] == more[i]);
        }
    }
}

proof fn lemma_no_task_no_text(threads: Seq<CommentThreadView>)
    requires
        agent_integration::tasks_message(threads) is None,
    ensures
        agent_integration::task_texts(threads) == Seq::<char>::empty(),
    decreases threads.len(),
{
    if threads.len() > 0 {
        let fewer = threads.drop_last();
        assert forall|i: int| 0 <= i < fewer.len() implies !agent_integration::is_open_task(
            #[trigger] fewer[i],
        ) by {
            assert(fewer[i] == threads[i]);
        }
        assert(!agent_integration::is_open_task(threads[threads.len() - 1]));
        lemma_no_task_no_text(fewer);
    }
}

/// There is something to deliver exactly when some thread is a task and open.
pub proof fn lemma_tasks_to_send(threads: Seq<CommentThreadView>)
    ensures
        agent_integration::tasks_message(threads) is Some <==> exists|i: int|
            0 <= i < threads.len() && (#[trigger] threads[i]).kind == CommentKind::Task
                && threads[i].status == CommentStatus::Open,
{
    if agent_integration::tasks_message(threads) is Some {
        let i = choose|i: int|
            0 <= i < threads.len() && agent_integration::is_open_task(#[trigger] threads[i]);
        assert(threads[i].kind == CommentKind::Task);
    }
    if exists|i: int|
        0 <= i < threads.len() && (#[trigger] threads[i]).kind == CommentKind::Task
            && threads[i].status == CommentStatus::Open {
        let i = choose|i: int|
            0 <= i < threads.len() && (#[trigger] threads[i]).kind == CommentKind::Task
                && threads[i].status == CommentStatus::Open;
        assert(agent_integration::is_open_task(threads[i]));
    }
}

/// A row range is shown counted from one: as one row when it is one, and
/// otherwise as its first and its last row.
pub proof fn lemma_line_range(thread: CommentThreadView)
    ensures
        thread.anchor.end_row == thread.anchor.start_row ==> agent_integration::line_range(thread)
            == ":"@ + text::decimal((thread.anchor.start_row + 1) as nat),
        thread.anchor.end_row != thread.anchor.start_row ==> agent_integration::line_range(thread)
            == ":"@ + text::decimal((thread.anchor.start_row + 1) as nat) + "-"@ + text::decimal(
            (thread.anchor.end_row + 1) as nat,
        ),
{
}

/// What the agent says in one more piece of a message is one more piece of the
/// reply, behind the others; an empty piece is none, and a thought adds
/// nothing and takes nothing away.
pub proof fn lemma_every_message_chunk_counts(
    chunks: Seq<AssistantMessageChunk>,
    chunk: AssistantMessageChunk,
)
    ensures
        agent_integration::chunk_messages(Seq::empty()).len() == 0,
        chunk is Thought ==> agent_integration::chunk_messages(chunks.push(chunk))
            == agent_integration::chunk_messages(chunks),
        chunk matches AssistantMessageChunk::Message { block } ==> agent_integration::chunk_messages(
            chunks.push(chunk),
        ) == (if block@ == Seq::<char>::empty() {
            agent_integration::chunk_messages(chunks)
        } else {
            agent_integration::chunk_messages(chunks).push(block@)
        }),
{
    assert(chunks.push(chunk).drop_last() =~= chunks);
    if let AssistantMessageChunk::Message { block } = chunk {
        if block@.len() == 0 {
            assert(block@ =~= Seq::<char>::empty());
        }
    }
}

/// The pieces of a message are what its non-empty message chunks say, in
/// order, and nothing else.
pub proof fn lemma_pieces_are_the_message_chunks(chunks: Seq<AssistantMessageChunk>)
    ensures
        agent_integration::chunk_messages(chunks) == chunks.filter_map(
            |chunk: AssistantMessageChunk|
                match chunk {
                    AssistantMessageChunk::Message { block } => if block@
                        == Seq::<char>::empty() {
                        None
                    } else {
                        Some(block@)
                    },
                    AssistantMessageChunk::Thought { .. } => None,
                },
        ),
    decreases chunks.len(),
{
    if chunks.len() > 0 {
        let fewer = chunks.drop_last();
        lemma_pieces_are_the_message_chunks(fewer);
        lemma_every_message_chunk_counts(fewer, chunks.last());
        assert(fewer.push(chunks.last()) =~= chunks);
        assert(agent_integration::chunk_messages(chunks) =~= chunks.filter_map(
            |chunk: AssistantMessageChunk|
                match chunk {
                    AssistantMessageChunk::Message { block } => if block@
                        == Seq::<char>::empty() {
                        None
                    } else {
                        Some(block@)
                    },
                    AssistantMessageChunk::Thought { .. } => None,
                },
        ));
    }
}

/// One more message of the assistant adds its pieces to the reply, and its
/// markdown to the entries, behind the others; any other entry adds nothing.
pub proof fn lemma_every_assistant_entry_counts(
    entries: Seq<AgentThreadEntry>,
    entry: AgentThreadEntry,
)
    ensures
        agent_integration::entry_messages(Seq::empty()).len() == 0,
        agent_integration::entry_markdowns(Seq::empty()).len() == 0,
        entry is Other ==> agent_integration::entry_messages(entries.push(entry))
            == agent_integration::entry_messages(entries) && agent_integration::entry_markdowns(
            entries.push(entry),
        ) == agent_integration::entry_markdowns(entries),
        entry matches AgentThreadEntry::AssistantMessage { markdown, chunks }
            ==> agent_integration::entry_messages(entries.push(entry))
            == agent_integration::entry_messages(entries) + agent_integration::chunk_messages(
            chunks@,
        ) && agent_integration::entry_markdowns(entries.push(entry))
            == agent_integration::entry_markdowns(entries).push(markdown@),
{
    assert(entries.push(entry).drop_last() =~= entries);
}

/// Only what came after sending counts: all of it, and nothing of what was
/// there before.
pub proof fn lemma_reply_is_what_came_after(
    before: Seq<AgentThreadEntry>,
    after: Seq<AgentThreadEntry>,
    more: nat,
)
    ensures
        agent_integration::entries_since(before + after, before.len()) == after,
        more >= before.len() ==> agent_integration::entries_since(before, more).len() == 0,
{
    assert(agent_integration::entries_since(before + after, before.len()) =~= after);
}

/// Recording an answer emits an event exactly when it changes the thread.
pub proof fn lemma_answer_event_means_change(
    store: CommentStoreView,
    thread_id: ThreadId,
    parent: Option<CommentId>,
    answer: Seq<char>,
    stamp: NodeStamp,
)
    ensures
        agent_integration::answer_event(store, thread_id, answer) is Some
            <==> agent_integration::answered(store, thread_id, parent, answer, stamp).thread(
            thread_id,
        ) != store.thread(thread_id),
{
    agent_integration::lemma_answer_is_appended(
        store,
        thread_id,
        parent,
        answer,
        stamp,
        thread_id,
    );
    if store.thread(thread_id) is Some && text::trimmed(answer).len() > 0 {
        let t = store.thread(thread_id)->0;
        let u = agent_integration::answered(store, thread_id, parent, answer, stamp).thread(
            thread_id,
        )->0;
        assert(u.nodes.len() == t.nodes.len() + 1);
    }
}

/// An answer to a whole thread goes under its root: the first comment that
/// replies to none.
pub proof fn lemma_answer_goes_under_the_root(store: CommentStoreView, thread_id: ThreadId)
    ensures
        match agent_integration::root_of(store, thread_id) {
            Some(id) => store.thread(thread_id) matches Some(t) && exists|i: int|
                0 <= i < t.nodes.len() && (#[trigger] t.nodes[i]).id == id && t.nodes[i].parent_id
                    is None && forall|j: int|
                    0 <= j < i ==> (#[trigger] t.nodes[j]).parent_id is Some,
            None => store.thread(thread_id) matches Some(t) ==> forall|j: int|
                0 <= j < t.nodes.len() ==> (#[trigger] t.nodes[j]).parent_id is Some,
        },
{
    if store.thread(thread_id) is Some {
        let t = store.thread(thread_id)->0;
        thread::lemma_root_index(t.nodes);
        if let Some(i) = thread::root_index(t.nodes) {
            assert(t.nodes[i].parent_id is None);
        }
    }
}

/// The prompt for a comment opens with its body, character for character, and
/// a separator; then come the file, the rows, whether the thread is resolved,
/// the anchored text and the chain of comments.
pub proof fn lemma_prompt_layout(thread: CommentThreadView, i: int)
    requires
        0 <= i < thread.nodes.len(),
        forall|j: int| 0 <= j < i ==> (#[trigger] thread.nodes[j]).id != thread.nodes[i].id,
        exists|j: int| 0 <= j < thread.nodes.len() && (#[trigger] thread.nodes[j]).parent_id is None,
    ensures
        agent_integration::node_feedback(thread, thread.nodes[i].id) == Some(
            thread.nodes[i].body + "\n\n---\n\n"@ + "**Context** — comment on `"@ + thread.file
                + agent_integration::line_range(thread) + "`"@ + (if thread.status
                == CommentStatus::Open {
                Seq::empty()
            } else {
                " (resolved)"@
            }) + "\n"@ + (if thread.anchor.fingerprint == Seq::<char>::empty() {
                Seq::empty()
            } else {
                "`"@ + thread.anchor.fingerprint + "`\n"@
            }) + "\nThread so far:\n\n```\n"@ + agent_integration::ancestor_text(
                thread.nodes,
                i,
                thread.nodes[i].id,
            ) + "```\n"@,
        ),
{
    let target = thread.nodes[i].id;
    thread::lemma_node_index(thread.nodes, target);
    thread::lemma_root_index(thread.nodes);
    let t = thread::node_index(thread.nodes, target)->0;
    assert(t == i) by {
        if t < i {
            assert(thread.nodes[t].id == target);
        }
    }
    if thread.anchor.fingerprint.len() == 0 {
        assert(thread.anchor.fingerprint =~= Seq::<char>::empty());
    }
}

/// There is no prompt for a comment that the thread does not have, nor for a
/// thread without a root.
pub proof fn lemma_no_prompt(thread: CommentThreadView, target: CommentId)
    ensures
        agent_integration::node_feedback(thread, target) is None <==> (forall|j: int|
            0 <= j < thread.nodes.len() ==> (#[trigger] thread.nodes[j]).id != target) || (forall|
            j: int,
        |
            0 <= j < thread.nodes.len() ==> (#[trigger] thread.nodes[j]).parent_id is Some),
{
    thread::lemma_node_index(thread.nodes, target);
    thread::lemma_root_index(thread.nodes);
}

/// One line of the chain: two spaces for each level, a mark that only the
/// target has, author, kind, whether the agent already replied to it, unless
/// it is the target, and the body, each further line of it indented below.
pub proof fn lemma_prompt_line(
    nodes: Seq<CommentNodeView>,
    node: CommentNodeView,
    depth: nat,
    target: CommentId,
)
    ensures
        ({
            let indent = text::repeated("  "@, depth);
            let replied = exists|j: int|
                0 <= j < nodes.len() && (#[trigger] nodes[j]).parent_id == Some(node.id)
                    && nodes[j].author is Agent;
            agent_integration::node_line(nodes, node, depth, target) == indent + (if node.id
                == target {
                "►► "@
            } else {
                "- "@
            }) + (match node.author {
                CommentAuthorView::User => "User"@,
                CommentAuthorView::Agent => "Agent"@,
                CommentAuthorView::Remote { login } => login,
            }) + " ("@ + (match node.kind {
                CommentKind::Comment => "comment"@,
                CommentKind::Question => "question"@,
                CommentKind::Task => "task"@,
            }) + ")"@ + (if replied && node.id != target {
                " (replied)"@
            } else {
                Seq::empty()
            }) + ": "@ + text::newlines_replaced(node.body, "\n"@ + indent + "    "@) + "\n"@
        }),
{
    let kids = thread::children_of(nodes, node.id);
    if agent_integration::has_agent(kids) {
        let k = choose|k: int| 0 <= k < kids.len() && (#[trigger] kids[k]).author is Agent;
        assert(kids.contains(kids[k]));
        tree::lemma_children_contain(nodes, node.id, kids[k]);
        let j = choose|j: int| 0 <= j < nodes.len() && nodes[j] == kids[k];
        assert(nodes[j].parent_id == Some(node.id));
    }
    if exists|j: int|
        0 <= j < nodes.len() && (#[trigger] nodes[j]).parent_id == Some(node.id)
            && nodes[j].author is Agent {
        let j = choose|j: int|
            0 <= j < nodes.len() && (#[trigger] nodes[j]).parent_id == Some(node.id)
                && nodes[j].author is Agent;
        assert(nodes.contains(nodes[j]));
        tree::lemma_children_contain(nodes, node.id, nodes[j]);
        let k = choose|k: int| 0 <= k < kids.len() && kids[k] == nodes[j];
        assert(kids[k].author is Agent);
    }
}

proof fn lemma_chain_lines(
    nodes: Seq<CommentNodeView>,
    path: Seq<int>,
    target: CommentId,
    count: nat,
)
    requires
        count <= path.len(),
    ensures
        agent_integration::chain_text(nodes, path, target, count) == Seq::new(
            count,
            |d: int|
                agent_integration::node_line(
                    nodes,
                    nodes[path[path.len() - 1 - d]],
                    d as nat,
                    target,
                ),
        ).flatten(),
    decreases count,
{
    let line = |d: int|
        agent_integration::node_line(nodes, nodes[path[path.len() - 1 - d]], d as nat, target);
    let lines = Seq::new(count, line);
    if count == 0 {
        assert(lines =~= Seq::empty());
    } else {
        lemma_chain_lines(nodes, path, target, (count - 1) as nat);
        assert(lines.drop_last() =~= Seq::new((count - 1) as nat, line));
        lines.lemma_flatten_and_flatten_alt_are_equivalent();
        lines.drop_last().lemma_flatten_and_flatten_alt_are_equivalent();
        assert(lines.last() == line(count - 1));
    }
}

/// Whether the comment at a step of a way up replies to the one at the next
/// step.
pub open spec fn replies_to_next(nodes: Seq<CommentNodeView>, way: Seq<int>, k: int) -> bool {
    nodes[way[k]].parent_id == Some(nodes[way[k + 1]].id)
}

proof fn lemma_way_step(nodes: Seq<CommentNodeView>, i: int, k: int)
    requires
        0 <= i < nodes.len(),
        0 <= k < agent_integration::ancestor_path(nodes, i).len() - 1,
    ensures
        replies_to_next(nodes, agent_integration::ancestor_path(nodes, i), k),
{
    let way = agent_integration::ancestor_path(nodes, i);
    let below = way[k];
    let above = way[k + 1];
    assert(agent_integration::parent_index(nodes, below) == Some(above)) by {
        agent_integration::lemma_ancestor_path(nodes, i);
    }
    thread::lemma_node_index(nodes, nodes[below].parent_id->0);
}

proof fn lemma_way_top(nodes: Seq<CommentNodeView>, i: int, parent: CommentId)
    requires
        0 <= i < nodes.len(),
        nodes[agent_integration::ancestor_path(nodes, i).last()].parent_id == Some(parent),
    ensures
        (forall|j: int| 0 <= j < nodes.len() ==> (#[trigger] nodes[j]).id != parent) || (exists|
            k: int,
        |
            0 <= k < agent_integration::ancestor_path(nodes, i).len()
                && nodes[#[trigger] agent_integration::ancestor_path(nodes, i)[k]].id == parent),
{
    let way = agent_integration::ancestor_path(nodes, i);
    let top = way.last();
    thread::lemma_node_index(nodes, parent);
    if let Some(p) = agent_integration::parent_index(nodes, top) {
        assert(way.contains(p)) by {
            agent_integration::lemma_ancestor_path(nodes, i);
        }
        let k = choose|k: int| 0 <= k < way.len() && way[k] == p;
        assert(nodes[way[k]].id == parent);
    }
}

proof fn lemma_way(nodes: Seq<CommentNodeView>, i: int)
    requires
        0 <= i < nodes.len(),
    ensures
        ({
            let way = agent_integration::ancestor_path(nodes, i);
            &&& 0 < way.len() <= nodes.len()
            &&& way[0] == i
            &&& way.no_duplicates()
            &&& forall|k: int| 0 <= k < way.len() ==> 0 <= #[trigger] way[k] < nodes.len()
        }),
{
    agent_integration::lemma_ancestor_path(nodes, i);
}

/// The chain of a prompt is one line for each comment from the topmost
/// ancestor down to the target, each one level below the comment that it
/// replies to: the way up is returned, the target first. It ends at a comment
/// that replies to none of the thread, unless the replies lead back to
/// themselves.
pub proof fn lemma_prompt_shows_the_chain(
    nodes: Seq<CommentNodeView>,
    i: int,
    target: CommentId,
) -> (way: Seq<int>)
    requires
        0 <= i < nodes.len(),
    ensures
        0 < way.len() <= nodes.len(),
        way[0] == i,
        way.no_duplicates(),
        forall|k: int| 0 <= k < way.len() ==> 0 <= #[trigger] way[k] < nodes.len(),
        forall|k: int| 0 <= k < way.len() - 1 ==> #[trigger] replies_to_next(nodes, way, k),
        nodes[way.last()].parent_id matches Some(parent) ==> (forall|j: int|
            0 <= j < nodes.len() ==> (#[trigger] nodes[j]).id != parent) || (exists|k: int|
            0 <= k < way.len() && nodes[#[trigger] way[k]].id == parent),
        agent_integration::ancestor_text(nodes, i, target) == Seq::new(
            way.len(),
            |d: int|
                agent_integration::node_line(
                    nodes,
                    nodes[way[way.len() - 1 - d]],
                    d as nat,
                    target,
                ),
        ).flatten(),
{
    let way = agent_integration::ancestor_path(nodes, i);
    lemma_way(nodes, i);
    lemma_chain_lines(nodes, way, target, way.len());
    assert forall|k: int| 0 <= k < way.len() - 1 implies #[trigger] replies_to_next(
        nodes,
        way,
        k,
    ) by {
        lemma_way_step(nodes, i, k);
    }
    if let Some(parent) = nodes[way.last()].parent_id {
        lemma_way_top(nodes, i, parent);
    }
    way
}

/// A prompt can be built wherever the row below each end of the range can be
/// counted, and wherever there is no prompt.
pub proof fn lemma_prompt_can_be_built(thread: CommentThreadView, target: CommentId)
    ensures
        thread.anchor.start_row != u32::MAX && thread.anchor.end_row != u32::MAX
            ==> agent_integration::rows_shown(thread) && agent_integration::can_prompt(
            thread,
            target,
        ),
        agent_integration::node_feedback(thread, target) is None ==> agent_integration::can_prompt(
            thread,
            target,
        ),
{
}

} // verus!
