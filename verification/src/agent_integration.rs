//! Delivers comments to the active agent thread as structured feedback.
//!
//! - A **Question** thread is sent on demand; the agent's reply is appended to
//!   the thread as an `Agent`-authored child node.
//! - **Task** threads are delivered together by `SendTasksToAgent`.
//! - Plain **Comment** threads are never sent automatically.

use vstd::prelude::*;
use vstd::string::*;
use crate::comment::{
    CommentAuthor, CommentAuthorView, CommentKind, CommentNode, CommentNodeView, CommentStatus,
    NodeStamp,
};
use crate::comment_store::{CommentStore, CommentStoreEvent, CommentStoreView};
#[allow(unused_imports)]
use crate::ids;
use crate::ids::{CommentId, ThreadId};
#[allow(unused_imports)]
use crate::store_laws;
#[allow(unused_imports)]
use crate::text;
#[allow(unused_imports)]
use crate::thread;
use crate::thread::{CommentThread, CommentThreadView, find_node};
#[allow(unused_imports)]
use crate::tree;

verus! {

/// `agent_client_protocol::v1::schema::ContentBlock`, a piece of a message to
/// the agent.
#[verifier::external_type_specification]
#[verifier::external_body]
pub struct ExContentBlock(agent_client_protocol::v1::schema::ContentBlock);

/// The text block that `agent_client_protocol::v1::schema::TextContent::new`
/// makes of a text.
pub uninterp spec fn text_content(text: Seq<char>) -> agent_client_protocol::v1::schema::ContentBlock;

/// Calls `agent_client_protocol::v1::schema::TextContent::new` and wraps the
/// result as a content block. The block depends on the text alone. What is
/// inside a block is opaque here: that it carries the text, and neither
/// annotations nor metadata, is left unsaid.
#[verifier::external_body]
fn new_text_content(text: String) -> (block: agent_client_protocol::v1::schema::ContentBlock)
    ensures
        block == text_content(text@),
{
    agent_client_protocol::v1::schema::ContentBlock::Text(
        agent_client_protocol::v1::schema::TextContent::new(text),
    )
}

/// A message to the agent that consists of one text.
pub fn text_block(text: String) -> (r: Vec<agent_client_protocol::v1::schema::ContentBlock>)
    ensures
        r@ == seq![text_content(text@)],
{
    let mut blocks: Vec<agent_client_protocol::v1::schema::ContentBlock> = Vec::new();
    let ghost shown = text@;
    blocks.push(new_text_content(text));
    proof {
        assert(blocks@ =~= seq![text_content(shown)]);
    }
    blocks
}

/// How an author is named to the agent.
pub open spec fn author_word(author: CommentAuthorView) -> Seq<char> {
    match author {
        CommentAuthorView::User => "User"@,
        CommentAuthorView::Agent => "Agent"@,
        CommentAuthorView::Remote { login } => login,
    }
}

/// How a kind is named to the agent.
pub open spec fn kind_word(kind: CommentKind) -> Seq<char> {
    match kind {
        CommentKind::Comment => "comment"@,
        CommentKind::Question => "question"@,
        CommentKind::Task => "task"@,
    }
}

fn author_text(author: &CommentAuthor) -> (r: &str)
    ensures
        r@ == author_word(author@),
{
    match author {
        CommentAuthor::User => "User",
        CommentAuthor::Agent => "Agent",
        CommentAuthor::Remote { login } => login.as_str(),
    }
}

fn kind_text(kind: CommentKind) -> (r: &'static str)
    ensures
        r@ == kind_word(kind),
{
    match kind {
        CommentKind::Comment => "comment",
        CommentKind::Question => "question",
        CommentKind::Task => "task",
    }
}

/// Whether a thread's rows can be shown counted from one.
pub open spec fn rows_shown(thread: CommentThreadView) -> bool {
    thread.anchor.start_row < u32::MAX && thread.anchor.end_row < u32::MAX
}

/// One comment as a bullet.
pub open spec fn bullet(node: CommentNodeView) -> Seq<char> {
    "- "@ + author_word(node.author) + ": "@ + node.body + "\n"@
}

/// Comments as bullets, one after the other.
pub open spec fn bullets(nodes: Seq<CommentNodeView>) -> Seq<char>
    decreases nodes.len(),
{
    if nodes.len() == 0 {
        Seq::empty()
    } else {
        bullets(nodes.drop_last()) + bullet(nodes.last())
    }
}

/// A thread as feedback: file, line range, the anchored line unless it is
/// empty, and the comments.
pub open spec fn feedback(thread: CommentThreadView) -> Seq<char> {
    "Inline code comment on `"@ + thread.file + "` (lines "@ + text::decimal(
        (thread.anchor.start_row + 1) as nat,
    ) + "-"@ + text::decimal((thread.anchor.end_row + 1) as nat) + "):\n"@ + (
    if thread.anchor.fingerprint.len() == 0 {
        Seq::empty()
    } else {
        "Anchored line: `"@ + thread.anchor.fingerprint + "`\n"@
    }) + "\n"@ + bullets(thread.nodes)
}

/// Renders one comment thread as structured feedback for the agent: file,
/// line range, the anchored line, and the comment tree.
pub fn build_feedback(thread: &CommentThread) -> (r: String)
    requires
        rows_shown(thread@),
    ensures
        r@ == feedback(thread@),
{
    let mut out = String::new();
    out.append("Inline code comment on `");
    out.append(thread.file.as_unix_str());
    out.append("` (lines ");
    out.append(text::u64_to_decimal(thread.anchor.start_row as u64 + 1).as_str());
    out.append("-");
    out.append(text::u64_to_decimal(thread.anchor.end_row as u64 + 1).as_str());
    out.append("):\n");
    let ghost head = "Inline code comment on `"@ + thread@.file + "` (lines "@ + text::decimal(
        (thread@.anchor.start_row + 1) as nat,
    ) + "-"@ + text::decimal((thread@.anchor.end_row + 1) as nat) + "):\n"@;
    proof {
        assert(out@ =~= head);
    }
    let ghost anchored = if thread@.anchor.fingerprint.len() == 0 {
        Seq::empty()
    } else {
        "Anchored line: `"@ + thread@.anchor.fingerprint + "`\n"@
    };
    if thread.anchor.fingerprint.as_str().unicode_len() > 0 {
        out.append("Anchored line: `");
        out.append(thread.anchor.fingerprint.as_str());
        out.append("`\n");
    }
    proof {
        assert(out@ =~= head + anchored);
    }
    out.append("\n");
    let ghost start = out@;
    let ghost views = thread@.nodes;
    proof {
        assert(views.take(0) =~= Seq::empty());
        assert(start + bullets(views.take(0)) =~= start);
    }
    for i in 0..thread.nodes.len()
        invariant
            views == thread@.nodes,
            out@ == start + bullets(views.take(i as int)),
    {
        let node = &thread.nodes[i];
        let ghost before = out@;
        proof {
            assert(views[i as int] == node@);
            assert(views.take(i + 1).drop_last() =~= views.take(i as int));
        }
        out.append("- ");
        out.append(author_text(&node.author));
        out.append(": ");
        out.append(node.body.as_str());
        out.append("\n");
        proof {
            assert(out@ =~= before + bullet(node@));
            assert(out@ =~= start + bullets(views.take(i + 1)));
        }
    }
    proof {
        assert(views.take(views.len() as int) =~= views);
        assert(out@ =~= feedback(thread@));
    }
    out
}

/// `:N` for a single-line anchor, `:N-M` for a range, counted from one.
pub open spec fn line_range(thread: CommentThreadView) -> Seq<char> {
    let start = text::decimal((thread.anchor.start_row + 1) as nat);
    let end = text::decimal((thread.anchor.end_row + 1) as nat);
    if thread.anchor.start_row == thread.anchor.end_row {
        ":"@ + start
    } else {
        ":"@ + start + "-"@ + end
    }
}

/// `:N` for a single-line anchor, `:N-M` for a range. 1-indexed for display.
pub fn format_line_range(thread: &CommentThread) -> (r: String)
    requires
        rows_shown(thread@),
    ensures
        r@ == line_range(thread@),
{
    let start: u64 = thread.anchor.start_row as u64 + 1;
    let end: u64 = thread.anchor.end_row as u64 + 1;
    let mut out = String::new();
    out.append(":");
    out.append(text::u64_to_decimal(start).as_str());
    if start != end {
        out.append("-");
        out.append(text::u64_to_decimal(end).as_str());
    }
    proof {
        assert(out@ =~= line_range(thread@));
    }
    out
}

/// Whether a list holds a comment of the agent.
pub open spec fn has_agent(list: Seq<CommentNodeView>) -> bool {
    exists|i: int| 0 <= i < list.len() && (#[trigger] list[i]).author is Agent
}

/// One node of the tree as a line: indented by depth, marked if it is the
/// target, flagged if it is not and the agent already replied to it, and with
/// further lines of the body indented below it.
pub open spec fn node_line(
    nodes: Seq<CommentNodeView>,
    node: CommentNodeView,
    depth: nat,
    target: CommentId,
) -> Seq<char> {
    let indent = text::repeated("  "@, depth);
    let marker = if node.id == target {
        "►► "@
    } else {
        "- "@
    };
    let replied = if node.id != target && has_agent(thread::children_of(nodes, node.id)) {
        " (replied)"@
    } else {
        Seq::empty()
    };
    indent + marker + author_word(node.author) + " ("@ + kind_word(node.kind) + ")"@ + replied
        + ": "@ + text::newlines_replaced(node.body, "\n"@ + indent + "    "@) + "\n"@
}

/// Where the node stands that a node replies to.
pub open spec fn parent_index(nodes: Seq<CommentNodeView>, i: int) -> Option<int> {
    match nodes[i].parent_id {
        Some(parent) => thread::node_index(nodes, parent),
        None => None,
    }
}

/// A way up the reply tree, extended from its last node to the node that this
/// one replies to, and so on up. It ends at a node that replies to none of the
/// thread, and never comes back to where it has been.
pub open spec fn climbed(nodes: Seq<CommentNodeView>, path: Seq<int>) -> Seq<int>
    decreases nodes.len() - path.len(),
{
    if path.len() >= nodes.len() {
        path
    } else {
        match parent_index(nodes, path.last()) {
            Some(p) => if path.contains(p) {
                path
            } else {
                climbed(nodes, path.push(p))
            },
            None => path,
        }
    }
}

/// Where a node and its chain of ancestors stand, the node first.
pub open spec fn ancestor_path(nodes: Seq<CommentNodeView>, i: int) -> Seq<int> {
    climbed(nodes, seq![i])
}

/// The first `count` nodes of a chain as lines, the topmost ancestor first and
/// each below the node it replies to.
pub open spec fn chain_text(
    nodes: Seq<CommentNodeView>,
    path: Seq<int>,
    target: CommentId,
    count: nat,
) -> Seq<char>
    decreases count,
{
    if count == 0 {
        Seq::empty()
    } else {
        chain_text(nodes, path, target, (count - 1) as nat) + node_line(
            nodes,
            nodes[path[path.len() - count]],
            (count - 1) as nat,
            target,
        )
    }
}

/// A node below its chain of ancestors, up to the topmost one.
pub open spec fn ancestor_text(nodes: Seq<CommentNodeView>, i: int, target: CommentId) -> Seq<
    char,
> {
    let path = ancestor_path(nodes, i);
    chain_text(nodes, path, target, path.len())
}

/// Writes one node of the tree.
fn append_node(
    out: &mut String,
    thread: &CommentThread,
    node: &CommentNode,
    kids: &Vec<&CommentNode>,
    depth: usize,
    target: CommentId,
)
    requires
        thread::node_ref_views(kids@) == thread::children_of(thread@.nodes, node.id),
    ensures
        final(out)@ == old(out)@ + node_line(thread@.nodes, node@, depth as nat, target),
{
    let ghost list = thread::node_ref_views(kids@);
    let mut answered = false;
    for i in 0..kids.len()
        invariant
            list == thread::node_ref_views(kids@),
            answered == (exists|j: int| 0 <= j < i && (#[trigger] list[j]).author is Agent),
    {
        proof {
            assert(list[i as int] == kids@[i as int]@);
        }
        if kids[i].author.is_agent() {
            answered = true;
        }
    }
    let indent = text::repeat("  ", depth);
    let mut line_break = String::new();
    line_break.append("\n");
    line_break.append(indent.as_str());
    line_break.append("    ");
    proof {
        assert(line_break@ =~= "\n"@ + indent@ + "    "@);
    }
    let body = text::replace_newlines(node.body.as_str(), line_break.as_str());
    out.append(indent.as_str());
    let marker = if node.id == target {
        "►► "
    } else {
        "- "
    };
    out.append(marker);
    out.append(author_text(&node.author));
    out.append(" (");
    out.append(kind_text(node.kind));
    out.append(")");
    if node.id != target && answered {
        out.append(" (replied)");
    }
    out.append(": ");
    out.append(body.as_str());
    out.append("\n");
    proof {
        assert(out@ =~= old(out)@ + node_line(thread@.nodes, node@, depth as nat, target));
    }
}

/// Finds a node and its chain of ancestors, the node first.
fn find_ancestors(thread: &CommentThread, target: usize) -> (r: Vec<usize>)
    requires
        target < thread.nodes.len(),
    ensures
        r@.map_values(|i: usize| i as int) == ancestor_path(thread@.nodes, target as int),
        forall|k: int| 0 <= k < r.len() ==> (#[trigger] r@[k]) < thread.nodes.len(),
        r.len() > 0,
{
    let ghost nodes = thread@.nodes;
    let mut path: Vec<usize> = Vec::new();
    path.push(target);
    proof {
        assert(path@.map_values(|i: usize| i as int) =~= seq![target as int]);
    }
    while path.len() < thread.nodes.len()
        invariant
            nodes == thread@.nodes,
            0 < path.len() <= thread.nodes.len(),
            forall|k: int| 0 <= k < path.len() ==> (#[trigger] path@[k]) < thread.nodes.len(),
            climbed(nodes, path@.map_values(|i: usize| i as int)) == ancestor_path(
                nodes,
                target as int,
            ),
        ensures
            path@.map_values(|i: usize| i as int) == ancestor_path(nodes, target as int),
            path.len() > 0,
            forall|k: int| 0 <= k < path.len() ==> (#[trigger] path@[k]) < thread.nodes.len(),
        decreases thread.nodes.len() - path.len(),
    {
        let ghost way = path@.map_values(|i: usize| i as int);
        let last: usize = path[path.len() - 1];
        proof {
            assert(way.last() == last as int);
            assert(nodes[last as int] == thread.nodes@[last as int]@);
        }
        let above: Option<usize> = match thread.nodes[last].parent_id {
            Some(parent) => find_node(&thread.nodes, parent),
            None => None,
        };
        match above {
            Some(p) => {
                let mut seen = false;
                for k in 0..path.len()
                    invariant
                        way == path@.map_values(|i: usize| i as int),
                        seen == (exists|j: int| 0 <= j < k && #[trigger] way[j] == p as int),
                {
                    proof {
                        assert(way[k as int] == path@[k as int] as int);
                    }
                    if path[k] == p {
                        seen = true;
                    }
                }
                if seen {
                    break;
                }
                proof {
                    assert(path@.push(p).map_values(|i: usize| i as int) =~= way.push(p as int));
                }
                path.push(p);
            },
            None => {
                break;
            },
        }
    }
    path
}

/// Writes a node and its chain of ancestors into `out`, the topmost ancestor
/// first, indenting by depth and marking the targeted node with `►► ` so it
/// stands out in the prompt.
fn append_ancestors(out: &mut String, thread: &CommentThread, target_index: usize, target: CommentId)
    requires
        target_index < thread.nodes.len(),
    ensures
        final(out)@ == old(out)@ + ancestor_text(thread@.nodes, target_index as int, target),
{
    let ghost nodes = thread@.nodes;
    let path = find_ancestors(thread, target_index);
    let ghost way = ancestor_path(nodes, target_index as int);
    proof {
        assert(old(out)@ + chain_text(nodes, way, target, 0) =~= old(out)@);
    }
    for depth in 0..path.len()
        invariant
            nodes == thread@.nodes,
            way == path@.map_values(|i: usize| i as int),
            forall|k: int| 0 <= k < path.len() ==> (#[trigger] path@[k]) < thread.nodes.len(),
            out@ == old(out)@ + chain_text(nodes, way, target, depth as nat),
    {
        let at: usize = path.len() - 1 - depth;
        let i: usize = path[at];
        let node = &thread.nodes[i];
        proof {
            assert(way[at as int] == i as int);
            assert(nodes[i as int] == node@);
        }
        let kids = thread.children(node.id);
        append_node(out, thread, node, &kids, depth, target);
        proof {
            assert(out@ =~= old(out)@ + chain_text(nodes, way, target, (depth + 1) as nat));
        }
    }
}

/// The prompt for one comment: its body, a separator, and a context block with
/// file, line range, anchored line and the comment below its chain of
/// ancestors.
pub open spec fn node_feedback(thread: CommentThreadView, target: CommentId) -> Option<Seq<char>> {
    match (thread::node_index(thread.nodes, target), thread::root_index(thread.nodes)) {
        (Some(t), Some(_)) => Some(
            thread.nodes[t].body + "\n\n---\n\n"@ + "**Context** — comment on `"@
                + thread.file + line_range(thread) + "`"@ + (if thread.status
                == CommentStatus::Resolved {
                " (resolved)"@
            } else {
                Seq::empty()
            }) + "\n"@ + (if thread.anchor.fingerprint.len() == 0 {
                Seq::empty()
            } else {
                "`"@ + thread.anchor.fingerprint + "`\n"@
            }) + "\nThread so far:\n\n```\n"@ + ancestor_text(
                thread.nodes,
                t,
                target,
            ) + "```\n"@,
        ),
        _ => None,
    }
}

/// Whether the prompt for a comment can be built, where there is one: the rows
/// can be shown.
pub open spec fn can_prompt(thread: CommentThreadView, target: CommentId) -> bool {
    node_feedback(thread, target) is Some ==> rows_shown(thread)
}

/// Builds the prompt for sending one comment to the agent. `None` when the
/// thread has no such comment, or no root.
///
/// Layout:
/// 1. The target comment's body verbatim — the actual question/task the agent
///    should respond to. This leads so the panel doesn't open on a wall of
///    context.
/// 2. A `---` separator.
/// 3. A `**Context**` block with the worktree-relative file path + compact
///    line range, the anchored line, and a fenced-code dump of the comment and
///    its ancestor chain (so the agent sees the conversation leading up to the
///    comment, not unrelated siblings) where:
///    - depth-indented bullets mirror the reply tree;
///    - `►► ` marks the target node;
///    - parents that already have an `Agent` reply get a `(replied)` suffix;
///    - the whole thread is suffixed with `(resolved)` when applicable.
pub fn build_node_feedback(thread: &CommentThread, target: CommentId) -> (r: Option<String>)
    requires
        can_prompt(thread@, target),
    ensures
        match r {
            Some(prompt) => node_feedback(thread@, target) == Some(prompt@),
            None => node_feedback(thread@, target) is None,
        },
{
    let target_index: usize = match find_node(&thread.nodes, target) {
        Some(i) => i,
        None => {
            return None;
        },
    };
    let target_node = &thread.nodes[target_index];
    if thread.root().is_none() {
        return None;
    }
    let ghost nodes = thread@.nodes;
    proof {
        assert(nodes[target_index as int] == target_node@);
    }
    let mut chain = String::new();
    append_ancestors(&mut chain, thread, target_index, target);
    proof {
        assert(chain@ =~= ancestor_text(nodes, target_index as int, target));
    }
    let resolved_suffix = match thread.status {
        CommentStatus::Resolved => " (resolved)",
        CommentStatus::Open => "",
    };
    proof {
        reveal_strlit("");
        assert(""@ =~= Seq::empty());
    }
    let mut out = target_node.body.clone();
    out.append("\n\n---\n\n");
    out.append("**Context** — comment on `");
    out.append(thread.file.as_unix_str());
    out.append(format_line_range(thread).as_str());
    out.append("`");
    out.append(resolved_suffix);
    out.append("\n");
    if thread.anchor.fingerprint.as_str().unicode_len() > 0 {
        out.append("`");
        out.append(thread.anchor.fingerprint.as_str());
        out.append("`\n");
    }
    out.append("\nThread so far:\n\n```\n");
    out.append(chain.as_str());
    out.append("```\n");
    proof {
        assert(out@ =~= node_feedback(thread@, target)->0);
    }
    Some(out)
}

/// Whether a thread is a task that still has to be done.
pub open spec fn is_open_task(thread: CommentThreadView) -> bool {
    thread.kind == CommentKind::Task && thread.status == CommentStatus::Open
}

/// Whether a store has a task that still has to be done.
pub fn has_open_tasks(store: &CommentStore) -> (r: bool)
    ensures
        r == (tasks_message(store@.threads()) is Some),
{
    let all = store.all_threads();
    let ghost views = store@.threads();
    for i in 0..all.len()
        invariant
            views == store@.threads(),
            views == thread::thread_ref_views(all@),
            forall|j: int| 0 <= j < i ==> !is_open_task(#[trigger] views[j]),
    {
        proof {
            assert(views[i as int] == all@[i as int]@);
        }
        if all[i].kind == CommentKind::Task && all[i].status == CommentStatus::Open {
            proof {
                assert(is_open_task(views[i as int]));
            }
            return true;
        }
    }
    false
}

/// The feedback of every open task, each followed by an empty line.
pub open spec fn task_texts(threads: Seq<CommentThreadView>) -> Seq<char>
    decreases threads.len(),
{
    if threads.len() == 0 {
        Seq::empty()
    } else if is_open_task(threads.last()) {
        task_texts(threads.drop_last()) + feedback(threads.last()) + "\n"@
    } else {
        task_texts(threads.drop_last())
    }
}

/// The message that delivers every open task, if there is one.
pub open spec fn tasks_message(threads: Seq<CommentThreadView>) -> Option<Seq<char>> {
    if exists|i: int| 0 <= i < threads.len() && is_open_task(#[trigger] threads[i]) {
        Some("Please address the following review tasks:\n\n"@ + task_texts(threads))
    } else {
        None
    }
}

/// The one batched message that delivers every open Task-kind thread to the
/// agent; `None` when there is nothing to deliver.
pub fn build_tasks_message(store: &CommentStore) -> (r: Option<String>)
    requires
        forall|i: int|
            0 <= i < store@.threads().len() && is_open_task(#[trigger] store@.threads()[i])
                ==> rows_shown(store@.threads()[i]),
    ensures
        match r {
            Some(message) => tasks_message(store@.threads()) == Some(message@),
            None => tasks_message(store@.threads()) is None,
        },
{
    let all = store.all_threads();
    let ghost views = store@.threads();
    let mut out = String::new();
    out.append("Please address the following review tasks:\n\n");
    let ghost head = "Please address the following review tasks:\n\n"@;
    let mut any = false;
    proof {
        assert(views.take(0) =~= Seq::empty());
        assert(out@ =~= head + task_texts(views.take(0)));
    }
    for i in 0..all.len()
        invariant
            views == thread::thread_ref_views(all@),
            forall|j: int|
                0 <= j < views.len() && is_open_task(#[trigger] views[j]) ==> rows_shown(views[j]),
            out@ == head + task_texts(views.take(i as int)),
            any == (exists|j: int| 0 <= j < i && is_open_task(#[trigger] views[j])),
    {
        proof {
            assert(views[i as int] == all@[i as int]@);
            assert(views.take(i + 1).drop_last() =~= views.take(i as int));
        }
        if all[i].kind == CommentKind::Task && all[i].status == CommentStatus::Open {
            let ghost before = out@;
            out.append(build_feedback(all[i]).as_str());
            out.append("\n");
            any = true;
            proof {
                assert(is_open_task(views[i as int]));
                assert(out@ =~= head + task_texts(views.take(i + 1)));
            }
        }
    }
    proof {
        assert(views.take(views.len() as int) =~= views);
    }
    if any {
        Some(out)
    } else {
        None
    }
}

/// A piece of an assistant message.
pub enum AssistantMessageChunk {
    /// What the assistant says, as markdown.
    Message { block: String },
    /// What the assistant thinks, as markdown.
    Thought { block: String },
}

/// One entry of an agent thread.
pub enum AgentThreadEntry {
    /// A message of the assistant: the whole entry as markdown, and its
    /// pieces.
    AssistantMessage { markdown: String, chunks: Vec<AssistantMessageChunk> },
    /// Anything else: a message of the user, a tool call, a plan.
    Other,
}

/// The message pieces of some chunks, without the empty ones.
pub open spec fn chunk_messages(chunks: Seq<AssistantMessageChunk>) -> Seq<Seq<char>>
    decreases chunks.len(),
{
    if chunks.len() == 0 {
        Seq::empty()
    } else {
        let before = chunk_messages(chunks.drop_last());
        match chunks.last() {
            AssistantMessageChunk::Message { block } => if block@.len() > 0 {
                before.push(block@)
            } else {
                before
            },
            AssistantMessageChunk::Thought { .. } => before,
        }
    }
}

/// The message pieces of some entries, without the empty ones.
pub open spec fn entry_messages(entries: Seq<AgentThreadEntry>) -> Seq<Seq<char>>
    decreases entries.len(),
{
    if entries.len() == 0 {
        Seq::empty()
    } else {
        let before = entry_messages(entries.drop_last());
        match entries.last() {
            AgentThreadEntry::AssistantMessage { chunks, .. } => before + chunk_messages(chunks@),
            AgentThreadEntry::Other => before,
        }
    }
}

/// The assistant entries as markdown.
pub open spec fn entry_markdowns(entries: Seq<AgentThreadEntry>) -> Seq<Seq<char>>
    decreases entries.len(),
{
    if entries.len() == 0 {
        Seq::empty()
    } else {
        let before = entry_markdowns(entries.drop_last());
        match entries.last() {
            AgentThreadEntry::AssistantMessage { markdown, .. } => before.push(markdown@),
            AgentThreadEntry::Other => before,
        }
    }
}

/// The entries that came after the first `before` ones.
pub open spec fn entries_since(entries: Seq<AgentThreadEntry>, before: nat) -> Seq<
    AgentThreadEntry,
> {
    if before <= entries.len() {
        entries.skip(before as int)
    } else {
        Seq::empty()
    }
}

/// Collects the assistant's reply as raw markdown, skipping the
/// `## Assistant` wrapper and any `<thinking>` chunks. Returns the joined
/// message body suitable for storing as a comment node.
pub fn assistant_reply_markdown(entries: &Vec<AgentThreadEntry>, entries_before: usize) -> (r:
    String)
    ensures
        r@ == text::trimmed(
            text::joined(
                entry_messages(entries_since(entries@, entries_before as nat)),
                "\n\n"@,
            ),
        ),
{
    let mut pieces: Vec<String> = Vec::new();
    let ghost fresh = entries_since(entries@, entries_before as nat);
    let mut i: usize = entries_before;
    proof {
        assert(text::texts(pieces@) =~= Seq::empty());
        assert(fresh.take(0) =~= Seq::empty());
    }
    while i < entries.len()
        invariant
            entries_before <= i,
            i <= entries.len() || entries_before > entries.len(),
            fresh == entries_since(entries@, entries_before as nat),
            entries_before > entries.len() ==> fresh.len() == 0 && i == entries_before,
            text::texts(pieces@) == entry_messages(fresh.take(i - entries_before)),
        decreases entries.len() - i,
    {
        let ghost k = i - entries_before;
        proof {
            assert(fresh[k] == entries@[i as int]);
            assert(fresh.take(k + 1).drop_last() =~= fresh.take(k));
        }
        match &entries[i] {
            AgentThreadEntry::AssistantMessage { chunks, .. } => {
                let ghost before = text::texts(pieces@);
                proof {
                    assert(chunks@.take(0) =~= Seq::empty());
                    assert(before + chunk_messages(chunks@.take(0)) =~= before);
                }
                for c in 0..chunks.len()
                    invariant
                        text::texts(pieces@) == before + chunk_messages(chunks@.take(c as int)),
                {
                    proof {
                        assert(chunks@.take(c + 1).drop_last() =~= chunks@.take(c as int));
                    }
                    match &chunks[c] {
                        AssistantMessageChunk::Message { block } => {
                            if block.as_str().unicode_len() > 0 {
                                proof {
                                    assert(text::texts(pieces@.push(*block)) =~= text::texts(
                                        pieces@,
                                    ).push(block@));
                                    assert(text::texts(pieces@.push(*block)) =~= before
                                        + chunk_messages(chunks@.take(c + 1)));
                                }
                                pieces.push(block.clone());
                            }
                        },
                        AssistantMessageChunk::Thought { .. } => {},
                    }
                }
                proof {
                    assert(chunks@.take(chunks@.len() as int) =~= chunks@);
                }
            },
            AgentThreadEntry::Other => {},
        }
        i = i + 1;
    }
    proof {
        assert(fresh.take(fresh.len() as int) =~= fresh);
    }
    text::trim(text::join(&pieces, "\n\n").as_str())
}

/// The assistant's entries since the first `entries_before` ones, whole and
/// joined.
pub fn assistant_entries_markdown(entries: &Vec<AgentThreadEntry>, entries_before: usize) -> (r:
    String)
    ensures
        r@ == text::joined(
            entry_markdowns(entries_since(entries@, entries_before as nat)),
            "\n\n"@,
        ),
{
    let mut pieces: Vec<String> = Vec::new();
    let ghost fresh = entries_since(entries@, entries_before as nat);
    let mut i: usize = entries_before;
    proof {
        assert(text::texts(pieces@) =~= Seq::empty());
        assert(fresh.take(0) =~= Seq::empty());
    }
    while i < entries.len()
        invariant
            entries_before <= i,
            i <= entries.len() || entries_before > entries.len(),
            fresh == entries_since(entries@, entries_before as nat),
            entries_before > entries.len() ==> fresh.len() == 0 && i == entries_before,
            text::texts(pieces@) == entry_markdowns(fresh.take(i - entries_before)),
        decreases entries.len() - i,
    {
        let ghost k = i - entries_before;
        proof {
            assert(fresh[k] == entries@[i as int]);
            assert(fresh.take(k + 1).drop_last() =~= fresh.take(k));
        }
        match &entries[i] {
            AgentThreadEntry::AssistantMessage { markdown, .. } => {
                proof {
                    assert(text::texts(pieces@.push(*markdown)) =~= text::texts(pieces@).push(
                        markdown@,
                    ));
                }
                pieces.push(markdown.clone());
            },
            AgentThreadEntry::Other => {},
        }
        i = i + 1;
    }
    proof {
        assert(fresh.take(fresh.len() as int) =~= fresh);
    }
    text::join(&pieces, "\n\n")
}

/// The store after the agent's answer to a node was recorded: appended as a
/// reply to the node, unless the answer is blank.
pub open spec fn answered(
    store: CommentStoreView,
    thread_id: ThreadId,
    parent: Option<CommentId>,
    answer: Seq<char>,
    stamp: NodeStamp,
) -> CommentStoreView {
    if text::trimmed(answer).len() == 0 {
        store
    } else {
        store.with_thread(
            thread_id,
            |t: CommentThreadView|
                CommentThreadView {
                    nodes: t.nodes.push(
                        CommentNodeView {
                            id: stamp.id,
                            parent_id: parent,
                            author: CommentAuthorView::Agent,
                            body: answer,
                            kind: CommentKind::Comment,
                            created_at: stamp.created_at,
                            remote_id: None,
                        },
                    ),
                    ..t
                },
        )
    }
}

/// The event that recording an answer emits.
pub open spec fn answer_event(
    store: CommentStoreView,
    thread_id: ThreadId,
    answer: Seq<char>,
) -> Option<CommentStoreEvent> {
    if text::trimmed(answer).len() > 0 && store.thread(thread_id) is Some {
        Some(CommentStoreEvent::Changed)
    } else {
        None
    }
}

/// Records the agent's answer with a given stamp.
pub fn record_answer_with(
    store: &mut CommentStore,
    thread_id: ThreadId,
    parent: Option<CommentId>,
    answer: String,
    stamp: NodeStamp,
) -> (event: Option<CommentStoreEvent>)
    ensures
        final(store)@ == answered(old(store)@, thread_id, parent, answer@, stamp),
        event == answer_event(old(store)@, thread_id, answer@),
{
    if text::trim(answer.as_str()).as_str().unicode_len() == 0 {
        return None;
    }
    let node = CommentNode::with_stamp(
        CommentAuthor::Agent,
        answer,
        parent,
        CommentKind::Comment,
        stamp,
    );
    store.add_node(thread_id, node)
}

/// Records the agent's answer to one comment as its child, dated now.
pub fn record_node_answer(
    store: &mut CommentStore,
    thread_id: ThreadId,
    node_id: CommentId,
    answer: String,
) -> (event: Option<CommentStoreEvent>)
    ensures
        exists|stamp: NodeStamp|
            ids::is_random_uuid(stamp.id.0) && final(store)@ == #[trigger] answered(
                old(store)@,
                thread_id,
                Some(node_id),
                answer@,
                stamp,
            ),
        event == answer_event(old(store)@, thread_id, answer@),
{
    let stamp = NodeStamp::fresh();
    record_answer_with(store, thread_id, Some(node_id), answer, stamp)
}

/// The identifier of a thread's root comment, if there are both.
pub open spec fn root_of(store: CommentStoreView, thread_id: ThreadId) -> Option<CommentId> {
    match store.thread(thread_id) {
        Some(t) => match thread::root_index(t.nodes) {
            Some(i) => Some(t.nodes[i].id),
            None => None,
        },
        None => None,
    }
}

/// Records the agent's answer to a whole thread with a given stamp: as a
/// child of the thread's root.
pub fn record_thread_answer_with(
    store: &mut CommentStore,
    thread_id: ThreadId,
    answer: String,
    stamp: NodeStamp,
) -> (event: Option<CommentStoreEvent>)
    ensures
        final(store)@ == answered(
            old(store)@,
            thread_id,
            root_of(old(store)@, thread_id),
            answer@,
            stamp,
        ),
        event == answer_event(old(store)@, thread_id, answer@),
{
    let parent = match store.thread(thread_id) {
        Some(thread) => match thread.root() {
            Some(root) => Some(root.id),
            None => None,
        },
        None => None,
    };
    record_answer_with(store, thread_id, parent, answer, stamp)
}

/// Records the agent's answer to a whole thread, dated now.
pub fn record_thread_answer(store: &mut CommentStore, thread_id: ThreadId, answer: String) -> (event:
    Option<CommentStoreEvent>)
    ensures
        exists|stamp: NodeStamp|
            ids::is_random_uuid(stamp.id.0) && final(store)@ == #[trigger] answered(
                old(store)@,
                thread_id,
                root_of(old(store)@, thread_id),
                answer@,
                stamp,
            ),
        event == answer_event(old(store)@, thread_id, answer@),
{
    let stamp = NodeStamp::fresh();
    record_thread_answer_with(store, thread_id, answer, stamp)
}

proof fn lemma_climbed(nodes: Seq<CommentNodeView>, path: Seq<int>)
    requires
        0 < path.len() <= nodes.len(),
        path.no_duplicates(),
        forall|k: int| 0 <= k < path.len() ==> 0 <= #[trigger] path[k] < nodes.len(),
        forall|k: int|
            0 < k < path.len() ==> parent_index(nodes, path[k - 1]) == Some(#[trigger] path[k]),
    ensures
        ({
            let way = climbed(nodes, path);
            &&& path.len() <= way.len() <= nodes.len()
            &&& way[0] == path[0]
            &&& way.no_duplicates()
            &&& forall|k: int| 0 <= k < way.len() ==> 0 <= #[trigger] way[k] < nodes.len()
            &&& forall|k: int|
                0 < k < way.len() ==> parent_index(nodes, way[k - 1]) == Some(#[trigger] way[k])
            &&& parent_index(nodes, way.last()) matches Some(p) ==> way.contains(p)
        }),
    decreases nodes.len() - path.len(),
{
    match parent_index(nodes, path.last()) {
        Some(p) => {
            thread::lemma_node_index(nodes, nodes[path.last()].parent_id->0);
            if path.contains(p) {
            } else if path.len() >= nodes.len() {
                tree::lemma_long_list_repeats(path.push(p), nodes.len());
            } else {
                lemma_climbed(nodes, path.push(p));
            }
        },
        None => {},
    }
}

/// The prompt for a comment shows the comment and, above it, each node of its
/// chain of ancestors once, and no other node: the chain starts at the
/// comment, every further node is the one that the node before it replies to,
/// and it ends at a node that replies to none of the thread, unless the
/// replies lead back to themselves.
pub proof fn lemma_ancestor_path(nodes: Seq<CommentNodeView>, i: int)
    requires
        0 <= i < nodes.len(),
    ensures
        ({
            let way = ancestor_path(nodes, i);
            &&& 0 < way.len() <= nodes.len()
            &&& way[0] == i
            &&& way.no_duplicates()
            &&& forall|k: int| 0 <= k < way.len() ==> 0 <= #[trigger] way[k] < nodes.len()
            &&& forall|k: int|
                0 < k < way.len() ==> parent_index(nodes, way[k - 1]) == Some(#[trigger] way[k])
            &&& parent_index(nodes, way.last()) matches Some(p) ==> way.contains(p)
        }),
{
    lemma_climbed(nodes, seq![i]);
}

/// An answer that is not blank becomes the last comment of its thread, written
/// by the agent, as a child of the comment it answers; every other thread
/// stays as it was. A blank answer changes nothing.
pub proof fn lemma_answer_is_appended(
    store: CommentStoreView,
    thread_id: ThreadId,
    parent: Option<CommentId>,
    answer: Seq<char>,
    stamp: NodeStamp,
    other: ThreadId,
)
    ensures
        ({
            let after = answered(store, thread_id, parent, answer, stamp);
            &&& other != thread_id ==> after.thread(other) == store.thread(other)
            &&& text::trimmed(answer).len() == 0 ==> after == store
            &&& text::trimmed(answer).len() > 0 ==> match store.thread(thread_id) {
                Some(t) => after.thread(thread_id) == Some(
                    CommentThreadView {
                        nodes: t.nodes.push(
                            CommentNodeView {
                                id: stamp.id,
                                parent_id: parent,
                                author: CommentAuthorView::Agent,
                                body: answer,
                                kind: CommentKind::Comment,
                                created_at: stamp.created_at,
                                remote_id: None,
                            },
                        ),
                        ..t
                    },
                ),
                None => after.thread(thread_id) is None,
            }
        }),
{
    let append = |t: CommentThreadView|
        CommentThreadView {
            nodes: t.nodes.push(
                CommentNodeView {
                    id: stamp.id,
                    parent_id: parent,
                    author: CommentAuthorView::Agent,
                    body: answer,
                    kind: CommentKind::Comment,
                    created_at: stamp.created_at,
                    remote_id: None,
                },
            ),
            ..t
        };
    store_laws::lemma_change_then_lookup(store, thread_id, append, thread_id);
    store_laws::lemma_change_then_lookup(store, thread_id, append, other);
}

} // verus!
