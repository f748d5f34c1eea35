use code_comments::agent_integration::{
    assistant_entries_markdown, assistant_reply_markdown, build_feedback, build_node_feedback,
    build_tasks_message, format_line_range, has_open_tasks, record_answer_with, record_node_answer,
    record_thread_answer, record_thread_answer_with, text_block, AgentThreadEntry,
    AssistantMessageChunk,
};
use code_comments::comment::{
    CommentAnchor, CommentAuthor, CommentKind, CommentNode, CommentStatus, NodeStamp, RelPath,
};
use code_comments::comment_store::{CommentStore, CommentStoreEvent, WorkspaceId};
use code_comments::ids::{CommentId, ThreadId};
use code_comments::thread::CommentThread;

fn node(
    id: u128,
    parent: Option<u128>,
    author: CommentAuthor,
    kind: CommentKind,
    body: &str,
) -> CommentNode {
    CommentNode::with_stamp(
        author,
        body.to_string(),
        parent.map(CommentId),
        kind,
        NodeStamp { id: CommentId(id), created_at: id as i64 },
    )
}

fn remote(login: &str) -> CommentAuthor {
    CommentAuthor::Remote { login: login.to_string() }
}

fn thread(id: u128) -> CommentThread {
    CommentThread {
        id: ThreadId(id),
        change_id: None,
        file: RelPath("src/lib.rs".to_string()),
        anchor: CommentAnchor {
            start_row: 9,
            start_column: 0,
            end_row: 9,
            end_column: 0,
            fingerprint: "fn main() {".to_string(),
        },
        kind: CommentKind::Task,
        status: CommentStatus::Open,
        nodes: vec![
            node(1, None, CommentAuthor::User, CommentKind::Question, "  why\nthis?  "),
            node(2, Some(1), CommentAuthor::Agent, CommentKind::Comment, "because"),
            node(3, Some(2), remote("kim"), CommentKind::Task, "fix\nit"),
            node(4, Some(1), CommentAuthor::User, CommentKind::Comment, "ok"),
        ],
        collapsed: false,
    }
}

#[test]
fn feedback_lists_every_comment() {
    let mut t = thread(1);
    t.anchor.end_row = 11;
    assert_eq!(
        build_feedback(&t),
        "Inline code comment on `src/lib.rs` (lines 10-12):\n\
         Anchored line: `fn main() {`\n\
         \n\
         - User:   why\nthis?  \n\
         - Agent: because\n\
         - kim: fix\nit\n\
         - User: ok\n"
    );
}

#[test]
fn feedback_without_a_fingerprint_has_no_anchored_line() {
    let mut t = thread(1);
    t.anchor.fingerprint = String::new();
    t.nodes.clear();
    assert_eq!(
        build_feedback(&t),
        "Inline code comment on `src/lib.rs` (lines 10-10):\n\n"
    );
}

#[test]
fn line_ranges() {
    let mut t = thread(1);
    assert_eq!(format_line_range(&t), ":10");
    t.anchor.end_row = 19;
    assert_eq!(format_line_range(&t), ":10-20");
}

#[test]
fn node_feedback_shows_the_comment_below_its_ancestors() {
    let t = thread(1);
    assert_eq!(
        build_node_feedback(&t, CommentId(3)).unwrap(),
        "fix\nit\n\n---\n\n\
         **Context** — comment on `src/lib.rs:10`\n\
         `fn main() {`\n\
         \nThread so far:\n\n```\n\
         - User (question) (replied):   why\n    this?  \n\
         \u{20} - Agent (comment): because\n\
         \u{20}   ►► kim (task): fix\n        it\n\
         ```\n"
    );
}

#[test]
fn node_feedback_leaves_siblings_out() {
    let t = thread(1);
    let prompt = build_node_feedback(&t, CommentId(4)).unwrap();
    assert_eq!(
        prompt,
        "ok\n\n---\n\n\
         **Context** — comment on `src/lib.rs:10`\n\
         `fn main() {`\n\
         \nThread so far:\n\n```\n\
         - User (question) (replied):   why\n    this?  \n\
         \u{20} ►► User (comment): ok\n\
         ```\n"
    );
    assert!(!prompt.contains("because"));
}

#[test]
fn node_feedback_ends_where_a_parent_is_missing_or_met_again() {
    let mut t = thread(1);
    t.nodes[1].parent_id = Some(CommentId(99));
    let prompt = build_node_feedback(&t, CommentId(3)).unwrap();
    assert!(prompt.ends_with("```\n- Agent (comment): because\n  ►► kim (task): fix\n      it\n```\n"));
    t.nodes[1].parent_id = Some(CommentId(3));
    let prompt = build_node_feedback(&t, CommentId(3)).unwrap();
    assert!(prompt.ends_with("```\n- Agent (comment): because\n  ►► kim (task): fix\n      it\n```\n"));
}

#[test]
fn node_feedback_does_not_flag_its_target() {
    let mut t = thread(1);
    t.status = CommentStatus::Resolved;
    t.anchor.fingerprint = String::new();
    t.nodes.truncate(2);
    assert_eq!(
        build_node_feedback(&t, CommentId(1)).unwrap(),
        "  why\nthis?  \n\n---\n\n\
         **Context** — comment on `src/lib.rs:10` (resolved)\n\
         \nThread so far:\n\n```\n\
         ►► User (question):   why\n    this?  \n\
         ```\n"
    );
}

#[test]
fn node_feedback_needs_the_node_and_a_root() {
    let mut t = thread(1);
    assert!(build_node_feedback(&t, CommentId(9)).is_none());
    t.nodes.remove(0);
    assert!(build_node_feedback(&t, CommentId(2)).is_none());
}

#[test]
fn tasks_are_batched() {
    let mut store = CommentStore::new(WorkspaceId(1));
    assert_eq!(build_tasks_message(&store), None);
    assert!(!has_open_tasks(&store));
    let mut question = thread(1);
    question.kind = CommentKind::Question;
    let mut resolved = thread(2);
    resolved.status = CommentStatus::Resolved;
    store.upsert_thread(question);
    store.upsert_thread(resolved);
    assert_eq!(build_tasks_message(&store), None);
    store.upsert_thread(thread(3));
    store.upsert_thread(thread(4));
    assert!(has_open_tasks(&store));
    let one = build_feedback(&thread(3));
    assert_eq!(
        build_tasks_message(&store).unwrap(),
        format!("Please address the following review tasks:\n\n{one}\n{one}\n")
    );
}

fn entries() -> Vec<AgentThreadEntry> {
    let message = |block: &str| AssistantMessageChunk::Message { block: block.to_string() };
    vec![
        AgentThreadEntry::AssistantMessage {
            markdown: "## Assistant\n\nold".to_string(),
            chunks: vec![message("old")],
        },
        AgentThreadEntry::Other,
        AgentThreadEntry::AssistantMessage {
            markdown: "## Assistant\n\none".to_string(),
            chunks: vec![
                AssistantMessageChunk::Thought { block: "hmm".to_string() },
                message(" one"),
                message(""),
                message("two"),
            ],
        },
        AgentThreadEntry::AssistantMessage {
            markdown: "## Assistant\n\nthree".to_string(),
            chunks: vec![message("three\n")],
        },
    ]
}

#[test]
fn the_reply_is_what_came_after_sending() {
    assert_eq!(assistant_reply_markdown(&entries(), 1), "one\n\ntwo\n\nthree");
    assert_eq!(assistant_reply_markdown(&entries(), 0), "old\n\n one\n\ntwo\n\nthree");
    assert_eq!(assistant_reply_markdown(&entries(), 4), "");
    assert_eq!(assistant_reply_markdown(&entries(), 99), "");
}

#[test]
fn whole_entries_are_joined() {
    assert_eq!(
        assistant_entries_markdown(&entries(), 2),
        "## Assistant\n\none\n\n## Assistant\n\nthree"
    );
    assert_eq!(assistant_entries_markdown(&entries(), 99), "");
}

#[test]
fn an_answer_becomes_a_child_of_its_comment() {
    let mut store = CommentStore::new(WorkspaceId(1));
    store.upsert_thread(thread(1));
    let stamp = NodeStamp { id: CommentId(50), created_at: 77 };
    let event =
        record_answer_with(&mut store, ThreadId(1), Some(CommentId(3)), "done ".to_string(), stamp);
    assert_eq!(event, Some(CommentStoreEvent::Changed));
    let t = store.thread(ThreadId(1)).unwrap();
    let last = t.nodes.last().unwrap();
    assert_eq!(last.id, CommentId(50));
    assert_eq!(last.parent_id, Some(CommentId(3)));
    assert_eq!(last.author, CommentAuthor::Agent);
    assert_eq!(last.body, "done ");
    assert_eq!(last.kind, CommentKind::Comment);
    assert_eq!(last.created_at, 77);
    assert_eq!(t.nodes.len(), 5);
}

#[test]
fn a_blank_answer_is_dropped() {
    let mut store = CommentStore::new(WorkspaceId(1));
    store.upsert_thread(thread(1));
    assert_eq!(
        record_node_answer(&mut store, ThreadId(1), CommentId(1), " \n".to_string()),
        None
    );
    assert_eq!(record_thread_answer(&mut store, ThreadId(9), "x".to_string()), None);
    assert_eq!(store.thread(ThreadId(1)).unwrap().nodes.len(), 4);
}

#[test]
fn an_answer_to_a_thread_goes_under_its_root() {
    let mut store = CommentStore::new(WorkspaceId(1));
    store.upsert_thread(thread(1));
    let stamp = NodeStamp { id: CommentId(50), created_at: 77 };
    record_thread_answer_with(&mut store, ThreadId(1), "done".to_string(), stamp);
    assert_eq!(
        store.thread(ThreadId(1)).unwrap().nodes[4].parent_id,
        Some(CommentId(1))
    );
    let event = record_node_answer(&mut store, ThreadId(1), CommentId(2), "more".to_string());
    assert_eq!(event, Some(CommentStoreEvent::Changed));
    assert_eq!(
        store.thread(ThreadId(1)).unwrap().nodes[5].parent_id,
        Some(CommentId(2))
    );
}

#[test]
fn a_text_is_sent_as_one_block() {
    let blocks = text_block("hello".to_string());
    assert_eq!(blocks.len(), 1);
    match &blocks[0] {
        agent_client_protocol::v1::schema::ContentBlock::Text(content) => {
            assert_eq!(content.text, "hello");
            assert!(content.annotations.is_none() && content.meta.is_none());
        }
        other => panic!("not a text: {other:?}"),
    }
}
