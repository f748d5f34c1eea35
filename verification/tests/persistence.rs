use code_comments::comment::{
    ChangeId, CommentAnchor, CommentAuthor, CommentKind, CommentNode, CommentStatus, RelPath,
};
use code_comments::comment_store::{CommentStore, CommentStoreEvent, WorkspaceId};
use code_comments::ids::{CommentId, ThreadId};
use code_comments::persistence::{
    build_index, node_from_row, DbCommentRow, DbConversationRow, LoadedConversation,
};
use code_comments::thread::CommentThread;

const THREAD: &str = "00000000-0000-0000-0000-000000000001";
const OTHER: &str = "00000000-0000-0000-0000-000000000002";

fn sample(id: u128, file: &str) -> CommentThread {
    CommentThread {
        id: ThreadId(id),
        change_id: None,
        file: RelPath(file.to_string()),
        anchor: CommentAnchor {
            start_row: 3,
            start_column: 1,
            end_row: 5,
            end_column: 2,
            fingerprint: "let x = 1;".to_string(),
        },
        kind: CommentKind::Task,
        status: CommentStatus::Resolved,
        nodes: vec![
            CommentNode {
                id: CommentId(id * 100),
                parent_id: None,
                author: CommentAuthor::Remote { login: "kim".to_string() },
                body: "why?".to_string(),
                kind: CommentKind::Question,
                created_at: 11,
                remote_id: Some(-4),
            },
            CommentNode {
                id: CommentId(id * 100 + 1),
                parent_id: Some(CommentId(id * 100)),
                author: CommentAuthor::Agent,
                body: "because".to_string(),
                kind: CommentKind::Comment,
                created_at: 12,
                remote_id: None,
            },
        ],
        collapsed: true,
    }
}

fn comment_row(conversation: &str, id: &str, parent: Option<&str>) -> DbCommentRow {
    DbCommentRow {
        conversation_id: conversation.to_string(),
        comment_id: id.to_string(),
        in_reply_to: parent.map(|p| p.to_string()),
        author_kind: 2,
        author_login: Some("kim".to_string()),
        body: "b".to_string(),
        created_at: 9,
        remote_id: None,
        kind: 1,
    }
}

fn conversation_row(id: &str, file: &str) -> LoadedConversation {
    LoadedConversation {
        row: DbConversationRow {
            conversation_id: id.to_string(),
            path: file.to_string(),
            start_row: 1,
            start_column: 2,
            end_row: 3,
            end_column: 4,
            fingerprint: "f".to_string(),
            kind: 2,
            status: 1,
            collapsed: true,
        },
        file: Some(RelPath(file.to_string())),
    }
}

fn reload(rows: Vec<DbConversationRow>) -> Vec<LoadedConversation> {
    rows.into_iter()
        .map(|row| {
            let file = Some(RelPath(row.path.clone()));
            LoadedConversation { row, file }
        })
        .collect()
}

#[test]
fn rows_of_a_thread() {
    let (row, nodes) = sample(1, "src/a.rs").to_db_rows();
    assert_eq!(row.conversation_id, THREAD);
    assert_eq!(row.path, "src/a.rs");
    assert_eq!((row.start_row, row.start_column, row.end_row, row.end_column), (3, 1, 5, 2));
    assert_eq!(row.fingerprint, "let x = 1;");
    assert_eq!((row.kind, row.status, row.collapsed), (2, 1, true));
    assert_eq!(nodes.len(), 2);
    assert_eq!(nodes[0].conversation_id, THREAD);
    assert_eq!(nodes[0].comment_id, "00000000-0000-0000-0000-000000000064");
    assert_eq!(nodes[0].in_reply_to, None);
    assert_eq!((nodes[0].author_kind, nodes[0].author_login.as_deref()), (2, Some("kim")));
    assert_eq!((nodes[0].created_at, nodes[0].remote_id, nodes[0].kind), (11, Some(-4), 1));
    assert_eq!(nodes[1].in_reply_to.as_deref(), Some("00000000-0000-0000-0000-000000000064"));
    assert_eq!((nodes[1].author_kind, nodes[1].author_login.as_deref()), (1, None));
    assert_eq!(nodes[1].body, "because");
}

#[test]
fn saving_and_loading_gives_the_store_back() {
    let mut store = CommentStore::new(WorkspaceId(1));
    store.upsert_thread(sample(1, "a"));
    store.upsert_thread(sample(2, "b"));
    store.upsert_thread(sample(3, "a"));
    let (threads, nodes) = store.to_db_rows();
    assert_eq!(threads.len(), 3);
    assert_eq!(nodes.len(), 6);

    let mut other = CommentStore::new(WorkspaceId(1));
    assert_eq!(other.load(&reload(threads), &nodes), CommentStoreEvent::Changed);
    let before: Vec<String> = store.all_threads().iter().map(|t| format!("{:?}", t)).collect();
    let after: Vec<String> = other.all_threads().iter().map(|t| format!("{:?}", t)).collect();
    assert_eq!(before, after);
    let ids: Vec<u128> = other
        .threads_for_file(&RelPath("a".to_string()))
        .iter()
        .map(|t| t.id.0)
        .collect();
    assert_eq!(ids, vec![1, 3]);
}

#[test]
fn the_change_of_a_thread_is_not_persisted() {
    let mut t = sample(1, "a");
    t.change_id = Some(ChangeId("pr-1".to_string()));
    let mut store = CommentStore::new(WorkspaceId(1));
    store.upsert_thread(t);
    let (threads, nodes) = store.to_db_rows();
    store.load(&reload(threads), &nodes);
    assert!(store.thread(ThreadId(1)).unwrap().change_id.is_none());
    assert_eq!(store.thread(ThreadId(1)).unwrap().nodes.len(), 2);
}

#[test]
fn loading_replaces_what_was_there() {
    let mut store = CommentStore::new(WorkspaceId(4));
    store.upsert_thread(sample(1, "a"));
    store.load(&Vec::new(), &Vec::new());
    assert!(store.all_threads().is_empty());
    assert_eq!(store.workspace_id(), WorkspaceId(4));
}

#[test]
fn a_comment_row_with_a_bad_identifier_is_skipped() {
    assert!(node_from_row(&comment_row(THREAD, "nope", None)).is_none());
    assert!(node_from_row(&comment_row(THREAD, OTHER, Some("nope"))).is_none());
    let node = node_from_row(&comment_row(THREAD, OTHER, Some(THREAD))).unwrap();
    assert_eq!(node.id, CommentId(2));
    assert_eq!(node.parent_id, Some(CommentId(1)));
    assert_eq!(node.author, CommentAuthor::Remote { login: "kim".to_string() });
    assert_eq!(node.kind, CommentKind::Question);
}

#[test]
fn a_thread_row_with_a_bad_identifier_or_path_is_skipped() {
    let mut no_file = conversation_row(OTHER, "b");
    no_file.file = None;
    let rows = vec![conversation_row("nope", "a"), no_file, conversation_row(THREAD, "a")];
    let files = build_index(&rows, &vec![comment_row(OTHER, OTHER, None)]);
    assert_eq!(files.len(), 1);
    assert_eq!(files[0].file.as_unix_str(), "a");
    assert_eq!(files[0].threads.len(), 1);
    let t = &files[0].threads[0];
    assert_eq!(t.id, ThreadId(1));
    assert_eq!(t.kind, CommentKind::Task);
    assert_eq!(t.status, CommentStatus::Resolved);
    assert_eq!(t.anchor.end_column, 4);
    assert!(t.collapsed);
    assert!(t.nodes.is_empty());
}

#[test]
fn comments_go_to_the_first_row_with_their_identifier() {
    let mut lost = conversation_row(THREAD, "z");
    lost.file = None;
    let rows = vec![lost, conversation_row(THREAD, "a"), conversation_row(THREAD, "b")];
    let comments = vec![
        comment_row(THREAD, "00000000-0000-0000-0000-00000000000a", None),
        comment_row(OTHER, "00000000-0000-0000-0000-00000000000b", None),
        comment_row(THREAD, "bad", None),
        comment_row(THREAD, "00000000-0000-0000-0000-00000000000c", None),
    ];
    let files = build_index(&rows, &comments);
    assert_eq!(files.len(), 2);
    let ids: Vec<u128> = files[0].threads[0].nodes.iter().map(|n| n.id.0).collect();
    assert_eq!(ids, vec![10, 12]);
    assert!(files[1].threads[0].nodes.is_empty());
}
