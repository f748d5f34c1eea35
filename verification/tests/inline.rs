use code_comments::comment::{
    ChangeId, CommentAnchor, CommentAuthor, CommentKind, CommentNode, CommentStatus, RelPath,
};
use code_comments::comment_store::{CommentStore, WorkspaceId};
use code_comments::ids::ThreadId;
use code_comments::inline_comments::{
    block_height, build_thread, build_thread_with, can_place_thread, line_text, placements, reconcile, resolve_row,
    rows_text, visible_threads, BufferText, DesiredBlock, ThreadBlock, WINDOW,
};
use code_comments::thread::CommentThread;

fn lines(text: &str) -> Vec<String> {
    text.split('\n').map(|l| l.to_string()).collect()
}

fn anchor(row: u32, fingerprint: &str) -> CommentAnchor {
    CommentAnchor {
        start_row: row,
        start_column: 0,
        end_row: row,
        end_column: 0,
        fingerprint: fingerprint.to_string(),
    }
}

fn thread(id: u128, file: &str, change: Option<&str>, row: u32, fingerprint: &str) -> CommentThread {
    CommentThread {
        id: ThreadId(id),
        change_id: change.map(|c| ChangeId(c.to_string())),
        file: RelPath(file.to_string()),
        anchor: anchor(row, fingerprint),
        kind: CommentKind::Comment,
        status: CommentStatus::Open,
        nodes: Vec::new(),
        collapsed: false,
    }
}

#[test]
fn line_text_is_trimmed() {
    assert_eq!(line_text(&lines("a\n  b \t\nc"), 1), "b");
}

#[test]
fn an_unmoved_line_stays() {
    let text = lines("x\n  foo\nfoo");
    assert_eq!(resolve_row(&text, &anchor(1, "foo")), (1, true));
}

#[test]
fn an_empty_fingerprint_always_holds() {
    let text = lines("x\ny");
    assert_eq!(resolve_row(&text, &anchor(0, "")), (0, true));
    assert_eq!(resolve_row(&text, &anchor(u32::MAX, "")), (1, true));
}

#[test]
fn a_moved_line_is_found_in_the_window() {
    let mut text = lines("foo\nx\ny\nfoo\nz");
    assert_eq!(resolve_row(&text, &anchor(2, "foo")), (0, true));
    assert_eq!(resolve_row(&text, &anchor(2, "z")), (4, true));
    assert_eq!(resolve_row(&text, &anchor(2, "gone")), (2, false));
    assert_eq!(resolve_row(&text, &anchor(50, "gone")), (4, false));
    assert_eq!(resolve_row(&text, &anchor(50, "x")), (1, true));
    text = vec!["-".to_string(); 400];
    text[100] = "here".to_string();
    assert_eq!(resolve_row(&text, &anchor(100 + WINDOW, "here")), (100, true));
    assert_eq!(resolve_row(&text, &anchor(101 + WINDOW, "here")), (101 + WINDOW, false));
    assert_eq!(resolve_row(&text, &anchor(100 - WINDOW, "here")), (100, true));
    assert_eq!(resolve_row(&text, &anchor(99 - WINDOW, "here")), (99 - WINDOW, false));
}

#[test]
fn a_shortened_buffer_outside_the_window() {
    let text = lines("foo");
    assert_eq!(resolve_row(&text, &anchor(200, "bar")), (0, false));
    assert_eq!(resolve_row(&text, &anchor(200, "foo")), (0, true));
}

#[test]
fn heights() {
    let mut t = thread(1, "a", None, 0, "");
    assert_eq!(block_height(&t), 16);
    for _ in 0..3 {
        t.nodes.push(CommentNode::new(
            CommentAuthor::User,
            "x".to_string(),
            None,
            CommentKind::Comment,
        ));
    }
    assert_eq!(block_height(&t), 30);
    t.collapsed = true;
    assert_eq!(block_height(&t), 4);
}

#[test]
fn threads_are_scoped_to_the_active_change() {
    let mut store = CommentStore::new(WorkspaceId(1));
    store.upsert_thread(thread(1, "a", None, 0, ""));
    store.upsert_thread(thread(2, "a", Some("pr-1"), 0, ""));
    store.upsert_thread(thread(3, "a", Some("pr-2"), 0, ""));
    store.upsert_thread(thread(4, "b", Some("pr-1"), 0, ""));
    let ids = |change: Option<&str>| -> Vec<u128> {
        visible_threads(
            &store,
            &RelPath("a".to_string()),
            &change.map(|c| ChangeId(c.to_string())),
        )
        .iter()
        .map(|t| t.id.0)
        .collect()
    };
    assert_eq!(ids(None), vec![1]);
    assert_eq!(ids(Some("pr-1")), vec![2]);
    assert_eq!(ids(Some("pr-9")), Vec::<u128>::new());
}

#[test]
fn a_new_thread_is_anchored_and_visible_in_its_change() {
    let text = lines("a\n  let x;\nb");
    let change = Some(ChangeId("pr-1".to_string()));
    let t = build_thread_with(
        ThreadId(5),
        change.clone(),
        RelPath("a".to_string()),
        &text,
        1,
        6,
        1,
        8,
    );
    assert_eq!(t.anchor.fingerprint, "let x;");
    assert_eq!((t.anchor.start_row, t.anchor.start_column), (1, 6));
    assert_eq!((t.anchor.end_row, t.anchor.end_column), (1, 8));
    assert_eq!(t.status, CommentStatus::Open);
    assert!(t.nodes.is_empty() && !t.collapsed);
    assert_eq!(resolve_row(&text, &t.anchor), (1, true));
    let mut store = CommentStore::new(WorkspaceId(1));
    store.upsert_thread(t);
    let file = RelPath("a".to_string());
    assert_eq!(visible_threads(&store, &file, &change).len(), 1);
    assert!(visible_threads(&store, &file, &None).is_empty());
    let other = build_thread(None, file, &text, 0, 0, 2, 1);
    assert_eq!(other.anchor.fingerprint, "a\n  let x;\nb");
    assert_ne!(other.id, ThreadId(5));
    assert!(other.change_id.is_none());
}

#[test]
fn a_range_of_lines_is_found_as_a_whole() {
    let text = lines("x\n  foo\n  bar\ny");
    let t = build_thread_with(ThreadId(5), None, RelPath("a".to_string()), &text, 1, 2, 2, 5);
    assert_eq!(t.anchor.fingerprint, "foo\n  bar");
    assert_eq!(resolve_row(&text, &t.anchor), (1, true));
    let moved = lines("foo\nx\ny\n\tfoo\n  bar\nz");
    assert_eq!(resolve_row(&moved, &t.anchor), (3, true));
    let changed = lines("x\n  foo\n  baz\ny");
    assert_eq!(resolve_row(&changed, &t.anchor), (1, false));
    let cut = lines("x\nfoo");
    assert_eq!(resolve_row(&cut, &t.anchor), (1, false));
    assert_eq!(rows_text(&text, 2, 9), "bar\ny");
    assert_eq!(rows_text(&text, 3, u32::MAX), "y");
}

#[test]
fn placements_go_buffer_by_buffer() {
    let mut store = CommentStore::new(WorkspaceId(1));
    store.upsert_thread(thread(1, "a", None, 0, "two"));
    store.upsert_thread(thread(2, "b", None, 1, "gone"));
    store.upsert_thread(thread(3, "a", None, 7, ""));
    let buffers = vec![
        BufferText { file: Some(RelPath("b".to_string())), lines: lines("x\ny") },
        BufferText { file: None, lines: Vec::new() },
        BufferText { file: Some(RelPath("a".to_string())), lines: lines("one\ntwo") },
    ];
    let found: Vec<(usize, u128, u32, bool, u32)> = placements(&store, &None, &buffers)
        .iter()
        .map(|p| (p.buffer, p.thread_id.0, p.row, p.anchored, p.height))
        .collect();
    assert_eq!(found, vec![(0, 2, 1, false, 16), (2, 1, 1, true, 16), (2, 3, 1, true, 16)]);
}

#[test]
fn reconciling_removes_resizes_and_inserts() {
    let block = |id: u128, height: u32| ThreadBlock {
        thread_id: ThreadId(id),
        height,
        handle: format!("block {id}"),
    };
    let want = |id: u128, height: u32, anchored: bool| DesiredBlock {
        thread_id: ThreadId(id),
        anchored,
        height,
    };
    let desired = vec![
        want(4, 16, true),
        want(2, 20, false),
        want(3, 16, true),
        want(4, 30, false),
    ];
    let plan = reconcile(vec![block(1, 16), block(2, 16), block(3, 16)], &desired);
    assert_eq!(plan.removed, vec!["block 1".to_string()]);
    let kept: Vec<(u128, u32, &str)> =
        plan.kept.iter().map(|b| (b.thread_id.0, b.height, b.handle.as_str())).collect();
    assert_eq!(kept, vec![(2, 20, "block 2"), (3, 16, "block 3")]);
    assert_eq!(plan.anchored, vec![false, true]);
    assert_eq!(plan.resized, vec![0]);
    assert_eq!(plan.inserted, vec![3]);
}

#[test]
fn reconciling_what_is_already_there_does_nothing() {
    let desired =
        vec![DesiredBlock { thread_id: ThreadId(1), anchored: true, height: 16 }];
    let plan = reconcile(
        vec![ThreadBlock { thread_id: ThreadId(1), height: 16, handle: () }],
        &desired,
    );
    assert_eq!(plan.kept.len(), 1);
    assert!(plan.removed.is_empty() && plan.resized.is_empty() && plan.inserted.is_empty());
    let plan = reconcile(plan.kept, &Vec::new());
    assert_eq!(plan.removed.len(), 1);
}

#[test]
fn a_second_reconciliation_finds_nothing_to_do() {
    let block = |id: u128, height: u32| ThreadBlock { thread_id: ThreadId(id), height, handle: id };
    let want = |id: u128, height: u32| DesiredBlock {
        thread_id: ThreadId(id),
        anchored: true,
        height,
    };
    let desired = vec![want(4, 16), want(2, 20), want(4, 30)];
    let plan = reconcile(vec![block(1, 16), block(2, 16)], &desired);
    let mut shown = plan.kept;
    for i in plan.inserted {
        shown.push(block(desired[i].thread_id.0, desired[i].height));
    }
    let again = reconcile(shown, &desired);
    let kept: Vec<(u128, u32)> = again.kept.iter().map(|b| (b.thread_id.0, b.height)).collect();
    assert_eq!(kept, vec![(2, 20), (4, 30)]);
    assert!(again.removed.is_empty() && again.resized.is_empty() && again.inserted.is_empty());
}

#[test]
fn what_can_be_placed() {
    let text = lines("foo");
    let mut t = thread(1, "a", None, u32::MAX, "");
    assert!(can_place_thread(&text, &t));
    assert!(!can_place_thread(&Vec::new(), &t));
    t.anchor.fingerprint = "foo".to_string();
    assert!(can_place_thread(&text, &t));
    assert_eq!(resolve_row(&text, &t.anchor), (0, true));
    t.anchor.fingerprint = "bar".to_string();
    assert!(can_place_thread(&text, &t));
    assert_eq!(resolve_row(&text, &t.anchor), (0, false));
    t.anchor.start_row = u32::MAX - WINDOW;
    assert!(can_place_thread(&text, &t));
    assert_eq!(resolve_row(&text, &t.anchor), (0, false));
}
