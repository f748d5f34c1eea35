use code_comments::clock::{now_timestamp, timestamp_from_seconds};
use code_comments::comment::{
    CommentAnchor, CommentAuthor, CommentKind, CommentNode, CommentStatus, NodeStamp, RelPath,
};
use code_comments::comment_store::{CommentStore, CommentStoreEvent, WorkspaceId};
use code_comments::ids::{CommentId, ThreadId};
use code_comments::thread::CommentThread;
use code_comments::tree::count_descendants;

fn path(p: &str) -> RelPath {
    RelPath(p.to_string())
}

fn thread(id: u128, file: &str) -> CommentThread {
    CommentThread {
        id: ThreadId(id),
        change_id: None,
        file: path(file),
        anchor: CommentAnchor::default(),
        kind: CommentKind::Comment,
        status: CommentStatus::Open,
        nodes: Vec::new(),
        collapsed: false,
    }
}

fn node(id: u128, parent: Option<u128>, date: i64) -> CommentNode {
    CommentNode::with_stamp(
        CommentAuthor::User,
        format!("body {}", id),
        parent.map(CommentId),
        CommentKind::Comment,
        NodeStamp { id: CommentId(id), created_at: date },
    )
}

fn ids(store: &CommentStore, file: &str) -> Vec<u128> {
    store.threads_for_file(&path(file)).iter().map(|t| t.id.0).collect()
}

#[test]
fn a_new_store_is_empty() {
    let store = CommentStore::new(WorkspaceId(7));
    assert_eq!(store.workspace_id(), WorkspaceId(7));
    assert!(store.all_threads().is_empty());
    assert!(store.thread(ThreadId(1)).is_none());
    assert!(store.threads_for_file(&path("a")).is_empty());
}

#[test]
fn upsert_inserts_last_and_replaces_in_place() {
    let mut store = CommentStore::new(WorkspaceId(1));
    assert_eq!(store.upsert_thread(thread(1, "a")), CommentStoreEvent::Changed);
    store.upsert_thread(thread(2, "a"));
    store.upsert_thread(thread(3, "b"));
    let mut again = thread(1, "a");
    again.collapsed = true;
    store.upsert_thread(again);
    assert_eq!(ids(&store, "a"), vec![1, 2]);
    assert_eq!(ids(&store, "b"), vec![3]);
    assert!(store.thread(ThreadId(1)).unwrap().collapsed);
    assert!(!store.thread(ThreadId(2)).unwrap().collapsed);
}

#[test]
fn upsert_moves_a_thread_that_changed_its_file() {
    let mut store = CommentStore::new(WorkspaceId(1));
    store.upsert_thread(thread(1, "a"));
    store.upsert_thread(thread(2, "a"));
    store.upsert_thread(thread(1, "b"));
    assert_eq!(ids(&store, "a"), vec![2]);
    assert_eq!(ids(&store, "b"), vec![1]);
    assert_eq!(store.all_threads().len(), 2);
    store.upsert_thread(thread(2, "b"));
    assert!(ids(&store, "a").is_empty());
    assert_eq!(ids(&store, "b"), vec![1, 2]);
}

#[test]
fn remove_takes_one_thread_and_leaves_the_others() {
    let mut store = CommentStore::new(WorkspaceId(1));
    store.upsert_thread(thread(1, "a"));
    store.upsert_thread(thread(2, "a"));
    assert_eq!(store.remove_thread(ThreadId(9)), None);
    assert_eq!(store.remove_thread(ThreadId(1)), Some(CommentStoreEvent::Changed));
    assert!(store.thread(ThreadId(1)).is_none());
    assert_eq!(ids(&store, "a"), vec![2]);
    assert_eq!(store.remove_thread(ThreadId(1)), None);
}

#[test]
fn changes_touch_one_field_of_one_thread() {
    let mut store = CommentStore::new(WorkspaceId(1));
    store.upsert_thread(thread(1, "a"));
    store.upsert_thread(thread(2, "a"));
    let changed = Some(CommentStoreEvent::Changed);
    assert_eq!(store.add_node(ThreadId(1), node(10, None, 5)), changed);
    assert_eq!(store.set_thread_status(ThreadId(1), CommentStatus::Resolved), changed);
    assert_eq!(store.set_thread_kind(ThreadId(1), CommentKind::Task), changed);
    assert_eq!(store.set_thread_collapsed(ThreadId(1), true), changed);
    assert_eq!(store.update_node_body(ThreadId(1), CommentId(10), "new".to_string()), changed);
    assert_eq!(
        store.set_node_kind(ThreadId(1), CommentId(10), CommentKind::Question),
        changed
    );
    assert_eq!(store.set_node_remote_id(ThreadId(1), CommentId(10), 77), changed);
    let t = store.thread(ThreadId(1)).unwrap();
    assert_eq!(t.nodes[0].remote_id, Some(77));
    assert_eq!(t.status, CommentStatus::Resolved);
    assert_eq!(t.kind, CommentKind::Task);
    assert!(t.collapsed);
    assert_eq!(t.nodes[0].body, "new");
    assert_eq!(t.nodes[0].kind, CommentKind::Question);
    assert_eq!(t.nodes[0].created_at, 5);
    let other = store.thread(ThreadId(2)).unwrap();
    assert_eq!(other.status, CommentStatus::Open);
    assert!(other.nodes.is_empty());
}

#[test]
fn changes_to_what_is_not_there_do_nothing() {
    let mut store = CommentStore::new(WorkspaceId(1));
    store.upsert_thread(thread(1, "a"));
    assert_eq!(store.add_node(ThreadId(2), node(10, None, 5)), None);
    assert_eq!(store.set_thread_status(ThreadId(2), CommentStatus::Resolved), None);
    assert_eq!(store.set_thread_kind(ThreadId(2), CommentKind::Task), None);
    assert_eq!(store.set_thread_collapsed(ThreadId(2), true), None);
    assert_eq!(store.update_node_body(ThreadId(1), CommentId(10), "x".to_string()), None);
    assert_eq!(store.set_node_kind(ThreadId(1), CommentId(10), CommentKind::Task), None);
    assert_eq!(store.set_node_remote_id(ThreadId(1), CommentId(10), 77), None);
    assert_eq!(store.set_node_remote_id(ThreadId(2), CommentId(10), 77), None);
}

#[test]
fn root_is_the_first_node_without_a_parent() {
    let mut t = thread(1, "a");
    assert!(t.root().is_none());
    t.nodes.push(node(10, Some(3), 1));
    assert!(t.root().is_none());
    t.nodes.push(node(11, None, 2));
    t.nodes.push(node(12, None, 3));
    assert_eq!(t.root().unwrap().id, CommentId(11));
}

#[test]
fn children_come_oldest_first() {
    let mut t = thread(1, "a");
    t.nodes.push(node(1, None, 0));
    t.nodes.push(node(2, Some(1), 30));
    t.nodes.push(node(3, Some(1), 10));
    t.nodes.push(node(4, Some(2), 5));
    t.nodes.push(node(5, Some(1), 30));
    t.nodes.push(node(6, Some(1), 10));
    let kids: Vec<u128> = t.children(CommentId(1)).iter().map(|n| n.id.0).collect();
    assert_eq!(kids, vec![3, 6, 2, 5]);
    assert!(t.children(CommentId(6)).is_empty());
}

#[test]
fn children_keep_list_order_when_dates_do() {
    let mut t = thread(1, "a");
    t.nodes.push(node(1, None, 0));
    t.nodes.push(node(2, Some(1), 1));
    t.nodes.push(node(3, Some(1), 1));
    t.nodes.push(node(4, Some(1), 2));
    let kids: Vec<u128> = t.children(CommentId(1)).iter().map(|n| n.id.0).collect();
    assert_eq!(kids, vec![2, 3, 4]);
}

#[test]
fn descendants_are_counted_through_the_tree() {
    let mut t = thread(1, "a");
    t.nodes.push(node(1, None, 0));
    t.nodes.push(node(2, Some(1), 1));
    t.nodes.push(node(3, Some(2), 2));
    t.nodes.push(node(4, Some(1), 3));
    assert_eq!(count_descendants(&t, CommentId(1)), 3);
    assert_eq!(count_descendants(&t, CommentId(2)), 1);
    assert_eq!(count_descendants(&t, CommentId(4)), 0);
    let by_children: usize = t
        .children(CommentId(1))
        .iter()
        .map(|child| 1 + count_descendants(&t, child.id))
        .sum();
    assert_eq!(by_children, 3);
    assert_eq!(t.subtree_size(CommentId(1)), Some(3));
}

#[test]
fn a_cycle_of_replies_has_no_size() {
    let mut t = thread(1, "a");
    t.nodes.push(node(1, Some(2), 0));
    t.nodes.push(node(2, Some(1), 1));
    assert_eq!(t.subtree_size(CommentId(1)), None);
    assert_eq!(t.subtree_size(CommentId(9)), Some(0));
}

#[test]
fn persisted_numbers() {
    assert_eq!(CommentKind::Comment.to_db(), 0);
    assert_eq!(CommentKind::Question.to_db(), 1);
    assert_eq!(CommentKind::Task.to_db(), 2);
    assert_eq!(CommentKind::from_db(1), CommentKind::Question);
    assert_eq!(CommentKind::from_db(2), CommentKind::Task);
    assert_eq!(CommentKind::from_db(-5), CommentKind::Comment);
    assert_eq!(CommentStatus::Open.to_db(), 0);
    assert_eq!(CommentStatus::Resolved.to_db(), 1);
    assert_eq!(CommentStatus::from_db(1), CommentStatus::Resolved);
    assert_eq!(CommentStatus::from_db(2), CommentStatus::Open);
    assert_eq!(CommentAuthor::User.to_db(), (0, None));
    assert_eq!(CommentAuthor::Agent.to_db(), (1, None));
    let remote = CommentAuthor::Remote { login: "kim".to_string() };
    assert_eq!(remote.to_db(), (2, Some("kim".to_string())));
    assert_eq!(CommentAuthor::from_db(2, Some("kim".to_string())), remote);
    assert_eq!(
        CommentAuthor::from_db(2, None),
        CommentAuthor::Remote { login: String::new() }
    );
    assert_eq!(CommentAuthor::from_db(9, Some("x".to_string())), CommentAuthor::User);
    assert_eq!(CommentAuthor::from_db(1, Some("x".to_string())), CommentAuthor::Agent);
    assert_eq!(CommentKind::default(), CommentKind::Comment);
    assert_eq!(CommentStatus::default(), CommentStatus::Open);
}

#[test]
fn a_new_node_is_dated_now() {
    let before = now_timestamp();
    let n = CommentNode::new(
        CommentAuthor::Agent,
        "hi".to_string(),
        Some(CommentId(3)),
        CommentKind::Task,
    );
    let after = now_timestamp();
    assert!(before > 1_500_000_000);
    assert!(before <= n.created_at && n.created_at <= after);
    assert_eq!(n.body, "hi");
    assert_eq!(n.parent_id, Some(CommentId(3)));
    assert_eq!(n.kind, CommentKind::Task);
    assert_eq!(n.author, CommentAuthor::Agent);
    assert_eq!(n.remote_id, None);
}

#[test]
fn a_clock_before_the_epoch_reads_zero() {
    assert_eq!(timestamp_from_seconds(None), 0);
    assert_eq!(timestamp_from_seconds(Some(12)), 12);
    assert_eq!(timestamp_from_seconds(Some(u64::MAX)), -1);
}
