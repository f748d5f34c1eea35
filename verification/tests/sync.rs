use code_comments::comment::{
    CommentAnchor, CommentAuthor, CommentKind, CommentNode, CommentStatus, NodeStamp, RelPath,
};
use code_comments::comment_store::{CommentStore, CommentStoreEvent, WorkspaceId};
use code_comments::comment_sync::{
    advance, begin_sync, configured_unit, local_only_comments, merge_remote_comments, merge_with,
    new_roots, remote_node, remote_thread, CommentSyncRegistry, FetchedComment, FreshThread,
    QueuedComment, RemoteComment, ReviewUnit, SyncReply, SyncStep,
};
use code_comments::ids::{CommentId, ThreadId};
use code_comments::thread::CommentThread;

fn fetched(id: &str, parent: Option<&str>, path: &str, row: u32, body: &str) -> FetchedComment {
    FetchedComment {
        comment: RemoteComment {
            remote_id: id.to_string(),
            parent_remote_id: parent.map(|p| p.to_string()),
            path: path.to_string(),
            row,
            body: body.to_string(),
            author_login: format!("author of {id}"),
        },
        file: Some(RelPath(path.to_string())),
    }
}

fn stamp(id: u128) -> NodeStamp {
    NodeStamp { id: CommentId(id), created_at: id as i64 }
}

fn local(id: u128, file: &str, bodies: &[&str]) -> CommentThread {
    CommentThread {
        id: ThreadId(id),
        change_id: None,
        file: RelPath(file.to_string()),
        anchor: CommentAnchor { start_row: 4, ..CommentAnchor::default() },
        kind: CommentKind::Comment,
        status: CommentStatus::Open,
        nodes: bodies
            .iter()
            .enumerate()
            .map(|(i, body)| {
                CommentNode::with_stamp(
                    CommentAuthor::User,
                    body.to_string(),
                    None,
                    CommentKind::Comment,
                    stamp(id * 10 + i as u128),
                )
            })
            .collect(),
        collapsed: false,
    }
}

#[test]
fn the_configured_unit() {
    assert_eq!(configured_unit(None), None);
    assert_eq!(configured_unit(Some(String::new())), None);
    assert_eq!(configured_unit(Some("auto".to_string())), None);
    assert_eq!(configured_unit(Some("17".to_string())), Some("17".to_string()));
    assert_eq!(configured_unit(Some("Auto".to_string())), Some("Auto".to_string()));
}

#[test]
fn the_registry_keeps_the_last_provider_of_a_name() {
    let mut registry: CommentSyncRegistry<u32> = CommentSyncRegistry::new();
    assert_eq!(registry.get("github"), None);
    registry.register("github".to_string(), 1);
    registry.register("custom".to_string(), 2);
    registry.register("github".to_string(), 3);
    assert_eq!(registry.get("github"), Some(&3));
    assert_eq!(registry.get("custom"), Some(&2));
    assert_eq!(registry.get("gitlab"), None);
}

#[test]
fn a_remote_comment_becomes_a_node() {
    let f = fetched("42", None, "a", 3, "hello");
    let n = remote_node(&f.comment, Some(CommentId(9)), stamp(5));
    assert_eq!(n.id, CommentId(5));
    assert_eq!(n.parent_id, Some(CommentId(9)));
    assert_eq!(n.author, CommentAuthor::Remote { login: "author of 42".to_string() });
    assert_eq!(n.body, "hello");
    assert_eq!(n.remote_id, Some(42));
    assert_eq!(n.created_at, 5);
    let odd = fetched("x42", None, "a", 3, "hello");
    assert_eq!(remote_node(&odd.comment, None, stamp(5)).remote_id, None);
}

#[test]
fn a_remote_root_becomes_a_thread_with_its_replies() {
    let remote = vec![
        fetched("2", Some("1"), "a", 7, "early reply"),
        fetched("1", None, "a", 3, "root"),
        fetched("3", Some("2"), "a", 7, "reply to a reply"),
        fetched("4", Some("1"), "a", 7, "late reply"),
    ];
    let fresh = FreshThread { id: ThreadId(8), root: stamp(80), replies: vec![stamp(81), stamp(82)] };
    let t = remote_thread(&remote, 1, RelPath("a".to_string()), &fresh);
    assert_eq!(t.id, ThreadId(8));
    assert_eq!((t.anchor.start_row, t.anchor.end_row, t.anchor.start_column), (3, 3, 0));
    assert_eq!(t.anchor.fingerprint, "");
    assert_eq!(t.kind, CommentKind::Comment);
    assert_eq!(t.status, CommentStatus::Open);
    let bodies: Vec<&str> = t.nodes.iter().map(|n| n.body.as_str()).collect();
    assert_eq!(bodies, vec!["root", "early reply", "late reply"]);
    assert_eq!(t.nodes[0].parent_id, None);
    assert_eq!(t.nodes[1].parent_id, Some(CommentId(80)));
    assert_eq!(t.nodes[2].id, CommentId(82));
}

#[test]
fn only_unknown_roots_with_a_number_and_a_file_are_new() {
    let mut store = CommentStore::new(WorkspaceId(1));
    let mut known = local(1, "a", &["mine"]);
    known.nodes[0].remote_id = Some(5);
    store.upsert_thread(known);
    let mut lost = fetched("9", None, "bad", 0, "no file");
    lost.file = None;
    let remote = vec![
        fetched("5", None, "a", 0, "known"),
        fetched("6", Some("5"), "a", 0, "a reply"),
        fetched("seven", None, "a", 0, "no number"),
        lost,
        fetched("10", None, "b", 0, "new"),
        fetched("+5", None, "b", 0, "known too"),
        fetched("10", None, "b", 0, "new twice"),
    ];
    assert_eq!(new_roots(&store, &remote), vec![4, 6]);
}

#[test]
fn merging_inserts_threads_and_returns_what_is_local() {
    let mut store = CommentStore::new(WorkspaceId(1));
    let mut mine = local(1, "a", &["one", "two", "three"]);
    mine.nodes[1].author = CommentAuthor::Agent;
    mine.nodes[2].remote_id = Some(77);
    store.upsert_thread(mine);
    let remote = vec![fetched("10", None, "b", 6, "new")];
    let fresh = vec![FreshThread { id: ThreadId(8), root: stamp(80), replies: Vec::new() }];
    let merged = merge_with(&mut store, &remote, &fresh, &vec![stamp(90)]);
    assert_eq!(merged.events, vec![CommentStoreEvent::Changed]);
    let outgoing = merged.outgoing;
    assert_eq!(outgoing.len(), 1);
    assert_eq!((outgoing[0].thread_id, outgoing[0].comment_id), (ThreadId(1), CommentId(10)));
    assert_eq!(outgoing[0].comment.body, "one");
    assert_eq!(outgoing[0].comment.path, "a");
    assert_eq!(outgoing[0].comment.row, 4);
    assert_eq!(outgoing[0].comment.parent_remote_id, None);
    assert_eq!(store.thread(ThreadId(8)).unwrap().nodes[0].body, "new");
    assert_eq!(store.thread(ThreadId(1)).unwrap().nodes.len(), 3);
}

#[test]
fn merging_twice_adds_nothing_the_second_time() {
    let mut store = CommentStore::new(WorkspaceId(1));
    let remote = vec![
        fetched("10", None, "b", 6, "new"),
        fetched("11", Some("10"), "b", 6, "reply"),
        fetched("12", None, "c", 1, "other"),
    ];
    let merged = merge_remote_comments(&mut store, &remote);
    assert!(merged.outgoing.is_empty());
    assert_eq!(merged.events, vec![CommentStoreEvent::Changed; 2]);
    assert_eq!(store.all_threads().len(), 2);
    assert_eq!(store.threads_for_file(&RelPath("b".to_string()))[0].nodes.len(), 2);
    assert!(new_roots(&store, &remote).is_empty());
    assert!(merge_remote_comments(&mut store, &remote).events.is_empty());
    assert_eq!(store.all_threads().len(), 2);
}

#[test]
fn a_fetched_reply_joins_the_thread_of_its_known_root() {
    let mut store = CommentStore::new(WorkspaceId(1));
    let mut known = local(1, "a", &["mine"]);
    known.nodes[0].remote_id = Some(1);
    store.upsert_thread(known);
    let remote = vec![fetched("1", None, "a", 4, "mine"), fetched("2", Some("1"), "a", 4, "theirs")];
    let merged = merge_with(&mut store, &remote, &Vec::new(), &vec![stamp(90), stamp(91)]);
    assert_eq!(merged.events, vec![CommentStoreEvent::Changed]);
    assert!(merged.outgoing.is_empty());
    assert_eq!(store.all_threads().len(), 1);
    let t = store.thread(ThreadId(1)).unwrap();
    assert_eq!(t.nodes.len(), 2);
    assert_eq!(t.nodes[1].id, CommentId(91));
    assert_eq!(t.nodes[1].remote_id, Some(2));
    assert_eq!(t.nodes[1].author, CommentAuthor::Remote { login: "author of 2".to_string() });
    assert_eq!(t.nodes[1].parent_id, Some(t.nodes[0].id));
    assert_eq!(t.nodes[1].body, "theirs");
    let again = merge_with(&mut store, &remote, &Vec::new(), &vec![stamp(92), stamp(93)]);
    assert!(again.events.is_empty());
    assert_eq!(store.thread(ThreadId(1)).unwrap().nodes.len(), 2);
}

#[test]
fn replies_to_replies_arrive_in_any_order() {
    let mut store = CommentStore::new(WorkspaceId(1));
    let remote = vec![
        fetched("4", Some("3"), "a", 7, "deepest"),
        fetched("3", Some("2"), "a", 7, "deeper"),
        fetched("2", Some("1"), "a", 7, "deep"),
        fetched("1", None, "a", 3, "root"),
        fetched("6", Some("5"), "a", 3, "to nothing"),
        fetched("seven", Some("1"), "a", 3, "no number"),
        fetched("8", Some("eight"), "a", 3, "to no number"),
    ];
    let fresh = vec![FreshThread {
        id: ThreadId(8),
        root: stamp(80),
        replies: vec![stamp(81), stamp(82)],
    }];
    let late: Vec<NodeStamp> = (0..7).map(|i| stamp(90 + i)).collect();
    let merged = merge_with(&mut store, &remote, &fresh, &late);
    assert_eq!(merged.events, vec![CommentStoreEvent::Changed; 3]);
    let t = store.thread(ThreadId(8)).unwrap();
    let shown: Vec<(&str, u128, Option<u128>)> = t
        .nodes
        .iter()
        .map(|n| (n.body.as_str(), n.id.0, n.parent_id.map(|p| p.0)))
        .collect();
    assert_eq!(
        shown,
        vec![
            ("root", 80, None),
            ("deep", 81, Some(80)),
            ("no number", 82, Some(80)),
            ("deeper", 91, Some(81)),
            ("deepest", 90, Some(91)),
        ]
    );
    assert_eq!(store.all_threads().len(), 1);
    let late: Vec<NodeStamp> = (0..7).map(|i| stamp(190 + i)).collect();
    assert!(merge_with(&mut store, &remote, &Vec::new(), &late).events.is_empty());
    assert_eq!(store.thread(ThreadId(8)).unwrap().nodes.len(), 5);
}

fn queue_of(step: &SyncStep) -> &Vec<QueuedComment> {
    match step {
        SyncStep::Push { queue, .. } => queue,
        _ => panic!("not pushing"),
    }
}

#[test]
fn what_was_pushed_is_not_pushed_again() {
    let mut store = CommentStore::new(WorkspaceId(1));
    store.upsert_thread(local(1, "a", &["one", "two"]));
    store.upsert_thread(local(2, "b", &["three"]));
    let fetch = || SyncStep::Fetch { unit: ReviewUnit { id: "17".to_string() } };
    let (step, events) = advance(fetch(), SyncReply::Fetched(Vec::new()), &mut store);
    assert!(events.is_empty());
    assert_eq!(queue_of(&step).len(), 3);
    let (step, events) = advance(step, SyncReply::Pushed("101".to_string()), &mut store);
    assert_eq!(events, vec![CommentStoreEvent::Changed]);
    assert_eq!(store.thread(ThreadId(1)).unwrap().nodes[0].remote_id, Some(101));
    assert_eq!(store.thread(ThreadId(1)).unwrap().nodes[1].remote_id, None);
    let (step, events) = advance(step, SyncReply::Pushed("note-7".to_string()), &mut store);
    assert!(events.is_empty());
    let (step, _) = advance(step, SyncReply::Pushed("103".to_string()), &mut store);
    assert!(matches!(step, SyncStep::Done));
    let back = vec![
        fetched("101", None, "a", 4, "one"),
        fetched("103", None, "b", 4, "three"),
        fetched("104", Some("103"), "b", 4, "an answer"),
    ];
    let (step, events) = advance(fetch(), SyncReply::Fetched(back), &mut store);
    assert_eq!(events, vec![CommentStoreEvent::Changed]);
    assert_eq!(store.all_threads().len(), 2);
    assert_eq!(store.thread(ThreadId(2)).unwrap().nodes[1].body, "an answer");
    assert_eq!(queue_of(&step).len(), 1);
    assert_eq!(queue_of(&step)[0].comment.body, "two");
    let (step, _) = advance(step, SyncReply::Pushed("102".to_string()), &mut store);
    assert!(matches!(step, SyncStep::Done));
    let (step, events) = advance(fetch(), SyncReply::Fetched(Vec::new()), &mut store);
    assert!(matches!(step, SyncStep::Done) && events.is_empty());
}

#[test]
fn a_node_that_has_gone_gets_no_number() {
    let mut store = CommentStore::new(WorkspaceId(1));
    store.upsert_thread(local(1, "a", &["one"]));
    let fetch = SyncStep::Fetch { unit: ReviewUnit { id: "17".to_string() } };
    let (step, _) = advance(fetch, SyncReply::Fetched(Vec::new()), &mut store);
    store.remove_thread(ThreadId(1));
    let (step, events) = advance(step, SyncReply::Pushed("101".to_string()), &mut store);
    assert!(matches!(step, SyncStep::Done) && events.is_empty());
    assert!(store.all_threads().is_empty());
}

#[test]
fn a_sync_detects_fetches_and_pushes() {
    let mut store = CommentStore::new(WorkspaceId(1));
    store.upsert_thread(local(1, "a", &["one", "two"]));
    let step = begin_sync(Some("auto".to_string()));
    assert!(matches!(&step, SyncStep::Detect { configured: None }));
    let unit = ReviewUnit { id: "17".to_string() };
    let (step, _) = advance(step, SyncReply::Detected(Some(unit)), &mut store);
    match &step {
        SyncStep::Fetch { unit } => assert_eq!(unit.id, "17"),
        _ => panic!("not fetching"),
    }
    let (step, events) = advance(
        step,
        SyncReply::Fetched(vec![fetched("10", None, "b", 6, "new")]),
        &mut store,
    );
    assert_eq!(events, vec![CommentStoreEvent::Changed]);
    assert_eq!(store.all_threads().len(), 2);
    match &step {
        SyncStep::Push { unit, queue, next } => {
            assert_eq!((unit.id.as_str(), queue.len(), *next), ("17", 2, 0));
            assert_eq!(queue[0].comment.body, "one");
        }
        _ => panic!("not pushing"),
    }
    let (step, _) = advance(step, SyncReply::Failed, &mut store);
    match &step {
        SyncStep::Push { queue, next, .. } => assert_eq!(queue[*next].comment.body, "two"),
        _ => panic!("a failed push is skipped"),
    }
    let (step, events) = advance(step, SyncReply::Pushed("11".to_string()), &mut store);
    assert!(matches!(step, SyncStep::Done));
    assert_eq!(events, vec![CommentStoreEvent::Changed]);
    assert_eq!(store.thread(ThreadId(1)).unwrap().nodes[1].remote_id, Some(11));
}

#[test]
fn a_sync_ends_early() {
    let mut store = CommentStore::new(WorkspaceId(1));
    let mut next = |step: SyncStep, reply: SyncReply| {
        let (step, events) = advance(step, reply, &mut store);
        assert!(events.is_empty());
        step
    };
    let detect = || begin_sync(Some("17".to_string()));
    assert!(matches!(&detect(), SyncStep::Detect { configured: Some(u) } if u == "17"));
    assert!(matches!(next(detect(), SyncReply::Detected(None)), SyncStep::Done));
    assert!(matches!(next(detect(), SyncReply::Failed), SyncStep::Failed));
    let fetch = || SyncStep::Fetch { unit: ReviewUnit { id: "17".to_string() } };
    assert!(matches!(next(fetch(), SyncReply::Failed), SyncStep::Failed));
    assert!(matches!(next(fetch(), SyncReply::Fetched(Vec::new())), SyncStep::Done));
    let pushed = || SyncReply::Pushed("1".to_string());
    assert!(matches!(next(detect(), pushed()), SyncStep::Detect { .. }));
    assert!(matches!(next(SyncStep::Done, pushed()), SyncStep::Done));
}

#[test]
fn random_identities_differ() {
    let a = FreshThread::random(2);
    let b = FreshThread::random(0);
    assert_eq!(a.replies.len(), 2);
    assert_eq!(b.replies.len(), 0);
    assert_ne!(a.id, b.id);
    assert_ne!(a.root.id, a.replies[0].id);
    assert_ne!(a.replies[0].id, a.replies[1].id);
}

#[test]
fn local_comments_of_every_thread_are_outgoing() {
    let mut store = CommentStore::new(WorkspaceId(1));
    assert!(local_only_comments(&store).is_empty());
    store.upsert_thread(local(1, "a", &["one"]));
    store.upsert_thread(local(2, "b", &["two", "three"]));
    let queued = local_only_comments(&store);
    assert_eq!((queued[2].thread_id, queued[2].comment_id), (ThreadId(2), CommentId(21)));
    let bodies: Vec<String> = local_only_comments(&store).into_iter().map(|c| c.comment.body).collect();
    assert_eq!(bodies, vec!["one", "two", "three"]);
}
