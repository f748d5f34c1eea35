use code_comments::comment::{
    CommentAnchor, CommentAuthor, CommentKind, CommentNode, CommentStatus, NodeStamp, RelPath,
};
use code_comments::comment_card::{
    evict_markdown, keep_markdown, markdown_outdated, CachedMarkdown,
    CardContent, CardFooter, Chevron, CommentCard, LabelColor, NodeCard, SubmitOutcome,
};
use code_comments::comment_store::{CommentStore, CommentStoreEvent, WorkspaceId};
use code_comments::ids::{CommentId, ThreadId};
use code_comments::thread::CommentThread;

fn node(id: u128, parent: Option<u128>, author: CommentAuthor, date: i64) -> CommentNode {
    CommentNode::with_stamp(
        author,
        format!("body {id}"),
        parent.map(CommentId),
        CommentKind::Comment,
        NodeStamp { id: CommentId(id), created_at: date },
    )
}

fn remote(login: &str) -> CommentAuthor {
    CommentAuthor::Remote { login: login.to_string() }
}

fn thread(nodes: Vec<CommentNode>) -> CommentThread {
    CommentThread {
        id: ThreadId(1),
        change_id: None,
        file: RelPath("a".to_string()),
        anchor: CommentAnchor::default(),
        kind: CommentKind::Comment,
        status: CommentStatus::Open,
        nodes,
        collapsed: false,
    }
}

fn family() -> CommentThread {
    thread(vec![
        node(1, None, CommentAuthor::User, 1),
        node(2, Some(1), CommentAuthor::Agent, 2),
        node(3, Some(2), remote("kim"), 3),
        node(4, Some(1), CommentAuthor::User, 4),
    ])
}

fn store_with(t: CommentThread) -> CommentStore {
    let mut store = CommentStore::new(WorkspaceId(1));
    store.upsert_thread(t);
    store
}

fn cards(card: &CommentCard, store: &CommentStore) -> Vec<NodeCard> {
    match card.render(store) {
        CardContent::Comments { cards, .. } => cards,
        _ => panic!("no comments shown"),
    }
}

fn ids(cards: &[NodeCard]) -> Vec<(u128, usize)> {
    cards.iter().map(|c| (c.node_id.0, c.depth)).collect()
}

#[test]
fn a_card_shows_the_tree_depth_first() {
    let store = store_with(family());
    let card = CommentCard::new(ThreadId(1), true);
    assert_eq!(card.thread_id(), ThreadId(1));
    let shown = cards(&card, &store);
    assert_eq!(ids(&shown), vec![(1, 0), (2, 1), (3, 2), (4, 1)]);
    let root = &shown[0];
    assert_eq!(root.author, "You");
    assert_eq!(root.chevron, Some(Chevron::Down));
    assert!(root.hidden_label.is_none());
    assert!(!root.resolved_badge && !root.outdated_badge);
    assert_eq!(root.root_actions.unwrap().collapse_label, "Collapse");
    assert_eq!(root.root_actions.unwrap().resolve_label, "Resolve");
    assert!(root.show_send_to_agent && !root.tinted);
    assert_eq!(root.body, "body 1");
    assert!(!root.kind_in_header);
    let agent = &shown[1];
    assert_eq!(agent.author, "Agent");
    assert!(!agent.show_send_to_agent && agent.tinted);
    assert!(agent.root_actions.is_none());
    assert_eq!(shown[2].author, "kim");
    assert_eq!(shown[2].chevron, None);
}

#[test]
fn collapsing_a_subtree_hides_what_is_below() {
    let store = store_with(family());
    let mut card = CommentCard::new(ThreadId(1), true);
    card.toggle_subtree_collapsed(CommentId(2));
    let shown = cards(&card, &store);
    assert_eq!(ids(&shown), vec![(1, 0), (2, 1), (4, 1)]);
    assert_eq!(shown[1].chevron, Some(Chevron::Right));
    assert_eq!(shown[1].hidden_label.as_deref(), Some("1 reply hidden"));
    card.toggle_subtree_collapsed(CommentId(1));
    let shown = cards(&card, &store);
    assert_eq!(ids(&shown), vec![(1, 0)]);
    assert_eq!(shown[0].hidden_label.as_deref(), Some("3 replies hidden"));
    card.toggle_subtree_collapsed(CommentId(1));
    card.toggle_subtree_collapsed(CommentId(2));
    assert_eq!(cards(&card, &store).len(), 4);
}

#[test]
fn a_leaf_that_is_collapsed_hides_nothing() {
    let store = store_with(family());
    let mut card = CommentCard::new(ThreadId(1), true);
    card.toggle_subtree_collapsed(CommentId(4));
    let shown = cards(&card, &store);
    assert_eq!(shown.len(), 4);
    assert!(shown[3].hidden_label.is_none() && shown[3].chevron.is_none());
}

#[test]
fn badges_stand_on_the_root_card() {
    let mut t = family();
    t.status = CommentStatus::Resolved;
    let store = store_with(t);
    let mut card = CommentCard::new(ThreadId(1), true);
    assert!(card.set_anchored(false));
    assert!(!card.set_anchored(false));
    assert!(card.set_force_expanded(true));
    assert!(!card.set_force_expanded(true));
    let shown = cards(&card, &store);
    assert!(shown[0].resolved_badge && shown[0].outdated_badge);
    assert_eq!(shown[0].root_actions.unwrap().resolve_label, "Reopen");
    assert!(!shown[1].resolved_badge && !shown[1].outdated_badge);
}

#[test]
fn kinds_have_labels_and_colors() {
    assert_eq!(CommentCard::kind_label(CommentKind::Comment), "Comment");
    assert_eq!(CommentCard::kind_label(CommentKind::Question), "Question");
    assert_eq!(CommentCard::kind_label(CommentKind::Task), "Task");
    assert_eq!(CommentCard::kind_color(CommentKind::Comment), LabelColor::Muted);
    assert_eq!(CommentCard::kind_color(CommentKind::Question), LabelColor::Info);
    assert_eq!(CommentCard::kind_color(CommentKind::Task), LabelColor::Warning);
}

#[test]
fn cycling_a_kind_comes_round() {
    let mut store = store_with(family());
    let card = CommentCard::new(ThreadId(1), true);
    let mut seen = Vec::new();
    for _ in 0..3 {
        assert_eq!(
            card.cycle_node_kind(&mut store, CommentId(2)),
            Some(CommentStoreEvent::Changed)
        );
        seen.push(store.thread(ThreadId(1)).unwrap().nodes[1].kind);
    }
    assert_eq!(seen, vec![CommentKind::Question, CommentKind::Task, CommentKind::Comment]);
    assert_eq!(card.cycle_node_kind(&mut store, CommentId(99)), None);
    card.cycle_node_kind(&mut store, CommentId(2));
    let shown = cards(&card, &store);
    assert!(shown[1].kind_in_header);
    assert_eq!(shown[1].kind_label, "Question");
}

#[test]
fn toggles_come_round() {
    let mut store = store_with(family());
    let card = CommentCard::new(ThreadId(1), true);
    let changed = Some(CommentStoreEvent::Changed);
    assert_eq!(card.toggle_resolved(&mut store), changed);
    assert_eq!(store.thread(ThreadId(1)).unwrap().status, CommentStatus::Resolved);
    card.toggle_resolved(&mut store);
    assert_eq!(store.thread(ThreadId(1)).unwrap().status, CommentStatus::Open);
    assert_eq!(card.toggle_collapsed(&mut store), changed);
    assert!(store.thread(ThreadId(1)).unwrap().collapsed);
    card.toggle_collapsed(&mut store);
    assert!(!store.thread(ThreadId(1)).unwrap().collapsed);
    assert_eq!(card.delete_thread(&mut store), changed);
    assert_eq!(card.toggle_resolved(&mut store), None);
    assert_eq!(card.toggle_collapsed(&mut store), None);
    assert_eq!(card.delete_thread(&mut store), None);
    assert!(matches!(card.render(&store), CardContent::Nothing));
}

#[test]
fn replying_opens_and_closes_inputs() {
    let store = store_with(family());
    let mut card = CommentCard::new(ThreadId(1), true);
    assert!(matches!(
        card.render(&store),
        CardContent::Comments { footer: CardFooter::ReplyButton, .. }
    ));
    card.open_reply(CommentId(3));
    match card.render(&store) {
        CardContent::Comments { cards, footer: CardFooter::Nothing } => {
            let composer = cards[2].composer.unwrap();
            assert_eq!(composer.parent, Some(CommentId(3)));
            assert_eq!(composer.submit_label, "Reply");
            assert!(composer.show_cancel);
            assert!(cards[0].composer.is_none());
        }
        _ => panic!("no inline input"),
    }
    card.open_bottom_reply();
    match card.render(&store) {
        CardContent::Comments { footer: CardFooter::Input(composer), .. } => {
            assert_eq!(composer.parent, Some(CommentId(4)));
            assert!(composer.show_cancel);
        }
        _ => panic!("no bottom input"),
    }
    card.cancel_reply();
    assert!(matches!(
        card.render(&store),
        CardContent::Comments { footer: CardFooter::ReplyButton, .. }
    ));
}

#[test]
fn an_empty_thread_asks_for_its_first_comment() {
    let mut store = store_with(thread(Vec::new()));
    let mut card = CommentCard::new(ThreadId(1), true);
    match card.render(&store) {
        CardContent::FirstComment(composer) => {
            assert_eq!(composer.parent, None);
            assert_eq!(composer.submit_label, "Comment");
            assert!(!composer.show_cancel);
        }
        _ => panic!("no composer"),
    }
    store.set_thread_collapsed(ThreadId(1), true);
    assert!(matches!(card.render(&store), CardContent::FirstComment(_)));
    store.set_thread_collapsed(ThreadId(1), false);
    let outcome = card.submit(&mut store, "  first  ", None);
    assert_eq!(outcome, SubmitOutcome::Submitted(Some(CommentStoreEvent::Changed)));
    let root = store.thread(ThreadId(1)).unwrap().root().unwrap();
    assert_eq!(root.body, "first");
    assert_eq!(root.author, CommentAuthor::User);
}

#[test]
fn submitting_adds_a_comment_and_closes_the_input() {
    let mut store = store_with(family());
    let mut card = CommentCard::new(ThreadId(1), true);
    card.open_reply(CommentId(2));
    let stamp = NodeStamp { id: CommentId(50), created_at: 9 };
    assert_eq!(
        card.submit_with(&mut store, " \n ", Some(CommentId(2)), stamp),
        SubmitOutcome::Ignored
    );
    assert!(cards(&card, &store)[1].composer.is_some());
    assert_eq!(
        card.submit_with(&mut store, " hi ", Some(CommentId(2)), stamp),
        SubmitOutcome::Submitted(Some(CommentStoreEvent::Changed))
    );
    let t = store.thread(ThreadId(1)).unwrap();
    let last = t.nodes.last().unwrap();
    assert_eq!((last.id, last.parent_id), (CommentId(50), Some(CommentId(2))));
    assert_eq!(last.body, "hi");
    assert!(cards(&card, &store)[1].composer.is_none());
    card.delete_thread(&mut store);
    assert_eq!(
        card.submit_with(&mut store, "late", None, stamp),
        SubmitOutcome::Submitted(None)
    );
}

#[test]
fn the_bottom_input_replies_to_the_most_recent_comment() {
    let card = CommentCard::new(ThreadId(1), true);
    let t = thread(vec![
        node(1, None, CommentAuthor::User, 5),
        node(2, Some(1), CommentAuthor::User, 9),
        node(3, Some(1), CommentAuthor::User, 9),
        node(4, Some(1), CommentAuthor::User, 7),
    ]);
    assert_eq!(card.render_bottom_composer(&t).parent, Some(CommentId(3)));
    assert_eq!(card.render_bottom_composer(&family()).parent, Some(CommentId(4)));
}

fn strip(card: &CommentCard, store: &CommentStore) -> (String, LabelColor, bool) {
    match card.render(store) {
        CardContent::Strip(strip) => (strip.summary, strip.color, strip.show_reopen),
        _ => panic!("no strip"),
    }
}

#[test]
fn closed_threads_shrink_to_one_line() {
    let mut store = store_with(family());
    let mut card = CommentCard::new(ThreadId(1), true);
    card.toggle_collapsed(&mut store);
    assert_eq!(
        strip(&card, &store),
        ("4 comment(s) — collapsed · You, Agent, kim".to_string(), LabelColor::Muted, false)
    );
    card.toggle_resolved(&mut store);
    assert_eq!(
        strip(&card, &store),
        ("✓ Resolved · 4 · You, Agent, kim".to_string(), LabelColor::Success, true)
    );
    assert_eq!(card.expand(&mut store), Some(CommentStoreEvent::Changed));
    assert!(!store.thread(ThreadId(1)).unwrap().collapsed);
    assert_eq!(cards(&card, &store).len(), 4);
    assert_eq!(card.expand(&mut store), None);
    assert!(!card.shows_compact(store.thread(ThreadId(1)).unwrap()));
    assert!(CommentCard::new(ThreadId(1), true).shows_compact(store.thread(ThreadId(1)).unwrap()));
}

#[test]
fn reopening_from_the_strip() {
    let mut store = store_with(family());
    let mut card = CommentCard::new(ThreadId(1), true);
    card.toggle_resolved(&mut store);
    assert_eq!(strip(&card, &store).1, LabelColor::Success);
    assert_eq!(card.reopen(&mut store), Some(CommentStoreEvent::Changed));
    assert_eq!(store.thread(ThreadId(1)).unwrap().status, CommentStatus::Open);
    assert_eq!(cards(&card, &store).len(), 4);
}

#[test]
fn many_authors_are_cut_short() {
    let card = CommentCard::new(ThreadId(1), true);
    let mut t = thread(vec![
        node(1, None, remote("a"), 1),
        node(2, Some(1), remote("b"), 2),
        node(3, Some(1), remote("a"), 3),
        node(4, Some(1), CommentAuthor::User, 4),
        node(5, Some(1), CommentAuthor::Agent, 5),
    ]);
    assert_eq!(
        card.render_compact_strip(&t).summary,
        "5 comment(s) — collapsed · a, b, +2"
    );
    t.nodes.truncate(1);
    t.nodes[0].author = remote("");
    assert_eq!(card.render_compact_strip(&t).summary, "1 comment(s) — collapsed");
    t.status = CommentStatus::Resolved;
    assert_eq!(card.render_compact_strip(&t).summary, "✓ Resolved");
}

#[test]
fn rendered_bodies_follow_the_thread() {
    let t = family();
    let mut cache: Vec<CachedMarkdown<u32>> = Vec::new();
    assert!(markdown_outdated(&cache, &t.nodes[0]));
    keep_markdown(&mut cache, &t.nodes[0], 10);
    keep_markdown(&mut cache, &t.nodes[1], 11);
    assert!(!markdown_outdated(&cache, &t.nodes[0]));
    let mut edited = family();
    edited.nodes[0].body = "new".to_string();
    assert!(markdown_outdated(&cache, &edited.nodes[0]));
    keep_markdown(&mut cache, &edited.nodes[0], 12);
    assert!(!markdown_outdated(&cache, &edited.nodes[0]));
    assert_eq!(cache.len(), 2);
    edited.nodes.remove(1);
    let cache = evict_markdown(cache, &edited);
    let left: Vec<(u128, &str, u32)> =
        cache.iter().map(|c| (c.node_id.0, c.body.as_str(), c.markdown)).collect();
    assert_eq!(left, vec![(1, "new", 12)]);
}

#[test]
fn a_pass_leaves_every_body_current() {
    let mut t = family();
    let mut cache: Vec<CachedMarkdown<String>> = Vec::new();
    let pass = |cache: Vec<CachedMarkdown<String>>, t: &CommentThread| {
        let mut cache = evict_markdown(cache, t);
        for node in &t.nodes {
            if markdown_outdated(&cache, node) {
                keep_markdown(&mut cache, node, format!("rendered {}", node.body));
            }
        }
        cache
    };
    cache = pass(cache, &t);
    assert_eq!(cache.len(), t.nodes.len());
    let gone = t.nodes.remove(1).id;
    t.nodes[0].body = "edited".to_string();
    cache = pass(cache, &t);
    assert_eq!(cache.len(), t.nodes.len());
    assert!(t.nodes.iter().all(|node| !markdown_outdated(&cache, node)));
    assert!(cache.iter().all(|entry| entry.node_id != gone));
    assert_eq!(cache[0].markdown, "rendered edited");
}
