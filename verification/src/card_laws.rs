//! What a card shows: each comment once, with its own words, below the one
//! that it replies to, and what is left of a thread in one line.

use vstd::prelude::*;
#[allow(unused_imports)]
use crate::comment::{CommentAuthorView, CommentKind, CommentNodeView, CommentStatus};
#[allow(unused_imports)]
use crate::comment_card;
#[allow(unused_imports)]
use crate::comment_card::{
    CardContentView, CardFooterView, Chevron, CommentCardView, ComposerView, LabelColor,
    NodeCardView, ReplyTarget, RootActionsView,
};
#[allow(unused_imports)]
use crate::ids::CommentId;
#[allow(unused_imports)]
use crate::text;
#[allow(unused_imports)]
use crate::thread;
#[allow(unused_imports)]
use crate::thread::CommentThreadView;
#[allow(unused_imports)]
use crate::tree;

verus! {

/// Whether a shown card is that of a comment: its identifier, its body,
/// character for character, its author and its kind; and whether it has what
/// only the root has, or only a comment of the agent, or only the one that the
/// user replies to.
pub open spec fn shows_comment(
    card: CommentCardView,
    thread: CommentThreadView,
    shown: NodeCardView,
    node: CommentNodeView,
    is_root: bool,
) -> bool {
    &&& shown.node_id == node.id
    &&& shown.body == node.body
    &&& shown.author == (match node.author {
        CommentAuthorView::User => "You"@,
        CommentAuthorView::Agent => "Agent"@,
        CommentAuthorView::Remote { login } => login,
    })
    &&& shown.kind_label == (match node.kind {
        CommentKind::Comment => "Comment"@,
        CommentKind::Question => "Question"@,
        CommentKind::Task => "Task"@,
    })
    &&& shown.kind_color == (match node.kind {
        CommentKind::Comment => LabelColor::Muted,
        CommentKind::Question => LabelColor::Info,
        CommentKind::Task => LabelColor::Warning,
    })
    &&& shown.kind_in_header <==> node.kind == CommentKind::Question || node.kind
        == CommentKind::Task
    &&& shown.tinted <==> node.author is Agent
    &&& shown.show_send_to_agent <==> node.author is User || node.author is Remote
    &&& shown.resolved_badge <==> is_root && thread.status == CommentStatus::Resolved
    &&& shown.outdated_badge <==> is_root && !card.anchored
    &&& shown.root_actions == (if is_root {
        Some(
            RootActionsView {
                collapse_label: if thread.collapsed {
                    "Expand"@
                } else {
                    "Collapse"@
                },
                resolve_label: match thread.status {
                    CommentStatus::Resolved => "Reopen"@,
                    CommentStatus::Open => "Resolve"@,
                },
            },
        )
    } else {
        None
    })
    &&& shown.composer == (if card.reply_target == ReplyTarget::Node(node.id) {
        Some(ComposerView { parent: Some(node.id), submit_label: "Reply"@, show_cancel: true })
    } else {
        None
    })
}

/// Whether a shown card has the mark of a subtree as it should: none for a
/// comment without replies; otherwise one that tells whether the subtree is
/// collapsed, and then how many replies are hidden.
pub open spec fn marks_replies(
    card: CommentCardView,
    thread: CommentThreadView,
    shown: NodeCardView,
    node: CommentNodeView,
) -> bool {
    let replied = exists|j: int|
        0 <= j < thread.nodes.len() && (#[trigger] thread.nodes[j]).parent_id == Some(node.id);
    let folded = card.subtree_collapsed.contains(node.id.0);
    let count = tree::descendant_positions(thread.nodes, node.id).len();
    &&& shown.chevron == (if !replied {
        None
    } else if folded {
        Some(Chevron::Right)
    } else {
        Some(Chevron::Down)
    })
    &&& shown.hidden_label == (if replied && folded {
        Some(
            text::decimal(count) + (if count == 1 {
                " reply hidden"@
            } else {
                " replies hidden"@
            }),
        )
    } else {
        None
    })
}

proof fn lemma_hidden_words(count: nat)
    ensures
        comment_card::replies_hidden(count) == text::decimal(count) + (if count == 1 {
            " reply hidden"@
        } else {
            " replies hidden"@
        }),
{
    reveal_strlit(" repl");
    reveal_strlit("y");
    reveal_strlit("ies");
    reveal_strlit(" hidden");
    reveal_strlit(" reply hidden");
    reveal_strlit(" replies hidden");
    assert(comment_card::replies_hidden(count) =~= text::decimal(count) + (if count == 1 {
        " reply hidden"@
    } else {
        " replies hidden"@
    }));
}

/// The card of one comment, wherever it stands, shows that comment's words, and
/// stands as deep as asked.
pub proof fn lemma_own_card(
    card: CommentCardView,
    thread: CommentThreadView,
    node: CommentNodeView,
    is_root: bool,
    depth: nat,
)
    ensures
        shows_comment(
            card,
            thread,
            comment_card::node_card_of(
                card,
                node,
                comment_card::render_state(card, thread, node, is_root, depth),
            ),
            node,
            is_root,
        ),
        depth <= usize::MAX ==> comment_card::node_card_of(
            card,
            node,
            comment_card::render_state(card, thread, node, is_root, depth),
        ).depth == depth,
{
}

proof fn lemma_own_marks(
    card: CommentCardView,
    thread: CommentThreadView,
    node: CommentNodeView,
    is_root: bool,
    depth: nat,
)
    requires
        tree::node_ids_distinct(thread.nodes),
        tree::walk_ends(thread.nodes, node.id),
        thread.nodes.len() <= usize::MAX,
    ensures
        marks_replies(
            card,
            thread,
            comment_card::node_card_of(
                card,
                node,
                comment_card::render_state(card, thread, node, is_root, depth),
            ),
            node,
        ),
{
    let nodes = thread.nodes;
    let kids = thread::children_of(nodes, node.id);
    let count = tree::descendant_count(nodes, node.id);
    tree::lemma_descendant_count(nodes, node.id);
    tree::lemma_descendants_within_nodes(nodes, node.id);
    tree::lemma_descendants_by_children(nodes, node.id);
    lemma_hidden_words(count);
    if kids.len() > 0 {
        assert(kids.contains(kids[0]));
        tree::lemma_children_contain(nodes, node.id, kids[0]);
        let j = choose|j: int| 0 <= j < nodes.len() && nodes[j] == kids[0];
        assert(nodes[j].parent_id == Some(node.id));
        assert(count > 0);
    } else {
        assert forall|j: int| 0 <= j < nodes.len() implies (#[trigger] nodes[j]).parent_id != Some(
            node.id,
        ) by {
            if nodes[j].parent_id == Some(node.id) {
                assert(nodes.contains(nodes[j]));
                tree::lemma_children_contain(nodes, node.id, nodes[j]);
            }
        }
    }
}

/// Whether a shown card is that of a reply to the comment of an earlier one,
/// whose subtree is not collapsed, and stands one level below it.
pub open spec fn stands_below(
    card: CommentCardView,
    thread: CommentThreadView,
    cards: Seq<NodeCardView>,
    k: int,
    parent: int,
    node: CommentNodeView,
) -> bool {
    &&& 0 <= parent < k
    &&& thread.nodes.contains(node)
    &&& node.parent_id == Some(cards[parent].node_id)
    &&& !card.subtree_collapsed.contains(cards[parent].node_id.0)
    &&& cards[k] == comment_card::node_card_of(
        card,
        node,
        comment_card::render_state(card, thread, node, false, cards[parent].depth + 1),
    )
    &&& cards[k].depth == cards[parent].depth + 1
    &&& tree::walk_ends(thread.nodes, node.id)
}

spec fn has_place(
    card: CommentCardView,
    thread: CommentThreadView,
    cards: Seq<NodeCardView>,
    k: int,
) -> bool {
    exists|parent: int, node: CommentNodeView| #[trigger]
        stands_below(card, thread, cards, k, parent, node)
}

spec fn tops(
    card: CommentCardView,
    thread: CommentThreadView,
    list: Seq<CommentNodeView>,
    cards: Seq<NodeCardView>,
    k: int,
    depth: nat,
    i: int,
) -> bool {
    &&& 0 <= i < list.len()
    &&& cards[k] == comment_card::node_card_of(
        card,
        list[i],
        comment_card::render_state(card, thread, list[i], false, depth),
    )
    &&& cards[k].depth == depth
}

spec fn is_top(
    card: CommentCardView,
    thread: CommentThreadView,
    list: Seq<CommentNodeView>,
    cards: Seq<NodeCardView>,
    k: int,
    depth: nat,
) -> bool {
    exists|i: int| #[trigger] tops(card, thread, list, cards, k, depth, i)
}

proof fn lemma_place_shifts(
    card: CommentCardView,
    thread: CommentThreadView,
    front: Seq<NodeCardView>,
    cards: Seq<NodeCardView>,
    k: int,
)
    requires
        0 <= k < cards.len(),
        has_place(card, thread, cards, k),
    ensures
        has_place(card, thread, front + cards, front.len() + k),
{
    let (parent, node) = choose|parent: int, node: CommentNodeView| #[trigger]
        stands_below(card, thread, cards, k, parent, node);
    let all = front + cards;
    assert(all[front.len() + parent] == cards[parent]);
    assert(all[front.len() + k] == cards[k]);
    assert(stands_below(card, thread, all, front.len() + k, front.len() + parent, node));
}

proof fn lemma_place_stays(
    card: CommentCardView,
    thread: CommentThreadView,
    cards: Seq<NodeCardView>,
    behind: Seq<NodeCardView>,
    k: int,
)
    requires
        0 <= k < cards.len(),
        has_place(card, thread, cards, k),
    ensures
        has_place(card, thread, cards + behind, k),
{
    let (parent, node) = choose|parent: int, node: CommentNodeView| #[trigger]
        stands_below(card, thread, cards, k, parent, node);
    let all = cards + behind;
    assert(all[parent] == cards[parent]);
    assert(all[k] == cards[k]);
    assert(stands_below(card, thread, all, k, parent, node));
}

proof fn lemma_subtree_places(
    card: CommentCardView,
    thread: CommentThreadView,
    node: CommentNodeView,
    is_root: bool,
    depth: nat,
    levels: nat,
)
    requires
        tree::shallow(thread.nodes, node.id, levels),
        depth + levels <= usize::MAX,
    ensures
        ({
            let cards = comment_card::subtree_cards(card, thread, node, is_root, depth, levels);
            &&& cards.len() > 0
            &&& cards[0] == comment_card::node_card_of(
                card,
                node,
                comment_card::render_state(card, thread, node, is_root, depth),
            )
            &&& forall|k: int| 0 < k < cards.len() ==> #[trigger] has_place(card, thread, cards, k)
        }),
    decreases levels, 0nat,
{
    let cards = comment_card::subtree_cards(card, thread, node, is_root, depth, levels);
    let own = seq![
        comment_card::node_card_of(
            card,
            node,
            comment_card::render_state(card, thread, node, is_root, depth),
        ),
    ];
    if levels > 0 && !card.subtree_collapsed.contains(node.id.0) {
        let kids = thread::children_of(thread.nodes, node.id);
        let less = (levels - 1) as nat;
        let below = comment_card::list_cards(card, thread, kids, depth + 1, less);
        tree::lemma_shallow_by_children(thread.nodes, node.id, levels);
        assert forall|i: int| 0 <= i < kids.len() implies tree::shallow(
            thread.nodes,
            (#[trigger] kids[i]).id,
            less,
        ) by {}
        lemma_list_places(card, thread, kids, depth + 1, less);
        assert(cards == own + below);
        assert forall|k: int| 0 < k < cards.len() implies #[trigger] has_place(
            card,
            thread,
            cards,
            k,
        ) by {
            let m = k - 1;
            assert(cards[k] == below[m]);
            if has_place(card, thread, below, m) {
                lemma_place_shifts(card, thread, own, below, m);
            } else {
                assert(is_top(card, thread, kids, below, m, depth + 1));
                let i = choose|i: int| #[trigger]
                    tops(card, thread, kids, below, m, depth + 1, i);
                assert(kids.contains(kids[i]));
                tree::lemma_children_contain(thread.nodes, node.id, kids[i]);
                lemma_ends(thread.nodes, kids[i].id, less);
                assert(cards[0] == own[0]);
                assert(stands_below(card, thread, cards, k, 0, kids[i]));
            }
        }
    }
}

proof fn lemma_ends(nodes: Seq<CommentNodeView>, id: CommentId, levels: nat)
    requires
        tree::shallow(nodes, id, levels),
    ensures
        tree::walk_ends(nodes, id),
{
}

proof fn lemma_list_places(
    card: CommentCardView,
    thread: CommentThreadView,
    list: Seq<CommentNodeView>,
    depth: nat,
    levels: nat,
)
    requires
        forall|i: int|
            0 <= i < list.len() ==> tree::shallow(thread.nodes, (#[trigger] list[i]).id, levels),
        depth + levels <= usize::MAX,
    ensures
        ({
            let cards = comment_card::list_cards(card, thread, list, depth, levels);
            forall|k: int|
                #![trigger has_place(card, thread, cards, k)]
                0 <= k < cards.len() ==> has_place(card, thread, cards, k) || is_top(
                    card,
                    thread,
                    list,
                    cards,
                    k,
                    depth,
                )
        }),
    decreases levels, 1 + list.len(),
{
    if list.len() > 0 {
        let fewer = list.drop_last();
        let before = comment_card::list_cards(card, thread, fewer, depth, levels);
        let more = comment_card::subtree_cards(card, thread, list.last(), false, depth, levels);
        let cards = comment_card::list_cards(card, thread, list, depth, levels);
        assert forall|i: int| 0 <= i < fewer.len() implies tree::shallow(
            thread.nodes,
            (#[trigger] fewer[i]).id,
            levels,
        ) by {
            assert(list[i] == fewer[i]);
        }
        lemma_list_places(card, thread, fewer, depth, levels);
        assert(list[list.len() - 1] == list.last());
        lemma_subtree_places(card, thread, list.last(), false, depth, levels);
        assert forall|k: int|
            #![trigger has_place(card, thread, cards, k)]
            0 <= k < cards.len() implies has_place(card, thread, cards, k) || is_top(
            card,
            thread,
            list,
            cards,
            k,
            depth,
        ) by {
            if k < before.len() {
                if has_place(card, thread, before, k) {
                    lemma_place_stays(card, thread, before, more, k);
                } else {
                    let i = choose|i: int| #[trigger]
                        tops(card, thread, fewer, before, k, depth, i);
                    assert(tops(card, thread, list, cards, k, depth, i));
                }
            } else {
                let m = k - before.len();
                assert(cards[k] == more[m]);
                if m == 0 {
                    assert(tops(card, thread, list, cards, k, depth, list.len() - 1));
                } else {
                    assert(has_place(card, thread, more, m));
                    lemma_place_shifts(card, thread, before, more, m);
                }
            }
        }
    }
}

/// Whether a shown card is that of one of a thread's comments, the first card
/// being the root's.
pub open spec fn is_card_of_a_comment(
    card: CommentCardView,
    thread: CommentThreadView,
    shown: NodeCardView,
    is_root: bool,
) -> bool {
    exists|i: int|
        0 <= i < thread.nodes.len() && #[trigger] shows_comment(
            card,
            thread,
            shown,
            thread.nodes[i],
            is_root,
        )
}

proof fn lemma_tree_places(card: CommentCardView, thread: CommentThreadView, r: int)
    requires
        comment_card::can_draw(thread),
        thread.nodes.len() <= usize::MAX,
        thread::root_index(thread.nodes) == Some(r),
    ensures
        ({
            let cards = comment_card::tree_cards(card, thread);
            &&& 0 <= r < thread.nodes.len()
            &&& cards.len() > 0
            &&& cards[0] == comment_card::node_card_of(
                card,
                thread.nodes[r],
                comment_card::render_state(card, thread, thread.nodes[r], true, 0),
            )
            &&& forall|k: int| 0 < k < cards.len() ==> #[trigger] has_place(card, thread, cards, k)
        }),
{
    thread::lemma_root_index(thread.nodes);
    tree::lemma_walk_ends_within_nodes(thread.nodes, thread.nodes[r].id);
    lemma_subtree_places(card, thread, thread.nodes[r], true, 0, thread.nodes.len());
}

/// Every card of a thread is that of one of its comments, with that comment's
/// identifier and body, for the root and for replies alike; the first card, and
/// no other, is the root's.
pub proof fn lemma_every_card_shows_its_comment(card: CommentCardView, thread: CommentThreadView)
    requires
        comment_card::can_draw(thread),
        thread.nodes.len() <= usize::MAX,
    ensures
        ({
            let cards = comment_card::tree_cards(card, thread);
            forall|k: int|
                0 <= k < cards.len() ==> is_card_of_a_comment(
                    card,
                    thread,
                    #[trigger] cards[k],
                    k == 0,
                )
        }),
{
    let cards = comment_card::tree_cards(card, thread);
    if let Some(r) = thread::root_index(thread.nodes) {
        lemma_tree_places(card, thread, r);
        assert forall|k: int| 0 <= k < cards.len() implies is_card_of_a_comment(
            card,
            thread,
            #[trigger] cards[k],
            k == 0,
        ) by {
            if k == 0 {
                lemma_own_card(card, thread, thread.nodes[r], true, 0);
                assert(shows_comment(card, thread, cards[0], thread.nodes[r], true));
            } else {
                assert(has_place(card, thread, cards, k));
                let (parent, node) = choose|parent: int, node: CommentNodeView| #[trigger]
                    stands_below(card, thread, cards, k, parent, node);
                let i = choose|i: int| 0 <= i < thread.nodes.len() && thread.nodes[i] == node;
                lemma_own_card(card, thread, node, false, cards[parent].depth + 1);
                assert(shows_comment(card, thread, cards[k], thread.nodes[i], false));
            }
        }
    }
}

/// With distinct identifiers the card of a comment shows exactly that comment's
/// body.
pub proof fn lemma_card_body_is_the_comment_body(
    card: CommentCardView,
    thread: CommentThreadView,
    k: int,
    i: int,
)
    requires
        tree::node_ids_distinct(thread.nodes),
        thread.nodes.len() <= usize::MAX,
        0 <= k < comment_card::tree_cards(card, thread).len(),
        0 <= i < thread.nodes.len(),
        comment_card::tree_cards(card, thread)[k].node_id == thread.nodes[i].id,
    ensures
        comment_card::tree_cards(card, thread)[k].body == thread.nodes[i].body,
        shows_comment(
            card,
            thread,
            comment_card::tree_cards(card, thread)[k],
            thread.nodes[i],
            k == 0,
        ),
{
    let cards = comment_card::tree_cards(card, thread);
    comment_card::lemma_distinct_comments_can_be_drawn(thread);
    lemma_every_card_shows_its_comment(card, thread);
    let first = k == 0;
    assert(is_card_of_a_comment(card, thread, cards[k], first));
    let j = choose|j: int|
        0 <= j < thread.nodes.len() && #[trigger] shows_comment(
            card,
            thread,
            cards[k],
            thread.nodes[j],
            first,
        );
    assert(thread.nodes[i].id == thread.nodes[j].id);
}

/// The first card is that of the first comment that replies to none, at the
/// left edge. Every further card stands below an earlier one whose subtree is
/// not collapsed, one level deeper, and its comment replies to that one's.
pub proof fn lemma_replies_stand_below(
    card: CommentCardView,
    thread: CommentThreadView,
    k: int,
) -> (r: (int, int))
    requires
        comment_card::can_draw(thread),
        thread.nodes.len() <= usize::MAX,
        0 <= k < comment_card::tree_cards(card, thread).len(),
    ensures
        ({
            let cards = comment_card::tree_cards(card, thread);
            let (parent, i) = r;
            &&& 0 <= i < thread.nodes.len()
            &&& shows_comment(card, thread, cards[k], thread.nodes[i], k == 0)
            &&& tree::node_ids_distinct(thread.nodes) ==> marks_replies(
                card,
                thread,
                cards[k],
                thread.nodes[i],
            )
            &&& k == 0 ==> cards[0].depth == 0 && thread.nodes[i].parent_id is None && forall|
                j: int,
            |
                0 <= j < i ==> (#[trigger] thread.nodes[j]).parent_id is Some
            &&& k > 0 ==> 0 <= parent < k && thread.nodes[i].parent_id == Some(
                cards[parent].node_id,
            ) && cards[k].depth == cards[parent].depth + 1 && !card.subtree_collapsed.contains(
                cards[parent].node_id.0,
            )
        }),
{
    let cards = comment_card::tree_cards(card, thread);
    let root = thread::root_index(thread.nodes)->0;
    thread::lemma_root_index(thread.nodes);
    lemma_tree_places(card, thread, root);
    if k == 0 {
        lemma_own_card(card, thread, thread.nodes[root], true, 0);
        if tree::node_ids_distinct(thread.nodes) {
            lemma_own_marks(card, thread, thread.nodes[root], true, 0);
        }
        (0, root)
    } else {
        assert(has_place(card, thread, cards, k));
        let (parent, node) = choose|parent: int, node: CommentNodeView| #[trigger]
            stands_below(card, thread, cards, k, parent, node);
        let i = choose|i: int| 0 <= i < thread.nodes.len() && thread.nodes[i] == node;
        lemma_own_card(card, thread, node, false, cards[parent].depth + 1);
        if tree::node_ids_distinct(thread.nodes) {
            lemma_own_marks(card, thread, node, false, cards[parent].depth + 1);
        }
        (parent, i)
    }
}

/// A thread has cards exactly when it has a root.
pub proof fn lemma_a_thread_with_a_root_has_cards(
    card: CommentCardView,
    thread: CommentThreadView,
)
    requires
        comment_card::can_draw(thread),
        thread.nodes.len() <= usize::MAX,
    ensures
        comment_card::tree_cards(card, thread).len() > 0 <==> exists|i: int|
            0 <= i < thread.nodes.len() && (#[trigger] thread.nodes[i]).parent_id is None,
{
    thread::lemma_root_index(thread.nodes);
    if let Some(r) = thread::root_index(thread.nodes) {
        lemma_tree_places(card, thread, r);
        assert(thread.nodes[r].parent_id is None);
    }
}

/// The replies to a comment are the comments that name it as their parent, all
/// of them and no other: from oldest to newest, and in list order where the
/// dates are the same.
pub proof fn lemma_replies_are_ordered(
    nodes: Seq<CommentNodeView>,
    parent: CommentId,
    date: i64,
)
    ensures
        ({
            let replies = thread::children_of(nodes, parent);
            &&& forall|i: int, j: int|
                0 <= i < j < replies.len() ==> (#[trigger] replies[i]).created_at <= (
                #[trigger] replies[j]).created_at
            &&& replies.len() == nodes.filter(
                |n: CommentNodeView| n.parent_id == Some(parent),
            ).len()
            &&& replies.filter(|n: CommentNodeView| n.created_at == date) == nodes.filter(
                |n: CommentNodeView| n.parent_id == Some(parent),
            ).filter(|n: CommentNodeView| n.created_at == date)
        }),
{
    let replies = thread::children_of(nodes, parent);
    let listed = thread::replies_to(nodes, parent);
    tree::lemma_children_oldest_first(nodes, parent, date);
    lemma_replies_to_is_filter(nodes, parent);
    lemma_dated_is_filter(replies, date);
    lemma_dated_is_filter(listed, date);
    replies.to_multiset_ensures();
    listed.to_multiset_ensures();
}

proof fn lemma_replies_to_is_filter(nodes: Seq<CommentNodeView>, parent: CommentId)
    ensures
        thread::replies_to(nodes, parent) == nodes.filter(
            |n: CommentNodeView| n.parent_id == Some(parent),
        ),
    decreases nodes.len(),
{
    reveal(Seq::filter);
    if nodes.len() == 0 {
        assert(nodes =~= Seq::empty());
    } else {
        lemma_replies_to_is_filter(nodes.drop_last(), parent);
    }
}

proof fn lemma_dated_is_filter(list: Seq<CommentNodeView>, date: i64)
    ensures
        tree::dated(list, date) == list.filter(|n: CommentNodeView| n.created_at == date),
    decreases list.len(),
{
    reveal(Seq::filter);
    if list.len() == 0 {
        assert(list =~= Seq::empty());
    } else {
        lemma_dated_is_filter(list.drop_last(), date);
    }
}

/// Cards come in the order of the replies: those of one reply and of everything
/// below it, and only then those of the next. A comment's own card comes first,
/// and then those of its replies, one level deeper, unless its subtree is
/// collapsed.
pub proof fn lemma_cards_in_order(
    card: CommentCardView,
    thread: CommentThreadView,
    node: CommentNodeView,
    first: Seq<CommentNodeView>,
    second: Seq<CommentNodeView>,
    is_root: bool,
    depth: nat,
    levels: nat,
)
    ensures
        comment_card::list_cards(card, thread, first + second, depth, levels)
            == comment_card::list_cards(card, thread, first, depth, levels)
            + comment_card::list_cards(card, thread, second, depth, levels),
        comment_card::list_cards(card, thread, seq![node], depth, levels)
            == comment_card::subtree_cards(card, thread, node, false, depth, levels),
        comment_card::subtree_cards(card, thread, node, is_root, depth, levels + 1).len() > 0,
        comment_card::subtree_cards(card, thread, node, is_root, depth, levels + 1).drop_first()
            == (if card.subtree_collapsed.contains(node.id.0) {
            Seq::empty()
        } else {
            comment_card::list_cards(
                card,
                thread,
                thread::children_of(thread.nodes, node.id),
                depth + 1,
                levels,
            )
        }),
    decreases second.len(),
{
    let one = seq![node];
    assert(one.drop_last() =~= Seq::empty());
    assert(one.last() == node);
    assert(comment_card::list_cards(card, thread, one.drop_last(), depth, levels)
        =~= Seq::empty());
    assert(comment_card::list_cards(card, thread, one, depth, levels)
        =~= comment_card::subtree_cards(card, thread, node, false, depth, levels));
    let own = comment_card::subtree_cards(card, thread, node, is_root, depth, levels + 1);
    let below = comment_card::list_cards(
        card,
        thread,
        thread::children_of(thread.nodes, node.id),
        depth + 1,
        levels,
    );
    if card.subtree_collapsed.contains(node.id.0) {
        assert(own.drop_first() =~= Seq::empty());
    } else {
        assert(own.drop_first() =~= below);
    }
    let both = first + second;
    if second.len() == 0 {
        assert(both =~= first);
        assert(comment_card::list_cards(card, thread, first, depth, levels)
            + comment_card::list_cards(card, thread, second, depth, levels)
            =~= comment_card::list_cards(card, thread, first, depth, levels));
    } else {
        let rest = second.drop_last();
        lemma_cards_in_order(card, thread, node, first, rest, is_root, depth, levels);
        assert(both.drop_last() =~= first + rest);
        assert(both.last() == second.last());
        assert(comment_card::list_cards(card, thread, both, depth, levels)
            =~= comment_card::list_cards(card, thread, first, depth, levels)
            + comment_card::list_cards(card, thread, second, depth, levels));
    }
}

/// Whether a reply to the comment of a shown card has its own card further
/// down, with its own body, one level deeper.
pub open spec fn has_reply_card(cards: Seq<NodeCardView>, k: int, reply: CommentNodeView) -> bool {
    exists|m: int|
        k < m < cards.len() && (#[trigger] cards[m]).node_id == reply.id && cards[m].body
            == reply.body && cards[m].depth == cards[k].depth + 1
}

spec fn shows_replies(
    card: CommentCardView,
    thread: CommentThreadView,
    cards: Seq<NodeCardView>,
    k: int,
) -> bool {
    !card.subtree_collapsed.contains(cards[k].node_id.0) ==> forall|i: int|
        0 <= i < thread.nodes.len() && (#[trigger] thread.nodes[i]).parent_id == Some(
            cards[k].node_id,
        ) ==> has_reply_card(cards, k, thread.nodes[i])
}

proof fn lemma_replies_shift(
    card: CommentCardView,
    thread: CommentThreadView,
    front: Seq<NodeCardView>,
    cards: Seq<NodeCardView>,
    behind: Seq<NodeCardView>,
    k: int,
)
    requires
        0 <= k < cards.len(),
        shows_replies(card, thread, cards, k),
    ensures
        shows_replies(card, thread, front + cards + behind, front.len() + k),
{
    let all = front + cards + behind;
    let at = front.len() + k;
    assert(all[at] == cards[k]);
    if !card.subtree_collapsed.contains(cards[k].node_id.0) {
        assert forall|i: int|
            0 <= i < thread.nodes.len() && (#[trigger] thread.nodes[i]).parent_id == Some(
                cards[k].node_id,
            ) implies has_reply_card(all, at, thread.nodes[i]) by {
            assert(has_reply_card(cards, k, thread.nodes[i]));
            let m = choose|m: int|
                k < m < cards.len() && (#[trigger] cards[m]).node_id == thread.nodes[i].id
                    && cards[m].body == thread.nodes[i].body && cards[m].depth == cards[k].depth
                    + 1;
            assert(all[front.len() + m] == cards[m]);
        }
    }
}

proof fn lemma_subtree_complete(
    card: CommentCardView,
    thread: CommentThreadView,
    node: CommentNodeView,
    is_root: bool,
    depth: nat,
    levels: nat,
)
    requires
        tree::shallow(thread.nodes, node.id, levels),
        depth + levels <= usize::MAX,
    ensures
        ({
            let cards = comment_card::subtree_cards(card, thread, node, is_root, depth, levels);
            forall|k: int|
                0 <= k < cards.len() ==> #[trigger] shows_replies(card, thread, cards, k)
        }),
    decreases levels, 0nat,
{
    let cards = comment_card::subtree_cards(card, thread, node, is_root, depth, levels);
    let nodes = thread.nodes;
    let kids = thread::children_of(nodes, node.id);
    let own = seq![
        comment_card::node_card_of(
            card,
            node,
            comment_card::render_state(card, thread, node, is_root, depth),
        ),
    ];
    tree::lemma_shallow_by_children(nodes, node.id, levels);
    if levels == 0 {
        assert(shows_replies(card, thread, cards, 0));
    } else if !card.subtree_collapsed.contains(node.id.0) {
        let less = (levels - 1) as nat;
        let below = comment_card::list_cards(card, thread, kids, depth + 1, less);
        assert forall|i: int| 0 <= i < kids.len() implies tree::shallow(
            nodes,
            (#[trigger] kids[i]).id,
            less,
        ) by {}
        lemma_list_complete(card, thread, kids, depth + 1, less);
        assert(cards == own + below);
        assert forall|k: int| 0 <= k < cards.len() implies #[trigger] shows_replies(
            card,
            thread,
            cards,
            k,
        ) by {
            if k > 0 {
                lemma_replies_shift(card, thread, own, below, Seq::empty(), k - 1);
                assert(own + below + Seq::empty() =~= cards);
            } else {
                assert forall|i: int|
                    0 <= i < nodes.len() && (#[trigger] nodes[i]).parent_id == Some(
                        cards[0].node_id,
                    ) implies has_reply_card(cards, 0, nodes[i]) by {
                    assert(nodes.contains(nodes[i]));
                    tree::lemma_children_contain(nodes, node.id, nodes[i]);
                    let c = choose|c: int| 0 <= c < kids.len() && kids[c] == nodes[i];
                    assert(has_card(below, kids[c], depth + 1));
                    let m = choose|m: int|
                        0 <= m < below.len() && (#[trigger] below[m]).node_id == kids[c].id
                            && below[m].body == kids[c].body && below[m].depth == depth + 1;
                    assert(cards[m + 1] == below[m]);
                }
            }
        }
    } else {
        assert(cards == own);
    }
}

spec fn has_card(cards: Seq<NodeCardView>, node: CommentNodeView, depth: nat) -> bool {
    exists|m: int|
        0 <= m < cards.len() && (#[trigger] cards[m]).node_id == node.id && cards[m].body
            == node.body && cards[m].depth == depth
}

proof fn lemma_list_complete(
    card: CommentCardView,
    thread: CommentThreadView,
    list: Seq<CommentNodeView>,
    depth: nat,
    levels: nat,
)
    requires
        forall|i: int|
            0 <= i < list.len() ==> tree::shallow(thread.nodes, (#[trigger] list[i]).id, levels),
        depth + levels <= usize::MAX,
    ensures
        ({
            let cards = comment_card::list_cards(card, thread, list, depth, levels);
            &&& forall|k: int|
                0 <= k < cards.len() ==> #[trigger] shows_replies(card, thread, cards, k)
            &&& forall|i: int| 0 <= i < list.len() ==> has_card(cards, #[trigger] list[i], depth)
        }),
    decreases levels, 1 + list.len(),
{
    if list.len() > 0 {
        let fewer = list.drop_last();
        let before = comment_card::list_cards(card, thread, fewer, depth, levels);
        let more = comment_card::subtree_cards(card, thread, list.last(), false, depth, levels);
        let cards = comment_card::list_cards(card, thread, list, depth, levels);
        assert forall|i: int| 0 <= i < fewer.len() implies tree::shallow(
            thread.nodes,
            (#[trigger] fewer[i]).id,
            levels,
        ) by {
            assert(list[i] == fewer[i]);
        }
        lemma_list_complete(card, thread, fewer, depth, levels);
        assert(list[list.len() - 1] == list.last());
        lemma_subtree_complete(card, thread, list.last(), false, depth, levels);
        lemma_subtree_places(card, thread, list.last(), false, depth, levels);
        assert forall|k: int| 0 <= k < cards.len() implies #[trigger] shows_replies(
            card,
            thread,
            cards,
            k,
        ) by {
            if k < before.len() {
                lemma_replies_shift(card, thread, Seq::empty(), before, more, k);
                assert(Seq::empty() + before + more =~= cards);
            } else {
                lemma_replies_shift(
                    card,
                    thread,
                    before,
                    more,
                    Seq::empty(),
                    k - before.len(),
                );
                assert(before + more + Seq::empty() =~= cards);
            }
        }
        assert forall|i: int| 0 <= i < list.len() implies has_card(
            cards,
            #[trigger] list[i],
            depth,
        ) by {
            if i < fewer.len() {
                assert(has_card(before, fewer[i], depth));
                let m = choose|m: int|
                    0 <= m < before.len() && (#[trigger] before[m]).node_id == fewer[i].id
                        && before[m].body == fewer[i].body && before[m].depth == depth;
                assert(cards[m] == before[m]);
            } else {
                lemma_own_card(card, thread, list.last(), false, depth);
                assert(cards[before.len() as int] == more[0]);
            }
        }
    }
}

/// No visible reply is missing: every reply to the comment of a card whose
/// subtree is not collapsed has its own card further down, one level deeper,
/// with its own body.
pub proof fn lemma_every_reply_has_a_card(
    card: CommentCardView,
    thread: CommentThreadView,
    k: int,
    i: int,
)
    requires
        comment_card::can_draw(thread),
        thread.nodes.len() <= usize::MAX,
        0 <= k < comment_card::tree_cards(card, thread).len(),
        0 <= i < thread.nodes.len(),
        thread.nodes[i].parent_id == Some(comment_card::tree_cards(card, thread)[k].node_id),
        !card.subtree_collapsed.contains(comment_card::tree_cards(card, thread)[k].node_id.0),
    ensures
        has_reply_card(comment_card::tree_cards(card, thread), k, thread.nodes[i]),
{
    let r = thread::root_index(thread.nodes)->0;
    thread::lemma_root_index(thread.nodes);
    tree::lemma_walk_ends_within_nodes(thread.nodes, thread.nodes[r].id);
    lemma_subtree_complete(card, thread, thread.nodes[r], true, 0, thread.nodes.len());
    assert(shows_replies(card, thread, comment_card::tree_cards(card, thread), k));
}

/// The user is shown as such, the agent as such, a remote author by the login;
/// each kind has its own label and color.
pub proof fn lemma_labels(author: CommentAuthorView, kind: CommentKind)
    ensures
        comment_card::author_name(author) == (match author {
            CommentAuthorView::User => "You"@,
            CommentAuthorView::Agent => "Agent"@,
            CommentAuthorView::Remote { login } => login,
        }),
        kind == CommentKind::Comment ==> comment_card::kind_name(kind) == "Comment"@
            && comment_card::color_of_kind(kind) == LabelColor::Muted
            && comment_card::next_kind(kind) == CommentKind::Question,
        kind == CommentKind::Question ==> comment_card::kind_name(kind) == "Question"@
            && comment_card::color_of_kind(kind) == LabelColor::Info
            && comment_card::next_kind(kind) == CommentKind::Task,
        kind == CommentKind::Task ==> comment_card::kind_name(kind) == "Task"@
            && comment_card::color_of_kind(kind) == LabelColor::Warning
            && comment_card::next_kind(kind) == CommentKind::Comment,
{
}

/// The authors of a thread are named each once, all of them, in the order in
/// which they first wrote: one more comment adds its author behind the others,
/// unless the author wrote before.
pub proof fn lemma_every_author_is_named(nodes: Seq<CommentNodeView>, node: CommentNodeView)
    ensures
        ({
            let authors = comment_card::distinct_authors(nodes);
            let name = comment_card::author_name(node.author);
            let wrote = exists|i: int|
                0 <= i < nodes.len() && comment_card::author_name((#[trigger] nodes[i]).author)
                    == name;
            &&& comment_card::distinct_authors(Seq::empty()).len() == 0
            &&& authors.no_duplicates()
            &&& authors.contains(name) <==> wrote
            &&& comment_card::distinct_authors(nodes.push(node)) == (if wrote {
                authors
            } else {
                authors.push(name)
            })
        }),
    decreases nodes.len(),
{
    let authors = comment_card::distinct_authors(nodes);
    let name = comment_card::author_name(node.author);
    assert(nodes.push(node).drop_last() =~= nodes);
    if nodes.len() > 0 {
        let fewer = nodes.drop_last();
        let before = comment_card::distinct_authors(fewer);
        let last = comment_card::author_name(nodes.last().author);
        lemma_every_author_is_named(fewer, nodes.last());
        lemma_every_author_is_named(fewer, node);
        assert(fewer.push(nodes.last()) =~= nodes);
        if before.contains(name) {
            let k = choose|k: int| 0 <= k < before.len() && before[k] == name;
            assert(authors[k] == name);
            let i = choose|i: int|
                0 <= i < fewer.len() && comment_card::author_name((#[trigger] fewer[i]).author)
                    == name;
            assert(nodes[i] == fewer[i]);
        }
        if name == last {
            assert(comment_card::author_name(nodes[nodes.len() - 1].author) == name);
            if !before.contains(last) {
                assert(authors[before.len() as int] == name);
            }
        }
        if authors.contains(name) && !before.contains(name) {
            let k = choose|k: int| 0 <= k < authors.len() && authors[k] == name;
            if k < before.len() {
                assert(before[k] == name);
            }
        }
        if exists|i: int|
            0 <= i < nodes.len() && comment_card::author_name((#[trigger] nodes[i]).author)
                == name {
            let i = choose|i: int|
                0 <= i < nodes.len() && comment_card::author_name((#[trigger] nodes[i]).author)
                    == name;
            if i < fewer.len() {
                assert(comment_card::author_name(fewer[i].author) == name);
            }
        }
    }
}

/// Up to three authors are all named; of more, the first two are, and how many
/// more there are.
pub proof fn lemma_authors_in_words(authors: Seq<Seq<char>>)
    ensures
        authors.len() <= 3 ==> comment_card::author_summary(authors) == text::joined(
            authors,
            ", "@,
        ),
        authors.len() > 3 ==> comment_card::author_summary(authors) == authors[0] + ", "@
            + authors[1] + ", +"@ + text::decimal((authors.len() - 2) as nat),
{
    if authors.len() > 3 {
        reveal_with_fuel(text::joined, 3);
        let two = authors.take(2);
        assert(two.drop_last().len() == 1);
        assert(two.drop_last()[0] == authors[0]);
        assert(two.last() == authors[1]);
        assert(comment_card::author_summary(authors) =~= authors[0] + ", "@ + authors[1] + ", +"@
            + text::decimal((authors.len() - 2) as nat));
    }
}

/// A thread in one line: whether it is resolved, how many comments it has, and
/// who wrote them; a resolved one stands out, and can be reopened.
pub proof fn lemma_strip(thread: CommentThreadView)
    requires
        thread.nodes.len() > 0,
    ensures
        ({
            let strip = comment_card::strip_of(thread);
            let count = text::decimal(thread.nodes.len());
            let authors = comment_card::author_summary(
                comment_card::distinct_authors(thread.nodes),
            );
            &&& thread.status == CommentStatus::Resolved ==> {
                &&& strip.show_reopen
                &&& strip.color == LabelColor::Success
                &&& authors.len() > 0 ==> strip.summary == "✓ Resolved"@ + " · "@ + count + " · "@
                    + authors
                &&& authors.len() == 0 ==> strip.summary == "✓ Resolved"@
            }
            &&& thread.status == CommentStatus::Open ==> {
                &&& !strip.show_reopen
                &&& strip.color == LabelColor::Muted
                &&& authors.len() > 0 ==> strip.summary == count + " comment(s) — collapsed"@
                    + " · "@ + authors
                &&& authors.len() == 0 ==> strip.summary == count + " comment(s) — collapsed"@
            }
        }),
{
}

/// What a card shows. A thread without a root shows the input for the first
/// comment. Any other shrinks to one line exactly when it is collapsed, or
/// resolved and not expanded by the user; otherwise it shows its comments, and
/// below them the button or the input at the bottom, unless the user replies to
/// a comment.
pub proof fn lemma_card_content(card: CommentCardView, thread: CommentThreadView)
    ensures
        ({
            let content = comment_card::content_of(card, thread);
            let rooted = exists|i: int|
                0 <= i < thread.nodes.len() && (#[trigger] thread.nodes[i]).parent_id is None;
            let compact = thread.collapsed || (thread.status == CommentStatus::Resolved
                && !card.force_expanded);
            &&& content is FirstComment <==> !rooted
            &&& content is Strip <==> rooted && compact
            &&& content is Comments <==> rooted && !compact
            &&& content !is Nothing
            &&& content matches CardContentView::Strip(strip) ==> strip == comment_card::strip_of(
                thread,
            )
            &&& content matches CardContentView::FirstComment(input) ==> input
                == comment_card::bottom_composer_of(card, thread)
            &&& content matches CardContentView::Comments { cards, footer } ==> {
                &&& cards == comment_card::tree_cards(card, thread)
                &&& footer is ReplyButton <==> card.reply_target == ReplyTarget::Closed
                &&& footer is Input <==> card.reply_target == ReplyTarget::Bottom
                &&& footer matches CardFooterView::Input(input) ==> input
                    == comment_card::bottom_composer_of(card, thread)
            }
        }),
{
    thread::lemma_root_index(thread.nodes);
    if let Some(r) = thread::root_index(thread.nodes) {
        assert(thread.nodes[r].parent_id is None);
    }
}

/// The input at the bottom writes the first comment of an empty thread, and
/// otherwise replies to the most recent comment: none is newer, and none that
/// stands behind it is as new. It can be cancelled exactly when the user opened
/// it.
pub proof fn lemma_bottom_input(card: CommentCardView, thread: CommentThreadView)
    ensures
        ({
            let input = comment_card::bottom_composer_of(card, thread);
            &&& input.show_cancel <==> card.reply_target != ReplyTarget::Closed
            &&& thread.nodes.len() == 0 ==> input.parent is None && input.submit_label
                == "Comment"@
            &&& thread.nodes.len() > 0 ==> input.submit_label == "Reply"@ && exists|i: int|
                0 <= i < thread.nodes.len() && input.parent == Some((#[trigger] thread.nodes[i]).id)
                    && forall|j: int|
                    0 <= j < thread.nodes.len() ==> (#[trigger] thread.nodes[j]).created_at
                        < thread.nodes[i].created_at || (j <= i && thread.nodes[j].created_at
                        == thread.nodes[i].created_at)
        }),
{
    comment_card::lemma_latest(thread.nodes);
    if let Some(i) = comment_card::latest(thread.nodes) {
        assert(comment_card::bottom_composer_of(card, thread).parent == Some(thread.nodes[i].id));
        assert forall|j: int| 0 <= j < thread.nodes.len() implies (
        #[trigger] thread.nodes[j]).created_at < thread.nodes[i].created_at || (j <= i
            && thread.nodes[j].created_at == thread.nodes[i].created_at) by {}
    }
}

} // verus!
