//! Walking the reply tree of a thread.
//!
//! The tree is formed by parent identifiers, which a thread stores as it was
//! given them. A walk down from a node comes to an end unless some chain of
//! replies leads back to itself; `walk_ends` says so, and every walk here
//! takes it as its condition.

use vstd::prelude::*;
#[allow(unused_imports)]
use crate::comment::CommentNodeView;
use crate::ids::CommentId;
#[allow(unused_imports)]
use crate::thread;
use crate::thread::CommentThread;

verus! {

/// Whether every chain of replies below `id` has at most `levels` nodes.
pub open spec fn shallow(nodes: Seq<CommentNodeView>, id: CommentId, levels: nat) -> bool
    decreases levels,
{
    forall|i: int|
        0 <= i < nodes.len() && (#[trigger] nodes[i]).parent_id == Some(id) ==> levels > 0
            && shallow(nodes, nodes[i].id, (levels - 1) as nat)
}

/// Whether a walk over all replies below `id` comes to an end.
pub open spec fn walk_ends(nodes: Seq<CommentNodeView>, id: CommentId) -> bool {
    exists|levels: nat| shallow(nodes, id, levels)
}

/// A chain of replies: `path` holds positions, the first replies to `id` and
/// each later one replies to the one before it.
spec fn is_chain(nodes: Seq<CommentNodeView>, id: CommentId, path: Seq<int>) -> bool
    decreases path.len(),
{
    path.len() == 0 || {
        &&& 0 <= path[0] < nodes.len()
        &&& nodes[path[0]].parent_id == Some(id)
        &&& is_chain(nodes, nodes[path[0]].id, path.drop_first())
    }
}

/// The identifier at which a chain ends.
spec fn chain_end(nodes: Seq<CommentNodeView>, id: CommentId, path: Seq<int>) -> CommentId
    decreases path.len(),
{
    if path.len() == 0 {
        id
    } else {
        chain_end(nodes, nodes[path[0]].id, path.drop_first())
    }
}

proof fn lemma_deep_has_chain(nodes: Seq<CommentNodeView>, id: CommentId, levels: nat) -> (path:
    Seq<int>)
    requires
        !shallow(nodes, id, levels),
    ensures
        path.len() == levels + 1,
        is_chain(nodes, id, path),
    decreases levels,
{
    let i = choose|i: int|
        0 <= i < nodes.len() && (#[trigger] nodes[i]).parent_id == Some(id) && !(levels > 0
            && shallow(nodes, nodes[i].id, (levels - 1) as nat));
    let rest = if levels > 0 {
        lemma_deep_has_chain(nodes, nodes[i].id, (levels - 1) as nat)
    } else {
        Seq::empty()
    };
    let path = seq![i] + rest;
    assert(path.drop_first() =~= rest);
    assert(is_chain(nodes, nodes[i].id, rest));
    path
}

proof fn lemma_chain_split(nodes: Seq<CommentNodeView>, id: CommentId, path: Seq<int>, k: int)
    requires
        is_chain(nodes, id, path),
        0 <= k <= path.len(),
    ensures
        is_chain(nodes, id, path.take(k)),
        is_chain(nodes, chain_end(nodes, id, path.take(k)), path.skip(k)),
        k > 0 ==> 0 <= path[k - 1] < nodes.len() && chain_end(nodes, id, path.take(k))
            == nodes[path[k - 1]].id,
    decreases k,
{
    if k == 0 {
        assert(path.take(0) =~= Seq::empty());
        assert(path.skip(0) =~= path);
    } else {
        let rest = path.drop_first();
        lemma_chain_split(nodes, nodes[path[0]].id, rest, k - 1);
        assert(path.take(k).drop_first() =~= rest.take(k - 1));
        assert(path.skip(k) =~= rest.skip(k - 1));
        if k == 1 {
            assert(rest.take(0) =~= Seq::empty());
        }
    }
}

proof fn lemma_shallow_along_chain(
    nodes: Seq<CommentNodeView>,
    id: CommentId,
    levels: nat,
    path: Seq<int>,
)
    requires
        shallow(nodes, id, levels),
        is_chain(nodes, id, path),
    ensures
        path.len() <= levels,
        shallow(nodes, chain_end(nodes, id, path), (levels - path.len()) as nat),
    decreases path.len(),
{
    if path.len() > 0 {
        lemma_shallow_along_chain(
            nodes,
            nodes[path[0]].id,
            (levels - 1) as nat,
            path.drop_first(),
        );
    }
}

proof fn lemma_no_cycle(nodes: Seq<CommentNodeView>, id: CommentId, levels: nat, path: Seq<int>)
    requires
        shallow(nodes, id, levels),
        is_chain(nodes, id, path),
        chain_end(nodes, id, path) == id,
    ensures
        path.len() == 0,
    decreases levels,
{
    if path.len() > 0 {
        lemma_shallow_along_chain(nodes, id, levels, path);
        lemma_no_cycle(nodes, id, (levels - path.len()) as nat, path);
    }
}

/// A list of more numbers than there are below a bound names one of them
/// twice.
pub proof fn lemma_long_list_repeats(path: Seq<int>, bound: nat)
    requires
        path.len() > bound,
        forall|k: int| 0 <= k < path.len() ==> 0 <= #[trigger] path[k] < bound,
    ensures
        !path.no_duplicates(),
{
    if path.no_duplicates() {
        path.unique_seq_to_set();
        let all = vstd::set_lib::set_int_range(0, bound as int);
        vstd::set_lib::lemma_int_range(0, bound as int);
        assert(path.to_set().subset_of(all));
        vstd::set_lib::lemma_len_subset(path.to_set(), all);
    }
}

/// A walk that comes to an end does so within as many levels as the thread
/// has nodes.
pub proof fn lemma_walk_ends_within_nodes(nodes: Seq<CommentNodeView>, id: CommentId)
    ensures
        walk_ends(nodes, id) <==> shallow(nodes, id, nodes.len()),
{
    if walk_ends(nodes, id) && !shallow(nodes, id, nodes.len()) {
        let levels = choose|levels: nat| shallow(nodes, id, levels);
        let path = lemma_deep_has_chain(nodes, id, nodes.len());
        assert forall|k: int| 0 <= k < path.len() implies 0 <= #[trigger] path[k]
            < nodes.len() by {
            lemma_chain_split(nodes, id, path, k + 1);
        }
        lemma_long_list_repeats(path, nodes.len());
        let (a, b) = choose|a: int, b: int|
            0 <= a < path.len() && 0 <= b < path.len() && a != b && path[a] == path[b];
        let lo = if a < b { a } else { b };
        let hi = if a < b { b } else { a };
        lemma_chain_split(nodes, id, path, lo + 1);
        let top = chain_end(nodes, id, path.take(lo + 1));
        let tail = path.skip(lo + 1);
        lemma_shallow_along_chain(nodes, id, levels, path.take(lo + 1));
        lemma_chain_split(nodes, top, tail, hi - lo);
        assert(tail[hi - lo - 1] == path[hi]);
        lemma_no_cycle(nodes, top, (levels - (lo + 1)) as nat, tail.take(hi - lo));
    }
}

/// The number of nodes below `id`, as far down as `levels` levels.
pub open spec fn size_below(nodes: Seq<CommentNodeView>, id: CommentId, levels: nat) -> nat
    decreases levels, 0nat,
{
    if levels == 0 {
        0
    } else {
        size_of_list(nodes, thread::children_of(nodes, id), (levels - 1) as nat)
    }
}

/// The number of nodes in a list and below its nodes, as far down as `levels`
/// levels below each.
pub open spec fn size_of_list(
    nodes: Seq<CommentNodeView>,
    list: Seq<CommentNodeView>,
    levels: nat,
) -> nat
    decreases levels, 1 + list.len(),
{
    if list.len() == 0 {
        0
    } else {
        size_of_list(nodes, list.drop_last(), levels) + 1 + size_below(
            nodes,
            list.last().id,
            levels,
        )
    }
}

/// The number of nodes below `id`: its replies, their replies, and so on.
pub open spec fn descendant_count(nodes: Seq<CommentNodeView>, id: CommentId) -> nat {
    size_below(nodes, id, nodes.len())
}

proof fn lemma_replies_contain(nodes: Seq<CommentNodeView>, parent: CommentId, x: CommentNodeView)
    ensures
        thread::replies_to(nodes, parent).contains(x) <==> nodes.contains(x) && x.parent_id
            == Some(parent),
    decreases nodes.len(),
{
    if nodes.len() > 0 {
        let rest = nodes.drop_last();
        lemma_replies_contain(rest, parent, x);
        let replies = thread::replies_to(rest, parent);
        assert(nodes =~= rest.push(nodes.last()));
        assert(rest.push(nodes.last()).contains(x) <==> rest.contains(x) || x == nodes.last()) by {
            lemma_push_contains(rest, nodes.last(), x);
        }
        lemma_push_contains(replies, nodes.last(), x);
    }
}

proof fn lemma_push_contains(s: Seq<CommentNodeView>, last: CommentNodeView, x: CommentNodeView)
    ensures
        s.push(last).contains(x) <==> s.contains(x) || x == last,
{
    let t = s.push(last);
    if s.contains(x) {
        let i = choose|i: int| 0 <= i < s.len() && s[i] == x;
        assert(t[i] == x);
    }
    if x == last {
        assert(t[s.len() as int] == x);
    }
    if t.contains(x) && x != last {
        let i = choose|i: int| 0 <= i < t.len() && t[i] == x;
        assert(s[i] == x);
    }
}

proof fn lemma_insert_contains(
    ordered: Seq<CommentNodeView>,
    node: CommentNodeView,
    x: CommentNodeView,
)
    ensures
        thread::insert_by_age(ordered, node).contains(x) <==> ordered.contains(x) || x == node,
    decreases ordered.len(),
{
    if ordered.len() > 0 && ordered.last().created_at > node.created_at {
        let rest = ordered.drop_last();
        lemma_insert_contains(rest, node, x);
        lemma_push_contains(thread::insert_by_age(rest, node), ordered.last(), x);
        lemma_push_contains(rest, ordered.last(), x);
        assert(ordered =~= rest.push(ordered.last()));
    } else {
        lemma_push_contains(ordered, node, x);
    }
}

proof fn lemma_oldest_first_contains(list: Seq<CommentNodeView>, x: CommentNodeView)
    ensures
        thread::oldest_first(list).contains(x) <==> list.contains(x),
    decreases list.len(),
{
    if list.len() > 0 {
        let rest = list.drop_last();
        lemma_oldest_first_contains(rest, x);
        lemma_insert_contains(thread::oldest_first(rest), list.last(), x);
        lemma_push_contains(rest, list.last(), x);
        assert(list =~= rest.push(list.last()));
    }
}

/// The children of a node are exactly the thread's nodes that reply to it.
pub proof fn lemma_children_contain(
    nodes: Seq<CommentNodeView>,
    parent: CommentId,
    x: CommentNodeView,
)
    ensures
        thread::children_of(nodes, parent).contains(x) <==> nodes.contains(x) && x.parent_id
            == Some(parent),
{
    lemma_replies_contain(nodes, parent, x);
    lemma_oldest_first_contains(thread::replies_to(nodes, parent), x);
}

/// `shallow` in terms of the children that a walk visits.
pub proof fn lemma_shallow_by_children(nodes: Seq<CommentNodeView>, id: CommentId, levels: nat)
    ensures
        shallow(nodes, id, levels) <==> {
            let kids = thread::children_of(nodes, id);
            forall|j: int|
                0 <= j < kids.len() ==> levels > 0 && shallow(
                    nodes,
                    (#[trigger] kids[j]).id,
                    (levels - 1) as nat,
                )
        },
{
    let kids = thread::children_of(nodes, id);
    if shallow(nodes, id, levels) {
        assert forall|j: int| 0 <= j < kids.len() implies levels > 0 && shallow(
            nodes,
            (#[trigger] kids[j]).id,
            (levels - 1) as nat,
        ) by {
            assert(kids.contains(kids[j]));
            lemma_children_contain(nodes, id, kids[j]);
            let i = choose|i: int| 0 <= i < nodes.len() && nodes[i] == kids[j];
            assert(nodes[i].parent_id == Some(id));
        }
    }
    if forall|j: int|
        0 <= j < kids.len() ==> levels > 0 && shallow(
            nodes,
            (#[trigger] kids[j]).id,
            (levels - 1) as nat,
        ) {
        assert forall|i: int|
            0 <= i < nodes.len() && (#[trigger] nodes[i]).parent_id == Some(id) implies levels > 0
            && shallow(nodes, nodes[i].id, (levels - 1) as nat) by {
            assert(nodes.contains(nodes[i]));
            lemma_children_contain(nodes, id, nodes[i]);
            let j = choose|j: int| 0 <= j < kids.len() && kids[j] == nodes[i];
            assert(kids[j].id == nodes[i].id);
        }
    }
}

proof fn lemma_size_of_prefix(
    nodes: Seq<CommentNodeView>,
    list: Seq<CommentNodeView>,
    levels: nat,
    k: int,
)
    requires
        0 <= k <= list.len(),
    ensures
        size_of_list(nodes, list.take(k), levels) <= size_of_list(nodes, list, levels),
    decreases list.len(),
{
    if k == list.len() {
        assert(list.take(k) =~= list);
    } else {
        lemma_size_of_prefix(nodes, list.drop_last(), levels, k);
        assert(list.drop_last().take(k) =~= list.take(k));
    }
}

/// What is below one node of a list is no more than what is below the node
/// that the list replies to.
pub proof fn lemma_size_of_member(
    nodes: Seq<CommentNodeView>,
    list: Seq<CommentNodeView>,
    levels: nat,
    i: int,
)
    requires
        0 <= i < list.len(),
    ensures
        size_below(nodes, list[i].id, levels) < size_of_list(nodes, list, levels),
{
    lemma_size_of_prefix(nodes, list, levels, i + 1);
    assert(list.take(i + 1).last() == list[i]);
}

impl CommentThread {
    /// The number of nodes below `id` when no chain of replies has more than
    /// `levels` nodes and the number fits in a `usize`.
    fn size_within(&self, id: CommentId, levels: usize) -> (r: Option<usize>)
        ensures
            match r {
                Some(n) => {
                    &&& shallow(self@.nodes, id, levels as nat)
                    &&& n == size_below(self@.nodes, id, levels as nat)
                },
                None => {
                    ||| !shallow(self@.nodes, id, levels as nat)
                    ||| size_below(self@.nodes, id, levels as nat) > usize::MAX
                },
            },
        decreases levels,
    {
        let ghost nodes = self@.nodes;
        let kids = self.children(id);
        let ghost list = thread::children_of(nodes, id);
        proof {
            lemma_shallow_by_children(nodes, id, levels as nat);
        }
        if levels == 0 {
            if kids.len() > 0 {
                proof {
                    assert(list[0] == list[0]);
                }
                return None;
            }
            return Some(0);
        }
        let below: usize = levels - 1;
        let mut total: usize = 0;
        proof {
            assert(list.take(0) =~= Seq::empty());
        }
        for i in 0..kids.len()
            invariant
                nodes == self@.nodes,
                below < levels,
                levels == below + 1,
                list == thread::node_ref_views(kids@),
                list == thread::children_of(nodes, id),
                total == size_of_list(nodes, list.take(i as int), below as nat),
                forall|j: int|
                    0 <= j < i ==> shallow(nodes, (#[trigger] list[j]).id, below as nat),
                shallow(nodes, id, levels as nat) <==> (forall|j: int|
                    0 <= j < list.len() ==> levels > 0 && shallow(
                        nodes,
                        (#[trigger] list[j]).id,
                        (levels - 1) as nat,
                    )),
        {
            proof {
                assert(list[i as int] == kids@[i as int]@);
                assert(list.take(i + 1).drop_last() =~= list.take(i as int));
                lemma_size_of_prefix(nodes, list, below as nat, i + 1);
            }
            match self.size_within(kids[i].id, below) {
                Some(n) => {
                    if n == usize::MAX || total > usize::MAX - (n + 1) {
                        return None;
                    }
                    total = total + (n + 1);
                },
                None => {
                    return None;
                },
            }
        }
        proof {
            assert(list.take(list.len() as int) =~= list);
        }
        Some(total)
    }

    /// The number of nodes below `id`: `None` when a chain of replies leads
    /// back to itself or the number does not fit in a `usize`.
    pub fn subtree_size(&self, id: CommentId) -> (r: Option<usize>)
        ensures
            match r {
                Some(n) => {
                    &&& walk_ends(self@.nodes, id)
                    &&& n == descendant_count(self@.nodes, id)
                },
                None => {
                    ||| !walk_ends(self@.nodes, id)
                    ||| descendant_count(self@.nodes, id) > usize::MAX
                },
            },
    {
        proof {
            lemma_walk_ends_within_nodes(self@.nodes, id);
        }
        self.size_within(id, self.nodes.len())
    }
}

/// Total descendants under `root_id` in the thread tree.
pub fn count_descendants(thread: &CommentThread, root_id: CommentId) -> (r: usize)
    requires
        walk_ends(thread@.nodes, root_id),
        descendant_count(thread@.nodes, root_id) <= usize::MAX,
    ensures
        r == descendant_count(thread@.nodes, root_id),
{
    match thread.subtree_size(root_id) {
        Some(n) => n,
        None => 0,
    }
}

/// Whether a list stands from oldest to newest.
pub open spec fn age_ordered(list: Seq<CommentNodeView>) -> bool {
    forall|i: int, j: int|
        0 <= i <= j < list.len() ==> (#[trigger] list[i]).created_at <= (
        #[trigger] list[j]).created_at
}

proof fn lemma_insert_by_age(ordered: Seq<CommentNodeView>, node: CommentNodeView)
    requires
        age_ordered(ordered),
    ensures
        age_ordered(thread::insert_by_age(ordered, node)),
        thread::insert_by_age(ordered, node).to_multiset() == ordered.to_multiset().insert(node),
        forall|i: int|
            0 <= i < thread::insert_by_age(ordered, node).len() ==> (
            #[trigger] thread::insert_by_age(ordered, node)[i]).created_at <= node.created_at || (
            ordered.len() > 0 && thread::insert_by_age(ordered, node)[i].created_at
                <= ordered.last().created_at),
    decreases ordered.len(),
{
    broadcast use vstd::seq_lib::group_to_multiset_ensures;

    if ordered.len() > 0 && ordered.last().created_at > node.created_at {
        let rest = ordered.drop_last();
        assert(age_ordered(rest)) by {
            assert forall|i: int, j: int| 0 <= i <= j < rest.len() implies (
            #[trigger] rest[i]).created_at <= (#[trigger] rest[j]).created_at by {
                assert(ordered[i].created_at <= ordered[j].created_at);
            }
        }
        lemma_insert_by_age(rest, node);
        let put = thread::insert_by_age(rest, node);
        let after = put.push(ordered.last());
        assert forall|i: int| 0 <= i < put.len() implies (#[trigger] put[i]).created_at
            <= ordered.last().created_at by {
            if rest.len() > 0 {
                assert(ordered[rest.len() - 1].created_at <= ordered[rest.len() as int].created_at);
            }
        }
        assert forall|i: int, j: int| 0 <= i <= j < after.len() implies (
        #[trigger] after[i]).created_at <= (#[trigger] after[j]).created_at by {
            if j < put.len() {
                assert(put[i].created_at <= put[j].created_at);
            } else if i < put.len() {
                assert(put[i].created_at <= ordered.last().created_at);
            }
        }
        assert(ordered =~= rest.push(ordered.last()));
        assert(after.to_multiset() =~= ordered.to_multiset().insert(node));
    } else {
        let after = ordered.push(node);
        assert forall|i: int, j: int| 0 <= i <= j < after.len() implies (
        #[trigger] after[i]).created_at <= (#[trigger] after[j]).created_at by {
            if j < ordered.len() {
                assert(ordered[i].created_at <= ordered[j].created_at);
            } else if i < ordered.len() {
                assert(ordered[i].created_at <= ordered[ordered.len() - 1].created_at);
            }
        }
        assert forall|i: int| 0 <= i < ordered.len() implies (
        #[trigger] after[i]).created_at <= ordered.last().created_at by {
            assert(ordered[i].created_at <= ordered[ordered.len() - 1].created_at);
        }
    }
}

proof fn lemma_oldest_first(list: Seq<CommentNodeView>)
    ensures
        age_ordered(thread::oldest_first(list)),
        thread::oldest_first(list).to_multiset() == list.to_multiset(),
    decreases list.len(),
{
    broadcast use vstd::seq_lib::group_to_multiset_ensures;

    if list.len() > 0 {
        let rest = list.drop_last();
        lemma_oldest_first(rest);
        lemma_insert_by_age(thread::oldest_first(rest), list.last());
        assert(list =~= rest.push(list.last()));
    } else {
        assert(thread::oldest_first(list) =~= list);
    }
}

/// The nodes of a list that have a date, in list order.
pub open spec fn dated(list: Seq<CommentNodeView>, date: i64) -> Seq<CommentNodeView>
    decreases list.len(),
{
    if list.len() == 0 {
        Seq::empty()
    } else if list.last().created_at == date {
        dated(list.drop_last(), date).push(list.last())
    } else {
        dated(list.drop_last(), date)
    }
}

proof fn lemma_insert_dated(ordered: Seq<CommentNodeView>, node: CommentNodeView, date: i64)
    requires
        age_ordered(ordered),
    ensures
        dated(thread::insert_by_age(ordered, node), date) == (if node.created_at == date {
            dated(ordered, date).push(node)
        } else {
            dated(ordered, date)
        }),
    decreases ordered.len(),
{
    if ordered.len() > 0 && ordered.last().created_at > node.created_at {
        let rest = ordered.drop_last();
        assert forall|i: int, j: int| 0 <= i <= j < rest.len() implies (
        #[trigger] rest[i]).created_at <= (#[trigger] rest[j]).created_at by {
            assert(ordered[i].created_at <= ordered[j].created_at);
        }
        lemma_insert_dated(rest, node, date);
        let put = thread::insert_by_age(rest, node);
        assert(put.push(ordered.last()).drop_last() =~= put);
    } else {
        assert(ordered.push(node).drop_last() =~= ordered);
    }
}

proof fn lemma_oldest_first_stable(list: Seq<CommentNodeView>, date: i64)
    ensures
        dated(thread::oldest_first(list), date) == dated(list, date),
    decreases list.len(),
{
    if list.len() > 0 {
        let rest = list.drop_last();
        lemma_oldest_first_stable(rest, date);
        lemma_oldest_first(rest);
        lemma_insert_dated(thread::oldest_first(rest), list.last(), date);
    }
}

/// The children of a node stand from oldest to newest; they are its replies,
/// each as often as it stands in the thread, and replies of the same date
/// stand in list order.
pub proof fn lemma_children_oldest_first(nodes: Seq<CommentNodeView>, parent: CommentId, date: i64)
    ensures
        age_ordered(thread::children_of(nodes, parent)),
        thread::children_of(nodes, parent).to_multiset() == thread::replies_to(
            nodes,
            parent,
        ).to_multiset(),
        dated(thread::children_of(nodes, parent), date) == dated(
            thread::replies_to(nodes, parent),
            date,
        ),
{
    lemma_oldest_first(thread::replies_to(nodes, parent));
    lemma_oldest_first_stable(thread::replies_to(nodes, parent), date);
}

proof fn lemma_sorted_stays(list: Seq<CommentNodeView>)
    requires
        age_ordered(list),
    ensures
        thread::oldest_first(list) == list,
    decreases list.len(),
{
    if list.len() > 0 {
        let rest = list.drop_last();
        assert forall|i: int, j: int| 0 <= i <= j < rest.len() implies (
        #[trigger] rest[i]).created_at <= (#[trigger] rest[j]).created_at by {
            assert(list[i].created_at <= list[j].created_at);
        }
        lemma_sorted_stays(rest);
        if rest.len() > 0 {
            assert(list[rest.len() - 1].created_at <= list[rest.len() as int].created_at);
        }
        assert(list =~= rest.push(list.last()));
    } else {
        assert(thread::oldest_first(list) =~= list);
    }
}

proof fn lemma_replies_age_ordered(nodes: Seq<CommentNodeView>, parent: CommentId)
    requires
        age_ordered(nodes),
    ensures
        age_ordered(thread::replies_to(nodes, parent)),
        forall|i: int|
            0 <= i < thread::replies_to(nodes, parent).len() ==> (
            #[trigger] thread::replies_to(nodes, parent)[i]).created_at
                <= nodes.last().created_at,
    decreases nodes.len(),
{
    if nodes.len() > 0 {
        let rest = nodes.drop_last();
        assert forall|i: int, j: int| 0 <= i <= j < rest.len() implies (
        #[trigger] rest[i]).created_at <= (#[trigger] rest[j]).created_at by {
            assert(nodes[i].created_at <= nodes[j].created_at);
        }
        lemma_replies_age_ordered(rest, parent);
        if rest.len() > 0 {
            assert(nodes[rest.len() - 1].created_at <= nodes[rest.len() as int].created_at);
        }
    }
}

/// In a thread whose nodes were added in the order of their dates, the
/// children of a node are its replies in list order.
pub proof fn lemma_children_in_list_order(nodes: Seq<CommentNodeView>, parent: CommentId)
    requires
        age_ordered(nodes),
    ensures
        thread::children_of(nodes, parent) == thread::replies_to(nodes, parent),
{
    lemma_replies_age_ordered(nodes, parent);
    lemma_sorted_stays(thread::replies_to(nodes, parent));
}

/// Whether every node stands behind the node it replies to, wherever that one
/// is in the list.
pub open spec fn parents_first(nodes: Seq<CommentNodeView>) -> bool {
    forall|i: int, k: int|
        0 <= i <= k < nodes.len() ==> (#[trigger] nodes[i]).parent_id != Some(
            (#[trigger] nodes[k]).id,
        )
}

proof fn lemma_shallow_behind(nodes: Seq<CommentNodeView>, id: CommentId, m: int)
    requires
        parents_first(nodes),
        0 <= m <= nodes.len(),
        forall|i: int|
            0 <= i < nodes.len() && (#[trigger] nodes[i]).parent_id == Some(id) ==> i >= m,
    ensures
        shallow(nodes, id, (nodes.len() - m) as nat),
    decreases nodes.len() - m,
{
    assert forall|i: int|
        0 <= i < nodes.len() && (#[trigger] nodes[i]).parent_id == Some(id) implies nodes.len() - m
        > 0 && shallow(nodes, nodes[i].id, (nodes.len() - m - 1) as nat) by {
        assert forall|j: int|
            0 <= j < nodes.len() && (#[trigger] nodes[j]).parent_id == Some(
                nodes[i].id,
            ) implies j >= m + 1 by {
            if j <= i {
                assert(nodes[j].parent_id != Some(nodes[i].id));
            }
        }
        lemma_shallow_behind(nodes, nodes[i].id, m + 1);
    }
}

/// In a thread where every node stands behind the node it replies to, every
/// walk comes to an end.
pub proof fn lemma_parents_first_walks_end(nodes: Seq<CommentNodeView>, id: CommentId)
    requires
        parents_first(nodes),
    ensures
        walk_ends(nodes, id),
{
    lemma_shallow_behind(nodes, id, 0);
    assert(shallow(nodes, id, (nodes.len() - 0) as nat));
}

/// Appending a node that nothing replies to yet, itself included, keeps every
/// node behind the node it replies to.
pub proof fn lemma_appended_node_last(nodes: Seq<CommentNodeView>, node: CommentNodeView)
    requires
        parents_first(nodes),
        node.parent_id != Some(node.id),
        forall|i: int| 0 <= i < nodes.len() ==> (#[trigger] nodes[i]).parent_id != Some(node.id),
    ensures
        parents_first(nodes.push(node)),
{
    let after = nodes.push(node);
    assert forall|i: int, k: int| 0 <= i <= k < after.len() implies (
    #[trigger] after[i]).parent_id != Some((#[trigger] after[k]).id) by {
        if k < nodes.len() {
            assert(nodes[i].parent_id != Some(nodes[k].id));
        } else if i < nodes.len() {
            assert(nodes[i].parent_id != Some(node.id));
        }
    }
}

/// Whether no two nodes of a list share an identifier.
pub open spec fn node_ids_distinct(nodes: Seq<CommentNodeView>) -> bool {
    forall|i: int, j: int|
        0 <= i < nodes.len() && 0 <= j < nodes.len() && (#[trigger] nodes[i]).id == (
        #[trigger] nodes[j]).id ==> i == j
}

/// The node at a step of a chain replies to the node at the step before it.
proof fn lemma_chain_step(nodes: Seq<CommentNodeView>, id: CommentId, path: Seq<int>, k: int)
    requires
        is_chain(nodes, id, path),
        0 <= k < path.len(),
    ensures
        0 <= path[k] < nodes.len(),
        k == 0 ==> nodes[path[k]].parent_id == Some(id),
        k > 0 ==> 0 <= path[k - 1] < nodes.len() && nodes[path[k]].parent_id == Some(
            nodes[path[k - 1]].id,
        ),
{
    lemma_chain_split(nodes, id, path, k);
    let tail = path.skip(k);
    assert(tail[0] == path[k]);
}

proof fn lemma_chain_repeats_back(
    nodes: Seq<CommentNodeView>,
    id: CommentId,
    path: Seq<int>,
    a: int,
    b: int,
) -> (gap: int)
    requires
        node_ids_distinct(nodes),
        is_chain(nodes, id, path),
        0 <= a < b < path.len(),
        path[a] == path[b],
    ensures
        0 < gap < path.len(),
        path[gap] == path[0],
    decreases a,
{
    if a == 0 {
        b
    } else {
        lemma_chain_step(nodes, id, path, a);
        lemma_chain_step(nodes, id, path, b);
        assert(nodes[path[a - 1]].id == nodes[path[b - 1]].id);
        lemma_chain_repeats_back(nodes, id, path, a - 1, b - 1)
    }
}

/// In a thread whose nodes have distinct identifiers, the walk down from a
/// node without a parent always comes to an end.
pub proof fn lemma_root_walk_ends(nodes: Seq<CommentNodeView>, root: int)
    requires
        node_ids_distinct(nodes),
        0 <= root < nodes.len(),
        nodes[root].parent_id is None,
    ensures
        walk_ends(nodes, nodes[root].id),
{
    let id = nodes[root].id;
    if !shallow(nodes, id, nodes.len()) {
        let path = lemma_deep_has_chain(nodes, id, nodes.len());
        assert forall|k: int| 0 <= k < path.len() implies 0 <= #[trigger] path[k]
            < nodes.len() by {
            lemma_chain_step(nodes, id, path, k);
        }
        lemma_long_list_repeats(path, nodes.len());
        let (a, b) = choose|a: int, b: int|
            0 <= a < path.len() && 0 <= b < path.len() && a != b && path[a] == path[b];
        let lo = if a < b { a } else { b };
        let hi = if a < b { b } else { a };
        let gap = lemma_chain_repeats_back(nodes, id, path, lo, hi);
        lemma_chain_step(nodes, id, path, 0);
        lemma_chain_step(nodes, id, path, gap);
        lemma_chain_step(nodes, id, path, gap - 1);
        assert(nodes[path[gap - 1]].id == nodes[root].id);
        assert(path[gap - 1] == root);
    }
    lemma_walk_ends_within_nodes(nodes, id);
}

/// The count of a walk that has come to an end does not depend on how much
/// further down one looks.
pub proof fn lemma_size_below_settled(
    nodes: Seq<CommentNodeView>,
    id: CommentId,
    levels: nat,
    more: nat,
)
    requires
        shallow(nodes, id, levels),
        more >= levels,
    ensures
        shallow(nodes, id, more),
        size_below(nodes, id, more) == size_below(nodes, id, levels),
    decreases levels,
{
    lemma_shallow_by_children(nodes, id, levels);
    lemma_shallow_by_children(nodes, id, more);
    let kids = thread::children_of(nodes, id);
    if kids.len() == 0 {
        if more > 0 {
            assert(size_of_list(nodes, kids, (more - 1) as nat) == 0);
        }
        if levels > 0 {
            assert(size_of_list(nodes, kids, (levels - 1) as nat) == 0);
        }
    } else {
        assert(kids[0] == kids[0]);
        assert forall|j: int| 0 <= j < kids.len() implies shallow(
            nodes,
            (#[trigger] kids[j]).id,
            (more - 1) as nat,
        ) && size_below(nodes, kids[j].id, (more - 1) as nat) == size_below(
            nodes,
            kids[j].id,
            (levels - 1) as nat,
        ) by {
            lemma_size_below_settled(nodes, kids[j].id, (levels - 1) as nat, (more - 1) as nat);
        }
        lemma_same_sizes(nodes, kids, (levels - 1) as nat, (more - 1) as nat);
    }
}

proof fn lemma_same_sizes(
    nodes: Seq<CommentNodeView>,
    list: Seq<CommentNodeView>,
    a: nat,
    b: nat,
)
    requires
        forall|j: int|
            0 <= j < list.len() ==> size_below(nodes, (#[trigger] list[j]).id, a) == size_below(
                nodes,
                list[j].id,
                b,
            ),
    ensures
        size_of_list(nodes, list, a) == size_of_list(nodes, list, b),
    decreases list.len(),
{
    if list.len() > 0 {
        let rest = list.drop_last();
        assert forall|j: int| 0 <= j < rest.len() implies size_below(
            nodes,
            (#[trigger] rest[j]).id,
            a,
        ) == size_below(nodes, rest[j].id, b) by {
            assert(list[j] == rest[j]);
        }
        lemma_same_sizes(nodes, rest, a, b);
        assert(list[list.len() - 1] == list.last());
    }
}

/// The identifiers of the nodes below `id`, as far down as `levels` levels.
spec fn ids_below(nodes: Seq<CommentNodeView>, id: CommentId, levels: nat) -> Set<CommentId>
    decreases levels, 0nat,
{
    if levels == 0 {
        Set::empty()
    } else {
        ids_of_list(nodes, thread::children_of(nodes, id), (levels - 1) as nat)
    }
}

/// The identifiers of the nodes of a list and of those below them.
spec fn ids_of_list(
    nodes: Seq<CommentNodeView>,
    list: Seq<CommentNodeView>,
    levels: nat,
) -> Set<CommentId>
    decreases levels, 1 + list.len(),
{
    if list.len() == 0 {
        Set::empty()
    } else {
        ids_of_list(nodes, list.drop_last(), levels).union(
            ids_below(nodes, list.last().id, levels).insert(list.last().id),
        )
    }
}

proof fn lemma_ids_below_chain(
    nodes: Seq<CommentNodeView>,
    id: CommentId,
    levels: nat,
    x: CommentId,
) -> (path: Seq<int>)
    requires
        ids_below(nodes, id, levels).contains(x),
    ensures
        is_chain(nodes, id, path),
        path.len() > 0,
        chain_end(nodes, id, path) == x,
    decreases levels, 0nat,
{
    let (j, rest) = lemma_ids_of_list_chain(
        nodes,
        thread::children_of(nodes, id),
        (levels - 1) as nat,
        x,
    );
    lemma_child_chain(nodes, id, j, rest)
}

/// The chain that leads to a child of `id` and from there along `rest`.
proof fn lemma_child_chain(
    nodes: Seq<CommentNodeView>,
    id: CommentId,
    j: int,
    rest: Seq<int>,
) -> (path: Seq<int>)
    requires
        0 <= j < thread::children_of(nodes, id).len(),
        is_chain(nodes, thread::children_of(nodes, id)[j].id, rest),
    ensures
        is_chain(nodes, id, path),
        path.len() == rest.len() + 1,
        nodes[path[0]] == thread::children_of(nodes, id)[j],
        chain_end(nodes, id, path) == chain_end(nodes, thread::children_of(nodes, id)[j].id, rest),
{
    let kids = thread::children_of(nodes, id);
    assert(kids.contains(kids[j]));
    lemma_children_contain(nodes, id, kids[j]);
    let i = choose|i: int| 0 <= i < nodes.len() && nodes[i] == kids[j];
    let path = seq![i] + rest;
    assert(path.drop_first() =~= rest);
    path
}

proof fn lemma_ids_of_list_chain(
    nodes: Seq<CommentNodeView>,
    list: Seq<CommentNodeView>,
    levels: nat,
    x: CommentId,
) -> (r: (int, Seq<int>))
    requires
        ids_of_list(nodes, list, levels).contains(x),
    ensures
        0 <= r.0 < list.len(),
        is_chain(nodes, list[r.0].id, r.1),
        chain_end(nodes, list[r.0].id, r.1) == x,
    decreases levels, 1 + list.len(),
{
    let last = list.len() - 1;
    if ids_of_list(nodes, list.drop_last(), levels).contains(x) {
        lemma_ids_of_list_chain(nodes, list.drop_last(), levels, x)
    } else if x == list.last().id {
        (last, Seq::empty())
    } else {
        let path = lemma_ids_below_chain(nodes, list.last().id, levels, x);
        (last, path)
    }
}

/// With distinct identifiers there is at most one chain between two nodes,
/// where walks come to an end.
proof fn lemma_one_chain(
    nodes: Seq<CommentNodeView>,
    id: CommentId,
    levels: nat,
    p: Seq<int>,
    q: Seq<int>,
)
    requires
        node_ids_distinct(nodes),
        shallow(nodes, id, levels),
        is_chain(nodes, id, p),
        is_chain(nodes, id, q),
        p.len() > 0,
        q.len() > 0,
        chain_end(nodes, id, p) == chain_end(nodes, id, q),
    ensures
        p == q,
    decreases p.len() + q.len(),
{
    let a = p.len() - 1;
    let b = q.len() - 1;
    lemma_chain_split(nodes, id, p, p.len() as int);
    lemma_chain_split(nodes, id, q, q.len() as int);
    assert(p.take(p.len() as int) =~= p);
    assert(q.take(q.len() as int) =~= q);
    assert(nodes[p[a]].id == nodes[q[b]].id);
    lemma_chain_step(nodes, id, p, a);
    lemma_chain_step(nodes, id, q, b);
    let pp = p.take(a);
    let qq = q.take(b);
    lemma_chain_split(nodes, id, p, a);
    lemma_chain_split(nodes, id, q, b);
    if a == 0 && b == 0 {
        assert(p =~= q);
    } else if a == 0 {
        assert(chain_end(nodes, id, qq) == id);
        lemma_no_cycle(nodes, id, levels, qq);
    } else if b == 0 {
        assert(chain_end(nodes, id, pp) == id);
        lemma_no_cycle(nodes, id, levels, pp);
    } else {
        assert(chain_end(nodes, id, pp) == chain_end(nodes, id, qq));
        lemma_one_chain(nodes, id, levels, pp, qq);
        assert(p =~= pp.push(p[a]));
        assert(q =~= qq.push(q[b]));
    }
}

proof fn lemma_insert_ids_distinct(ordered: Seq<CommentNodeView>, node: CommentNodeView)
    requires
        node_ids_distinct(ordered),
        forall|i: int| 0 <= i < ordered.len() ==> (#[trigger] ordered[i]).id != node.id,
    ensures
        node_ids_distinct(thread::insert_by_age(ordered, node)),
    decreases ordered.len(),
{
    let after = thread::insert_by_age(ordered, node);
    if ordered.len() > 0 && ordered.last().created_at > node.created_at {
        let rest = ordered.drop_last();
        let put = thread::insert_by_age(rest, node);
        assert forall|i: int| 0 <= i < rest.len() implies #[trigger] rest[i] == ordered[i] by {}
        assert forall|i: int, j: int|
            0 <= i < rest.len() && 0 <= j < rest.len() && (#[trigger] rest[i]).id == (
            #[trigger] rest[j]).id implies i == j by {
            assert(ordered[i].id == ordered[j].id);
        }
        lemma_insert_ids_distinct(rest, node);
        assert forall|i: int| 0 <= i < put.len() implies (#[trigger] put[i]).id
            != ordered.last().id by {
            assert(put.contains(put[i]));
            lemma_insert_contains(rest, node, put[i]);
            assert(ordered[ordered.len() - 1].id != node.id);
            if put[i] != node {
                let k = choose|k: int| 0 <= k < rest.len() && rest[k] == put[i];
                if put[i].id == ordered.last().id {
                    assert(ordered[k].id == ordered[ordered.len() - 1].id);
                }
            }
        }
        assert forall|i: int, j: int|
            0 <= i < after.len() && 0 <= j < after.len() && (#[trigger] after[i]).id == (
            #[trigger] after[j]).id implies i == j by {
            if i < put.len() && j < put.len() {
                assert(put[i].id == put[j].id);
            } else if i < put.len() {
                assert(put[i].id != ordered.last().id);
            } else if j < put.len() {
                assert(put[j].id != ordered.last().id);
            }
        }
    } else {
        assert forall|i: int, j: int|
            0 <= i < after.len() && 0 <= j < after.len() && (#[trigger] after[i]).id == (
            #[trigger] after[j]).id implies i == j by {
            if i < ordered.len() && j < ordered.len() {
                assert(ordered[i].id == ordered[j].id);
            } else if i < ordered.len() {
                assert(ordered[i].id != node.id);
            } else if j < ordered.len() {
                assert(ordered[j].id != node.id);
            }
        }
    }
}

proof fn lemma_ordered_ids_distinct(list: Seq<CommentNodeView>)
    requires
        node_ids_distinct(list),
    ensures
        node_ids_distinct(thread::oldest_first(list)),
    decreases list.len(),
{
    if list.len() > 0 {
        let rest = list.drop_last();
        assert forall|i: int, j: int|
            0 <= i < rest.len() && 0 <= j < rest.len() && (#[trigger] rest[i]).id == (
            #[trigger] rest[j]).id implies i == j by {
            assert(list[i].id == list[j].id);
        }
        lemma_ordered_ids_distinct(rest);
        let ordered = thread::oldest_first(rest);
        assert forall|i: int| 0 <= i < ordered.len() implies (#[trigger] ordered[i]).id
            != list.last().id by {
            assert(ordered.contains(ordered[i]));
            lemma_oldest_first_contains(rest, ordered[i]);
            let k = choose|k: int| 0 <= k < rest.len() && rest[k] == ordered[i];
            if ordered[i].id == list.last().id {
                assert(list[k].id == list[list.len() - 1].id);
            }
        }
        lemma_insert_ids_distinct(ordered, list.last());
    }
}

proof fn lemma_replies_ids_distinct(nodes: Seq<CommentNodeView>, parent: CommentId)
    requires
        node_ids_distinct(nodes),
    ensures
        node_ids_distinct(thread::replies_to(nodes, parent)),
    decreases nodes.len(),
{
    if nodes.len() > 0 {
        let rest = nodes.drop_last();
        assert forall|i: int, j: int|
            0 <= i < rest.len() && 0 <= j < rest.len() && (#[trigger] rest[i]).id == (
            #[trigger] rest[j]).id implies i == j by {
            assert(nodes[i].id == nodes[j].id);
        }
        lemma_replies_ids_distinct(rest, parent);
        let before = thread::replies_to(rest, parent);
        let after = thread::replies_to(nodes, parent);
        assert forall|i: int| 0 <= i < before.len() implies (#[trigger] before[i]).id
            != nodes.last().id by {
            assert(before.contains(before[i]));
            lemma_replies_contain(rest, parent, before[i]);
            let k = choose|k: int| 0 <= k < rest.len() && rest[k] == before[i];
            if before[i].id == nodes.last().id {
                assert(nodes[k].id == nodes[nodes.len() - 1].id);
            }
        }
        assert forall|i: int, j: int|
            0 <= i < after.len() && 0 <= j < after.len() && (#[trigger] after[i]).id == (
            #[trigger] after[j]).id implies i == j by {
            if i < before.len() && j < before.len() {
                assert(before[i].id == before[j].id);
            } else if i < before.len() {
                assert(before[i].id != nodes.last().id);
            } else if j < before.len() {
                assert(before[j].id != nodes.last().id);
            }
        }
    }
}

proof fn lemma_size_is_ids(nodes: Seq<CommentNodeView>, id: CommentId, levels: nat)
    requires
        node_ids_distinct(nodes),
        shallow(nodes, id, levels),
    ensures
        ids_below(nodes, id, levels).finite(),
        ids_below(nodes, id, levels).len() == size_below(nodes, id, levels),
    decreases levels, 0nat,
{
    if levels > 0 {
        let kids = thread::children_of(nodes, id);
        lemma_shallow_by_children(nodes, id, levels);
        lemma_replies_ids_distinct(nodes, id);
        lemma_ordered_ids_distinct(thread::replies_to(nodes, id));
        assert(kids.take(kids.len() as int) =~= kids);
        lemma_list_size_is_ids(nodes, id, levels, kids.len() as int);
    }
}

proof fn lemma_list_size_is_ids(nodes: Seq<CommentNodeView>, id: CommentId, levels: nat, k: int)
    requires
        node_ids_distinct(nodes),
        levels > 0,
        shallow(nodes, id, levels),
        node_ids_distinct(thread::children_of(nodes, id)),
        0 <= k <= thread::children_of(nodes, id).len(),
    ensures
        ({
            let list = thread::children_of(nodes, id).take(k);
            &&& ids_of_list(nodes, list, (levels - 1) as nat).finite()
            &&& ids_of_list(nodes, list, (levels - 1) as nat).len() == size_of_list(
                nodes,
                list,
                (levels - 1) as nat,
            )
        }),
    decreases levels - 1, 1 + k,
{
    let kids = thread::children_of(nodes, id);
    let list = kids.take(k);
    let below = (levels - 1) as nat;
    lemma_shallow_by_children(nodes, id, levels);
    if k > 0 {
        let last = kids[k - 1];
        assert(list.drop_last() =~= kids.take(k - 1));
        assert(list.last() == last);
        lemma_list_size_is_ids(nodes, id, levels, k - 1);
        assert(shallow(nodes, last.id, below));
        lemma_size_is_ids(nodes, last.id, below);
        let before = ids_of_list(nodes, list.drop_last(), below);
        let inner = ids_below(nodes, last.id, below);
        if inner.contains(last.id) {
            let path = lemma_ids_below_chain(nodes, last.id, below, last.id);
            lemma_no_cycle(nodes, last.id, below, path);
        }
        let own = inner.insert(last.id);
        assert(before.disjoint(own)) by {
            assert forall|x: CommentId| before.contains(x) implies !own.contains(x) by {
                if own.contains(x) {
                    let (j, rest) = lemma_ids_of_list_chain(nodes, list.drop_last(), below, x);
                    assert(list.drop_last()[j] == kids[j]);
                    let p = lemma_child_chain(nodes, id, j, rest);
                    let tail = if x == last.id {
                        Seq::empty()
                    } else {
                        lemma_ids_below_chain(nodes, last.id, below, x)
                    };
                    let q = lemma_child_chain(nodes, id, k - 1, tail);
                    lemma_one_chain(nodes, id, levels, p, q);
                    assert(kids[j].id == kids[k - 1].id);
                }
            }
        }
        vstd::set_lib::lemma_set_disjoint_lens(before, own);
    }
}

proof fn lemma_ids_below_subset(nodes: Seq<CommentNodeView>, id: CommentId, levels: nat)
    ensures
        ids_below(nodes, id, levels).subset_of(
            nodes.map_values(|n: CommentNodeView| n.id).to_set(),
        ),
{
    let all = nodes.map_values(|n: CommentNodeView| n.id);
    assert forall|x: CommentId| ids_below(nodes, id, levels).contains(
        x,
    ) implies all.to_set().contains(x) by {
        let path = lemma_ids_below_chain(nodes, id, levels, x);
        lemma_chain_split(nodes, id, path, path.len() as int);
        assert(path.take(path.len() as int) =~= path);
        let i = path[path.len() - 1];
        assert(all[i] == x);
        assert(all.contains(x));
    }
}

/// In a thread whose nodes have distinct identifiers, a walk that comes to an
/// end visits each node at most once: a node has no more descendants than the
/// thread has nodes.
pub proof fn lemma_descendants_within_nodes(nodes: Seq<CommentNodeView>, id: CommentId)
    requires
        node_ids_distinct(nodes),
        walk_ends(nodes, id),
    ensures
        descendant_count(nodes, id) <= nodes.len(),
{
    lemma_walk_ends_within_nodes(nodes, id);
    lemma_size_is_ids(nodes, id, nodes.len());
    lemma_ids_below_subset(nodes, id, nodes.len());
    let all = nodes.map_values(|n: CommentNodeView| n.id);
    all.lemma_cardinality_of_set();
    vstd::set_lib::lemma_len_subset(ids_below(nodes, id, nodes.len()), all.to_set());
}

/// Whether the chain of parents of the node at position `i` reaches `id`
/// after at most `steps` nodes in between.
pub open spec fn reaches_within(
    nodes: Seq<CommentNodeView>,
    i: int,
    id: CommentId,
    steps: nat,
) -> bool
    decreases steps,
{
    match nodes[i].parent_id {
        Some(parent) => parent == id || (steps > 0 && match thread::node_index(nodes, parent) {
            Some(k) => reaches_within(nodes, k, id, (steps - 1) as nat),
            None => false,
        }),
        None => false,
    }
}

/// Whether the chain of parents of the node at position `i` reaches `id`.
pub open spec fn reaches(nodes: Seq<CommentNodeView>, i: int, id: CommentId) -> bool {
    exists|steps: nat| reaches_within(nodes, i, id, steps)
}

/// Where the nodes stand whose chain of parents reaches `id`.
pub open spec fn descendant_positions(nodes: Seq<CommentNodeView>, id: CommentId) -> Set<int> {
    vstd::set_lib::set_int_range(0, nodes.len() as int).filter(|i: int| reaches(nodes, i, id))
}

proof fn lemma_chain_reaches(nodes: Seq<CommentNodeView>, id: CommentId, path: Seq<int>, k: int)
    requires
        node_ids_distinct(nodes),
        is_chain(nodes, id, path),
        0 <= k < path.len(),
    ensures
        0 <= path[k] < nodes.len(),
        reaches_within(nodes, path[k], id, k as nat),
    decreases k,
{
    lemma_chain_step(nodes, id, path, k);
    if k > 0 {
        lemma_chain_reaches(nodes, id, path, k - 1);
        let above = nodes[path[k - 1]].id;
        thread::lemma_node_index(nodes, above);
        let at = thread::node_index(nodes, above)->0;
        assert(nodes[at].id == nodes[path[k - 1]].id);
    }
}

/// The chain that leads down to a node whose chain of parents reaches `id`.
proof fn lemma_reaches_chain(
    nodes: Seq<CommentNodeView>,
    i: int,
    id: CommentId,
    steps: nat,
) -> (path: Seq<int>)
    requires
        0 <= i < nodes.len(),
        reaches_within(nodes, i, id, steps),
    ensures
        is_chain(nodes, id, path),
        path.len() > 0,
        chain_end(nodes, id, path) == nodes[i].id,
    decreases steps,
{
    let parent = nodes[i].parent_id->0;
    if parent == id {
        let path = seq![i];
        assert(path.drop_first() =~= Seq::empty());
        assert(is_chain(nodes, nodes[i].id, Seq::empty()));
        assert(chain_end(nodes, nodes[i].id, Seq::empty()) == nodes[i].id);
        path
    } else {
        thread::lemma_node_index(nodes, parent);
        let k = thread::node_index(nodes, parent)->0;
        let above = lemma_reaches_chain(nodes, k, id, (steps - 1) as nat);
        lemma_chain_extended(nodes, id, above, i);
        above.push(i)
    }
}

proof fn lemma_chain_extended(nodes: Seq<CommentNodeView>, id: CommentId, path: Seq<int>, i: int)
    requires
        is_chain(nodes, id, path),
        0 <= i < nodes.len(),
        nodes[i].parent_id == Some(chain_end(nodes, id, path)),
    ensures
        is_chain(nodes, id, path.push(i)),
        chain_end(nodes, id, path.push(i)) == nodes[i].id,
    decreases path.len(),
{
    let longer = path.push(i);
    if path.len() == 0 {
        assert(longer.drop_first() =~= Seq::empty());
        assert(is_chain(nodes, nodes[i].id, Seq::empty()));
        assert(chain_end(nodes, nodes[i].id, Seq::empty()) == nodes[i].id);
    } else {
        lemma_chain_extended(nodes, nodes[path[0]].id, path.drop_first(), i);
        assert(longer.drop_first() =~= path.drop_first().push(i));
    }
}

proof fn lemma_list_member_ids(
    nodes: Seq<CommentNodeView>,
    list: Seq<CommentNodeView>,
    levels: nat,
    j: int,
)
    requires
        0 <= j < list.len(),
    ensures
        ids_below(nodes, list[j].id, levels).insert(list[j].id).subset_of(
            ids_of_list(nodes, list, levels),
        ),
    decreases list.len(),
{
    if j < list.len() - 1 {
        lemma_list_member_ids(nodes, list.drop_last(), levels, j);
        assert(list.drop_last()[j] == list[j]);
    }
}

proof fn lemma_chain_in_ids(
    nodes: Seq<CommentNodeView>,
    id: CommentId,
    levels: nat,
    path: Seq<int>,
)
    requires
        is_chain(nodes, id, path),
        0 < path.len() <= levels,
    ensures
        ids_below(nodes, id, levels).contains(chain_end(nodes, id, path)),
    decreases path.len(),
{
    let kids = thread::children_of(nodes, id);
    let first = nodes[path[0]];
    assert(nodes.contains(first));
    lemma_children_contain(nodes, id, first);
    let j = choose|j: int| 0 <= j < kids.len() && kids[j] == first;
    lemma_list_member_ids(nodes, kids, (levels - 1) as nat, j);
    let rest = path.drop_first();
    if rest.len() > 0 {
        lemma_chain_in_ids(nodes, first.id, (levels - 1) as nat, rest);
    } else {
        assert(chain_end(nodes, first.id, rest) == first.id);
    }
}

/// In a thread whose nodes have distinct identifiers, the number of
/// descendants of a node is the number of nodes whose chain of parents reaches
/// it, wherever the walk below it comes to an end.
pub proof fn lemma_descendant_count(nodes: Seq<CommentNodeView>, id: CommentId)
    requires
        node_ids_distinct(nodes),
        walk_ends(nodes, id),
    ensures
        descendant_positions(nodes, id).finite(),
        descendant_count(nodes, id) == descendant_positions(nodes, id).len(),
        thread::node_index(nodes, id) matches Some(own) ==> !descendant_positions(
            nodes,
            id,
        ).contains(own),
{
    let all = vstd::set_lib::set_int_range(0, nodes.len() as int);
    let below = descendant_positions(nodes, id);
    let name = |i: int| nodes[i].id;
    let ids = ids_below(nodes, id, nodes.len());
    vstd::set_lib::lemma_int_range(0, nodes.len() as int);
    vstd::set_lib::lemma_len_subset(below, all);
    lemma_walk_ends_within_nodes(nodes, id);
    lemma_size_is_ids(nodes, id, nodes.len());
    assert forall|x: CommentId| ids.contains(x) implies below.map(name).contains(x) by {
        let path = lemma_ids_below_chain(nodes, id, nodes.len(), x);
        let last = path.len() - 1;
        lemma_chain_reaches(nodes, id, path, last);
        lemma_chain_split(nodes, id, path, path.len() as int);
        assert(path.take(path.len() as int) =~= path);
        assert(reaches(nodes, path[last], id));
        assert(below.contains(path[last]));
        assert(name(path[last]) == x);
    }
    assert forall|x: CommentId| below.map(name).contains(x) implies ids.contains(x) by {
        let i = choose|i: int| below.contains(i) && name(i) == x;
        let steps = choose|steps: nat| reaches_within(nodes, i, id, steps);
        let path = lemma_reaches_chain(nodes, i, id, steps);
        lemma_shallow_along_chain(nodes, id, nodes.len(), path);
        lemma_chain_in_ids(nodes, id, nodes.len(), path);
    }
    assert(below.map(name) =~= ids);
    assert forall|a: int, b: int|
        below.contains(a) && below.contains(b) && #[trigger] name(a) == #[trigger] name(b) implies a
        == b by {
        assert(nodes[a].id == nodes[b].id);
    }
    vstd::set_lib::lemma_map_size(below, ids, name);
    thread::lemma_node_index(nodes, id);
    if thread::node_index(nodes, id) is Some {
        let own = thread::node_index(nodes, id)->0;
        if below.contains(own) {
            let steps = choose|steps: nat| reaches_within(nodes, own, id, steps);
            let path = lemma_reaches_chain(nodes, own, id, steps);
            lemma_no_cycle(nodes, id, nodes.len(), path);
        }
    }
}

/// The nodes of a list together with all of their descendants.
pub open spec fn total_of(nodes: Seq<CommentNodeView>, list: Seq<CommentNodeView>) -> nat
    decreases list.len(),
{
    if list.len() == 0 {
        0
    } else {
        total_of(nodes, list.drop_last()) + 1 + descendant_count(nodes, list.last().id)
    }
}

/// The descendants of a node are its children and all of their descendants; a
/// node without replies has none.
pub proof fn lemma_descendants_by_children(nodes: Seq<CommentNodeView>, id: CommentId)
    requires
        walk_ends(nodes, id),
    ensures
        descendant_count(nodes, id) == total_of(nodes, thread::children_of(nodes, id)),
        thread::children_of(nodes, id).len() == 0 ==> descendant_count(nodes, id) == 0,
{
    let kids = thread::children_of(nodes, id);
    lemma_walk_ends_within_nodes(nodes, id);
    lemma_shallow_by_children(nodes, id, nodes.len());
    if nodes.len() > 0 {
        let below = (nodes.len() - 1) as nat;
        assert forall|j: int| 0 <= j < kids.len() implies size_below(
            nodes,
            (#[trigger] kids[j]).id,
            below,
        ) == size_below(nodes, kids[j].id, nodes.len()) by {
            lemma_size_below_settled(nodes, kids[j].id, below, nodes.len());
        }
        lemma_same_sizes(nodes, kids, below, nodes.len());
    } else {
        assert(thread::replies_to(nodes, id).len() == 0);
        assert(kids.len() == 0);
    }
    lemma_total_of(nodes, kids);
}

proof fn lemma_total_of(nodes: Seq<CommentNodeView>, list: Seq<CommentNodeView>)
    ensures
        total_of(nodes, list) == size_of_list(nodes, list, nodes.len()),
    decreases list.len(),
{
    if list.len() > 0 {
        lemma_total_of(nodes, list.drop_last());
    }
}

} // verus!
