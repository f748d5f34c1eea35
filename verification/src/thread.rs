//! Comment threads and the reply tree that their nodes form.

use vstd::prelude::*;
#[allow(unused_imports)]
use crate::comment;
use crate::comment::{
    ChangeId, CommentAnchor, CommentAnchorView, CommentKind, CommentNode, CommentNodeView,
    CommentStatus, RelPath, clone_change,
};
use crate::ids::{CommentId, ThreadId};

verus! {

/// A comment thread: a root comment plus a tree of replies, anchored to a
/// range in one file.
#[derive(Debug)]
pub struct CommentThread {
    pub id: ThreadId,
    /// The change under review that the thread belongs to; `None` for a
    /// local-only thread.
    pub change_id: Option<ChangeId>,
    /// Worktree-relative path of the commented file.
    pub file: RelPath,
    pub anchor: CommentAnchor,
    pub kind: CommentKind,
    pub status: CommentStatus,
    /// Flat node list; the tree is formed via `CommentNode::parent_id`.
    pub nodes: Vec<CommentNode>,
    pub collapsed: bool,
}

/// The mathematical value of a [`CommentThread`].
#[verifier::ext_equal]
pub struct CommentThreadView {
    pub id: ThreadId,
    pub change_id: Option<Seq<char>>,
    pub file: Seq<char>,
    pub anchor: CommentAnchorView,
    pub kind: CommentKind,
    pub status: CommentStatus,
    pub nodes: Seq<CommentNodeView>,
    pub collapsed: bool,
}

/// The values of a list of nodes.
pub open spec fn node_views(nodes: Seq<CommentNode>) -> Seq<CommentNodeView> {
    nodes.map_values(|node: CommentNode| node@)
}

/// The values of a list of borrowed nodes.
pub open spec fn node_ref_views(nodes: Seq<&CommentNode>) -> Seq<CommentNodeView> {
    nodes.map_values(|node: &CommentNode| node@)
}

/// The values of a list of threads.
pub open spec fn thread_views(threads: Seq<CommentThread>) -> Seq<CommentThreadView> {
    threads.map_values(|thread: CommentThread| thread@)
}

/// The values of a list of borrowed threads.
pub open spec fn thread_ref_views(threads: Seq<&CommentThread>) -> Seq<CommentThreadView> {
    threads.map_values(|thread: &CommentThread| thread@)
}

impl View for CommentThread {
    type V = CommentThreadView;

    open spec fn view(&self) -> CommentThreadView {
        CommentThreadView {
            id: self.id,
            change_id: comment::change_text(self.change_id),
            file: self.file@,
            anchor: self.anchor@,
            kind: self.kind,
            status: self.status,
            nodes: node_views(self.nodes@),
            collapsed: self.collapsed,
        }
    }
}

/// Copies a list of nodes.
pub fn clone_nodes(nodes: &Vec<CommentNode>) -> (r: Vec<CommentNode>)
    ensures
        node_views(r@) == node_views(nodes@),
{
    let mut out: Vec<CommentNode> = Vec::new();
    for i in 0..nodes.len()
        invariant
            out@.len() == i,
            forall|j: int| 0 <= j < i ==> (#[trigger] out@[j])@ == nodes@[j]@,
    {
        out.push(nodes[i].clone());
    }
    proof {
        assert(node_views(out@) =~= node_views(nodes@));
    }
    out
}

impl Clone for CommentThread {
    fn clone(&self) -> (r: Self)
        ensures
            r@ == self@,
    {
        CommentThread {
            id: self.id,
            change_id: clone_change(&self.change_id),
            file: self.file.clone(),
            anchor: self.anchor.clone(),
            kind: self.kind,
            status: self.status,
            nodes: clone_nodes(&self.nodes),
            collapsed: self.collapsed,
        }
    }
}

/// The position of the first node without a parent.
pub open spec fn root_index(nodes: Seq<CommentNodeView>) -> Option<int>
    decreases nodes.len(),
{
    if nodes.len() == 0 {
        None
    } else {
        match root_index(nodes.drop_last()) {
            Some(i) => Some(i),
            None => if nodes.last().parent_id is None {
                Some(nodes.len() - 1)
            } else {
                None
            },
        }
    }
}

/// The position of the first node with an identifier.
pub open spec fn node_index(nodes: Seq<CommentNodeView>, id: CommentId) -> Option<int>
    decreases nodes.len(),
{
    if nodes.len() == 0 {
        None
    } else {
        match node_index(nodes.drop_last(), id) {
            Some(i) => Some(i),
            None => if nodes.last().id == id {
                Some(nodes.len() - 1)
            } else {
                None
            },
        }
    }
}

/// The position of the first node without a parent is the least one.
pub proof fn lemma_root_index(nodes: Seq<CommentNodeView>)
    ensures
        match root_index(nodes) {
            Some(i) => {
                &&& 0 <= i < nodes.len()
                &&& nodes[i].parent_id is None
                &&& forall|j: int| 0 <= j < i ==> (#[trigger] nodes[j]).parent_id is Some
            },
            None => forall|j: int| 0 <= j < nodes.len() ==> (#[trigger] nodes[j]).parent_id is Some,
        },
    decreases nodes.len(),
{
    if nodes.len() > 0 {
        lemma_root_index(nodes.drop_last());
        assert forall|j: int| 0 <= j < nodes.len() - 1 implies #[trigger] nodes[j]
            == nodes.drop_last()[j] by {}
    }
}

/// The position of the first node with an identifier is the least one.
pub proof fn lemma_node_index(nodes: Seq<CommentNodeView>, id: CommentId)
    ensures
        match node_index(nodes, id) {
            Some(i) => {
                &&& 0 <= i < nodes.len()
                &&& nodes[i].id == id
                &&& forall|j: int| 0 <= j < i ==> (#[trigger] nodes[j]).id != id
            },
            None => forall|j: int| 0 <= j < nodes.len() ==> (#[trigger] nodes[j]).id != id,
        },
    decreases nodes.len(),
{
    if nodes.len() > 0 {
        lemma_node_index(nodes.drop_last(), id);
        assert forall|j: int| 0 <= j < nodes.len() - 1 implies #[trigger] nodes[j]
            == nodes.drop_last()[j] by {}
    }
}

/// Finds the first node with an identifier.
pub fn find_node(nodes: &Vec<CommentNode>, id: CommentId) -> (r: Option<usize>)
    ensures
        match r {
            Some(i) => node_index(node_views(nodes@), id) == Some(i as int) && i < nodes.len(),
            None => node_index(node_views(nodes@), id) is None,
        },
{
    let ghost views = node_views(nodes@);
    for i in 0..nodes.len()
        invariant
            views == node_views(nodes@),
            forall|j: int| 0 <= j < i ==> (#[trigger] views[j]).id != id,
    {
        if nodes[i].id == id {
            proof {
                lemma_node_index(views, id);
                assert(views[i as int].id == id);
            }
            return Some(i);
        }
    }
    proof {
        lemma_node_index(views, id);
    }
    None
}

/// The nodes that reply to `parent`, in list order.
pub open spec fn replies_to(nodes: Seq<CommentNodeView>, parent: CommentId) -> Seq<CommentNodeView>
    decreases nodes.len(),
{
    if nodes.len() == 0 {
        Seq::empty()
    } else if nodes.last().parent_id == Some(parent) {
        replies_to(nodes.drop_last(), parent).push(nodes.last())
    } else {
        replies_to(nodes.drop_last(), parent)
    }
}

/// A list ordered by age with one more node put behind every node that is at
/// least as old.
pub open spec fn insert_by_age(
    ordered: Seq<CommentNodeView>,
    node: CommentNodeView,
) -> Seq<CommentNodeView>
    decreases ordered.len(),
{
    if ordered.len() > 0 && ordered.last().created_at > node.created_at {
        insert_by_age(ordered.drop_last(), node).push(ordered.last())
    } else {
        ordered.push(node)
    }
}

/// The nodes from oldest to newest; nodes of the same age keep their order.
pub open spec fn oldest_first(nodes: Seq<CommentNodeView>) -> Seq<CommentNodeView>
    decreases nodes.len(),
{
    if nodes.len() == 0 {
        Seq::empty()
    } else {
        insert_by_age(oldest_first(nodes.drop_last()), nodes.last())
    }
}

/// The direct replies to `parent`, oldest first.
pub open spec fn children_of(
    nodes: Seq<CommentNodeView>,
    parent: CommentId,
) -> Seq<CommentNodeView> {
    oldest_first(replies_to(nodes, parent))
}

proof fn lemma_insert_by_age_at(ordered: Seq<CommentNodeView>, node: CommentNodeView, pos: int)
    requires
        0 <= pos <= ordered.len(),
        forall|j: int| pos <= j < ordered.len() ==> (#[trigger] ordered[j]).created_at
            > node.created_at,
        pos == 0 || ordered[pos - 1].created_at <= node.created_at,
    ensures
        insert_by_age(ordered, node) == ordered.insert(pos, node),
    decreases ordered.len(),
{
    if pos == ordered.len() {
        assert(ordered.insert(pos, node) =~= ordered.push(node));
    } else {
        let rest = ordered.drop_last();
        lemma_insert_by_age_at(rest, node, pos);
        assert(ordered.insert(pos, node) =~= rest.insert(pos, node).push(ordered.last()));
    }
}

impl CommentThread {
    /// The root comment of the thread, if it has one.
    pub fn root(&self) -> (r: Option<&CommentNode>)
        ensures
            match r {
                Some(node) => {
                    &&& root_index(self@.nodes) is Some
                    &&& node@ == self@.nodes[root_index(self@.nodes)->0]
                },
                None => root_index(self@.nodes) is None,
            },
    {
        let ghost views = self@.nodes;
        for i in 0..self.nodes.len()
            invariant
                views == node_views(self.nodes@),
                forall|j: int| 0 <= j < i ==> (#[trigger] views[j]).parent_id is Some,
        {
            if self.nodes[i].parent_id.is_none() {
                proof {
                    lemma_root_index(views);
                    assert(views[i as int].parent_id is None);
                }
                return Some(&self.nodes[i]);
            }
        }
        proof {
            lemma_root_index(views);
        }
        None
    }

    /// Direct replies to the given node, oldest first.
    pub fn children(&self, parent: CommentId) -> (r: Vec<&CommentNode>)
        ensures
            node_ref_views(r@) == children_of(self@.nodes, parent),
    {
        let mut out: Vec<&CommentNode> = Vec::new();
        let ghost views = self@.nodes;
        proof {
            assert(views.take(0) =~= Seq::empty());
            assert(node_ref_views(out@) =~= Seq::empty());
        }
        for i in 0..self.nodes.len()
            invariant
                views == node_views(self.nodes@),
                node_ref_views(out@) == children_of(views.take(i as int), parent),
        {
            proof {
                assert(views.take(i + 1).drop_last() =~= views.take(i as int));
                assert(views.take(i + 1).last() == self.nodes@[i as int]@);
            }
            let node = &self.nodes[i];
            if node.parent_id == Some(parent) {
                let ghost before = node_ref_views(out@);
                let mut pos: usize = out.len();
                while pos > 0 && out[pos - 1].created_at > node.created_at
                    invariant
                        pos <= out.len(),
                        before == node_ref_views(out@),
                        forall|j: int| pos <= j < out.len() ==> (#[trigger] before[j]).created_at
                            > node.created_at,
                    decreases pos,
                {
                    proof {
                        assert(before[pos - 1] == out@[pos - 1]@);
                    }
                    pos = pos - 1;
                }
                proof {
                    if pos > 0 {
                        assert(before[pos - 1] == out@[pos - 1]@);
                    }
                    lemma_insert_by_age_at(before, node@, pos as int);
                    let replies = replies_to(views.take(i as int), parent);
                    assert(replies.push(node@).drop_last() =~= replies);
                    assert(node_ref_views(out@.insert(pos as int, node)) =~= before.insert(
                        pos as int,
                        node@,
                    ));
                }
                out.insert(pos, node);
            }
        }
        proof {
            assert(views.take(views.len() as int) =~= views);
        }
        out
    }
}

} // verus!
