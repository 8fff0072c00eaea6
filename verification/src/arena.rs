//! The arena that the document tree is built in: how a node's subtree is read
//! off it, the invariants that hold of it while the parser works, and the
//! proofs that each of the parser's steps keeps them.

use crate::dom::{child_appended, leaf, top_closed, Element, ElementView, NodeView, TreeNode};
use crate::text::is_blank;
use vstd::prelude::*;

verus! {

/// The node with the index `i` in the arena `nodes`, with all that hangs
/// below it.
pub open spec fn subtree(nodes: Seq<TreeNode>, i: int) -> NodeView
    decreases nodes.len() - i, nodes[i].children@.len() + 1,
{
    NodeView { value: nodes[i].value@, children: forest(nodes, nodes[i].children@, i) }
}

/// The subtrees of the nodes that `children` lists, each of which stands
/// after `parent` in the arena.
pub open spec fn forest(nodes: Seq<TreeNode>, children: Seq<usize>, parent: int) -> Seq<NodeView>
    decreases nodes.len() - parent, children.len(),
{
    if children.len() == 0 {
        Seq::empty()
    } else {
        let c = children.last() as int;
        forest(nodes, children.drop_last(), parent).push(
            if parent < c < nodes.len() {
                subtree(nodes, c)
            } else {
                leaf(ElementView::Text(Seq::empty()))
            },
        )
    }
}

/// Every child stands after its parent in the arena.
pub open spec fn children_follow(nodes: Seq<TreeNode>) -> bool {
    forall|p: int, j: int|
        0 <= p < nodes.len() && 0 <= j < nodes[p].children@.len() ==> p
            < #[trigger] nodes[p].children@[j] < nodes.len()
}

/// The invariants of a finished tree: node 0 is the one root; every other
/// node has a parent before it, and stands exactly once among that parent's
/// children and nowhere else; text nodes are leaves and never blank.
pub open spec fn arena_well_formed(nodes: Seq<TreeNode>) -> bool {
    &&& nodes.len() > 0
    &&& nodes[0].parent is None
    &&& children_follow(nodes)
    &&& all_attached(nodes)
    &&& children_own(nodes)
    &&& children_sorted(nodes)
    &&& texts_are_leaves(nodes)
}

/// Every node but the root has a parent before it and stands among that
/// parent's children.
pub open spec fn all_attached(nodes: Seq<TreeNode>) -> bool {
    forall|i: int|
        0 < i < nodes.len() ==> (#[trigger] nodes[i].parent matches Some(p) && p < i && lists(
            nodes[p as int].children@,
            i,
        ))
}

/// The subtrees of the first `j + 1` children of a node are those of the
/// first `j`, and then the subtree of the child that comes next.
pub(crate) proof fn lemma_forest_next(nodes: Seq<TreeNode>, index: int, j: int)
    requires
        arena_well_formed(nodes),
        0 <= index < nodes.len(),
        0 <= j < nodes[index].children@.len(),
    ensures
        ({
            let kids = nodes[index].children@;
            let before = forest(nodes, kids.take(j), index);
            let next = subtree(nodes, kids[j] as int);
            &&& index < kids[j] < nodes.len()
            &&& forest(nodes, kids.take(j + 1), index) == before.push(next)
            &&& before.push(next).drop_last() == before
            &&& before.push(next).last() == next
        }),
{
    let kids = nodes[index].children@;
    let before = forest(nodes, kids.take(j), index);
    assert(index < nodes[index].children@[j] < nodes.len());
    assert(kids.take(j + 1).drop_last() =~= kids.take(j));
    assert(kids.take(j + 1).last() == kids[j]);
    assert(before.push(subtree(nodes, kids[j] as int)).drop_last() =~= before);
}

/// Two arenas show the same subtree below every node of `good`, if they
/// agree on each such node and `good` is closed under children.
proof fn lemma_subtree_agrees(
    a: Seq<TreeNode>,
    b: Seq<TreeNode>,
    good: spec_fn(int) -> bool,
    i: int,
)
    requires
        a.len() <= b.len(),
        good(i),
        forall|q: int| #[trigger]
            good(q) ==> 0 <= q < a.len() && a[q].value@ == b[q].value@ && a[q].children@
                == b[q].children@,
        forall|q: int, j: int|
            good(q) && 0 <= j < a[q].children@.len() ==> q < #[trigger] a[q].children@[j] < a.len()
                && good(a[q].children@[j] as int),
    ensures
        subtree(a, i) == subtree(b, i),
    decreases a.len() - i, a[i].children@.len() + 1,
{
    lemma_forest_agrees(a, b, good, a[i].children@, i);
}

/// The same of the subtrees that a list of good children names.
proof fn lemma_forest_agrees(
    a: Seq<TreeNode>,
    b: Seq<TreeNode>,
    good: spec_fn(int) -> bool,
    children: Seq<usize>,
    parent: int,
)
    requires
        a.len() <= b.len(),
        0 <= parent < a.len(),
        forall|q: int| #[trigger]
            good(q) ==> 0 <= q < a.len() && a[q].value@ == b[q].value@ && a[q].children@
                == b[q].children@,
        forall|q: int, j: int|
            good(q) && 0 <= j < a[q].children@.len() ==> q < #[trigger] a[q].children@[j] < a.len()
                && good(a[q].children@[j] as int),
        forall|j: int|
            0 <= j < children.len() ==> parent < #[trigger] children[j] < a.len() && good(
                children[j] as int,
            ),
    ensures
        forest(a, children, parent) == forest(b, children, parent),
    decreases a.len() - parent, children.len(),
{
    if children.len() > 0 {
        let front = children.drop_last();
        assert forall|j: int| 0 <= j < front.len() implies parent < #[trigger] front[j] < a.len()
            && good(front[j] as int) by {
            assert(front[j] == children[j]);
        }
        lemma_forest_agrees(a, b, good, front, parent);
        let c = children.last() as int;
        assert(c == children[children.len() - 1]);
        lemma_subtree_agrees(a, b, good, c);
    }
}

/// The list of open elements fits the arena: it is empty exactly as long
/// as the arena is, starts at node 0, and is strictly increasing.
pub open spec fn stack_fits(nodes: Seq<TreeNode>, stack: Seq<usize>) -> bool {
    &&& stack.len() == 0 <==> nodes.len() == 0
    &&& stack.len() > 0 ==> stack[0] == 0
    &&& forall|k: int| 0 <= k < stack.len() ==> #[trigger] stack[k] < nodes.len()
    &&& forall|a: int, b: int| 0 <= a < b < stack.len() ==> #[trigger] stack[a] < #[trigger] stack[b]
}

/// An open element is nobody's child yet.
pub open spec fn open_unattached(nodes: Seq<TreeNode>, stack: Seq<usize>) -> bool {
    forall|p: int, j: int, k: int|
        0 <= p < nodes.len() && 0 <= j < nodes[p].children@.len() && 0 <= k < stack.len()
            ==> #[trigger] nodes[p].children@[j] != #[trigger] stack[k]
}

/// What makes the open elements' subtrees independent of each other.
#[verifier::opaque]
pub open spec fn building(nodes: Seq<TreeNode>, stack: Seq<usize>) -> bool {
    &&& children_follow(nodes)
    &&& stack_fits(nodes, stack)
    &&& open_unattached(nodes, stack)
}

/// The open elements are tags, and each but the first has the one before it
/// as its parent.
pub open spec fn open_chain(nodes: Seq<TreeNode>, stack: Seq<usize>) -> bool {
    &&& nodes.len() > 0 ==> nodes[0].parent is None
    &&& forall|k: int| 0 <= k < stack.len() ==> nodes[#[trigger] stack[k] as int].value is Tag
    &&& forall|k: int|
        0 < k < stack.len() ==> nodes[#[trigger] stack[k] as int].parent == Some(stack[k - 1])
}

/// The children that an open element has so far stand before the open
/// elements inside it.
pub open spec fn open_children_before(nodes: Seq<TreeNode>, stack: Seq<usize>) -> bool {
    forall|a: int, b: int, j: int|
        0 <= a < b < stack.len() && 0 <= j < nodes[stack[a] as int].children@.len()
            ==> #[trigger] nodes[stack[a] as int].children@[j] < #[trigger] stack[b]
}

/// Whether the list `indices` holds the index `i`.
pub open spec fn lists(indices: Seq<usize>, i: int) -> bool {
    exists|k: int| 0 <= k < indices.len() && indices[k] == i
}

/// Every node but the root has a parent before it, and is open or stands
/// among that parent's children.
pub open spec fn parents_known(nodes: Seq<TreeNode>, stack: Seq<usize>) -> bool {
    forall|i: int|
        0 < i < nodes.len() ==> (#[trigger] nodes[i].parent matches Some(p) && p < i && (lists(
            stack,
            i,
        ) || lists(nodes[p as int].children@, i)))
}

/// Every child names as its parent the node that lists it.
pub open spec fn children_own(nodes: Seq<TreeNode>) -> bool {
    forall|p: int, j: int|
        0 <= p < nodes.len() && 0 <= j < nodes[p].children@.len() ==> has_parent(
            nodes[(#[trigger] nodes[p].children@[j]) as int],
            p,
        )
}

/// Whether `node` names `p` as its parent.
pub open spec fn has_parent(node: TreeNode, p: int) -> bool {
    node.parent matches Some(q) && q == p
}

/// Every list of children is strictly increasing, so that no node stands in
/// it twice.
pub open spec fn children_sorted(nodes: Seq<TreeNode>) -> bool {
    forall|p: int, j: int, k: int|
        0 <= p < nodes.len() && 0 <= j < k < nodes[p].children@.len()
            ==> #[trigger] nodes[p].children@[j] < #[trigger] nodes[p].children@[k]
}

/// Text nodes have no children and are never blank.
pub open spec fn texts_are_leaves(nodes: Seq<TreeNode>) -> bool {
    forall|i: int|
        0 <= i < nodes.len() ==> (#[trigger] nodes[i].value matches Element::Text(s)
            ==> nodes[i].children@.len() == 0 && !is_blank(s@))
}

/// The parent links of an arena under construction: those of a finished
/// tree, but that an open element does not stand among its parent's
/// children yet.
#[verifier::opaque]
pub open spec fn linked(nodes: Seq<TreeNode>, stack: Seq<usize>) -> bool {
    &&& open_chain(nodes, stack)
    &&& open_children_before(nodes, stack)
    &&& parents_known(nodes, stack)
    &&& children_own(nodes)
    &&& children_sorted(nodes)
    &&& texts_are_leaves(nodes)
}

/// The open elements of an arena under construction, each with what hangs
/// below it so far.
pub open spec fn open_subtrees(nodes: Seq<TreeNode>, stack: Seq<usize>) -> Seq<NodeView> {
    Seq::new(stack.len(), |k: int| subtree(nodes, stack[k] as int))
}

/// `after` is `before` with one more node, which has no children.
pub open spec fn node_pushed(before: Seq<TreeNode>, after: Seq<TreeNode>) -> bool {
    &&& after.len() == before.len() + 1
    &&& after.last().children@.len() == 0
    &&& forall|i: int| 0 <= i < before.len() ==> #[trigger] after[i] == before[i]
}

/// `after` is `before` but that `child` has become the last child of `parent`.
pub open spec fn child_added(
    before: Seq<TreeNode>,
    after: Seq<TreeNode>,
    parent: int,
    child: usize,
) -> bool {
    &&& after.len() == before.len()
    &&& 0 <= parent < before.len()
    &&& after[parent].value == before[parent].value
    &&& after[parent].parent == before[parent].parent
    &&& after[parent].children@ == before[parent].children@.push(child)
    &&& forall|i: int| 0 <= i < before.len() && i != parent ==> #[trigger] after[i] == before[i]
}

/// Opening an element keeps the arena's shape, and adds the element,
/// without children, to the open ones.
pub(crate) proof fn lemma_opened(
    nodes0: Seq<TreeNode>,
    stack0: Seq<usize>,
    nodes1: Seq<TreeNode>,
    index: usize,
)
    requires
        building(nodes0, stack0),
        node_pushed(nodes0, nodes1),
        index == nodes0.len(),
    ensures
        building(nodes1, stack0.push(index)),
        open_subtrees(nodes1, stack0.push(index)) == open_subtrees(nodes0, stack0).push(
            leaf(nodes1.last().value@),
        ),
{
    reveal(building);
    let n = index as int;
    let stack1 = stack0.push(index);
    let good = |q: int| 0 <= q < nodes0.len();
    assert forall|k: int| 0 <= k < stack0.len() implies subtree(nodes1, stack1[k] as int)
        == subtree(nodes0, stack0[k] as int) by {
        lemma_subtree_agrees(nodes0, nodes1, good, stack0[k] as int);
    }
    assert(forest(nodes1, nodes1[n].children@, n) =~= Seq::empty());
    assert(open_subtrees(nodes1, stack1) =~= open_subtrees(nodes0, stack0).push(
        leaf(nodes1.last().value@),
    ));
    assert(children_follow(nodes1)) by {
        assert forall|p: int, j: int|
            0 <= p < nodes1.len() && 0 <= j < nodes1[p].children@.len() implies p
            < #[trigger] nodes1[p].children@[j] < nodes1.len() by {
            assert(nodes1[p] == nodes0[p]);
            assert(p < nodes0[p].children@[j] < nodes0.len());
        }
    }
    assert(open_unattached(nodes1, stack1)) by {
        assert forall|p: int, j: int, k: int|
            0 <= p < nodes1.len() && 0 <= j < nodes1[p].children@.len() && 0 <= k
                < stack1.len() implies #[trigger] nodes1[p].children@[j] != #[trigger] stack1[k] by {
            assert(nodes1[p] == nodes0[p]);
            assert(p < nodes0[p].children@[j] < nodes0.len());
            if k < stack0.len() {
                assert(nodes0[p].children@[j] != stack0[k]);
            }
        }
    }
}

/// Attaching a new leaf keeps the arena's shape, and makes the leaf the
/// last child of the innermost open element.
pub(crate) proof fn lemma_attached(
    nodes0: Seq<TreeNode>,
    stack: Seq<usize>,
    nodes1: Seq<TreeNode>,
    nodes2: Seq<TreeNode>,
    index: usize,
)
    requires
        building(nodes0, stack),
        stack.len() > 0,
        node_pushed(nodes0, nodes1),
        index == nodes0.len(),
        child_added(nodes1, nodes2, stack.last() as int, index),
    ensures
        building(nodes2, stack),
        open_subtrees(nodes2, stack) == child_appended(
            open_subtrees(nodes0, stack),
            leaf(nodes1.last().value@),
        ),
{
    reveal(building);
    let t = stack.last() as int;
    let n = index as int;
    let last = stack.len() - 1;
    assert(stack[last] == t);
    let good = |q: int| 0 <= q < nodes0.len() && q != t;
    assert forall|q: int, j: int| good(q) && 0 <= j < nodes0[q].children@.len() implies q
        < #[trigger] nodes0[q].children@[j] < nodes0.len() && good(
        nodes0[q].children@[j] as int,
    ) by {
        assert(nodes0[q].children@[j] != stack[last]);
    }
    assert forall|q: int| #[trigger] good(q) implies 0 <= q < nodes0.len() && nodes0[q].value@
        == nodes2[q].value@ && nodes0[q].children@ == nodes2[q].children@ by {
        assert(nodes1[q] == nodes0[q]);
        assert(nodes2[q] == nodes1[q]);
    }
    assert forall|k: int| 0 <= k < last implies subtree(nodes2, stack[k] as int) == subtree(
        nodes0,
        stack[k] as int,
    ) by {
        assert(stack[k] < stack[last]);
        lemma_subtree_agrees(nodes0, nodes2, good, stack[k] as int);
    }
    let kids = nodes0[t].children@;
    assert(nodes1[t] == nodes0[t]);
    assert(nodes2[t].children@ == kids.push(index));
    assert(kids.push(index).drop_last() =~= kids);
    lemma_forest_agrees(nodes0, nodes2, good, kids, t);
    assert(nodes2[n] == nodes1[n]);
    assert(forest(nodes2, nodes2[n].children@, n) =~= Seq::empty());
    assert(subtree(nodes2, n) == leaf(nodes1.last().value@));
    assert(subtree(nodes2, t).children == subtree(nodes0, t).children.push(
        leaf(nodes1.last().value@),
    ));
    assert(open_subtrees(nodes2, stack) =~= child_appended(
        open_subtrees(nodes0, stack),
        leaf(nodes1.last().value@),
    ));
    assert(children_follow(nodes2)) by {
        assert forall|p: int, j: int|
            0 <= p < nodes2.len() && 0 <= j < nodes2[p].children@.len() implies p
            < #[trigger] nodes2[p].children@[j] < nodes2.len() by {
            if p == t {
                if j < kids.len() {
                    assert(nodes2[p].children@[j] == nodes0[p].children@[j]);
                }
            } else {
                assert(nodes2[p] == nodes1[p]);
                if p < n {
                    assert(nodes1[p] == nodes0[p]);
                    assert(p < nodes0[p].children@[j] < nodes0.len());
                }
            }
        }
    }
    assert(open_unattached(nodes2, stack)) by {
        assert forall|p: int, j: int, k: int|
            0 <= p < nodes2.len() && 0 <= j < nodes2[p].children@.len() && 0 <= k
                < stack.len() implies #[trigger] nodes2[p].children@[j] != #[trigger] stack[k] by {
            if p == t {
                if j < kids.len() {
                    assert(nodes2[p].children@[j] == nodes0[p].children@[j]);
                }
            } else {
                assert(nodes2[p] == nodes1[p]);
                if p < n {
                    assert(nodes1[p] == nodes0[p]);
                    assert(nodes0[p].children@[j] != stack[k]);
                }
            }
        }
    }
}

/// Closing the innermost open element keeps the arena's shape, and makes
/// the element the last child of the one around it.
pub(crate) proof fn lemma_closed(nodes0: Seq<TreeNode>, stack0: Seq<usize>, nodes1: Seq<TreeNode>)
    requires
        building(nodes0, stack0),
        stack0.len() >= 2,
        child_added(nodes0, nodes1, stack0[stack0.len() - 2] as int, stack0.last()),
    ensures
        building(nodes1, stack0.drop_last()),
        open_subtrees(nodes1, stack0.drop_last()) == top_closed(open_subtrees(nodes0, stack0)),
{
    reveal(building);
    let stack1 = stack0.drop_last();
    let last = stack1.len() - 1;
    let p = stack0[last] as int;
    let child = stack0[last + 1];
    let c = child as int;
    assert(stack0[last] < stack0[last + 1]);
    let good = |q: int| 0 <= q < nodes0.len() && q != p;
    assert forall|q: int, j: int| good(q) && 0 <= j < nodes0[q].children@.len() implies q
        < #[trigger] nodes0[q].children@[j] < nodes0.len() && good(
        nodes0[q].children@[j] as int,
    ) by {
        assert(nodes0[q].children@[j] != stack0[last]);
    }
    assert forall|q: int| #[trigger] good(q) implies 0 <= q < nodes0.len() && nodes0[q].value@
        == nodes1[q].value@ && nodes0[q].children@ == nodes1[q].children@ by {
        assert(nodes1[q] == nodes0[q]);
    }
    assert forall|k: int| 0 <= k < last implies subtree(nodes1, stack1[k] as int) == subtree(
        nodes0,
        stack0[k] as int,
    ) by {
        assert(stack0[k] < stack0[last]);
        lemma_subtree_agrees(nodes0, nodes1, good, stack0[k] as int);
    }
    let kids = nodes0[p].children@;
    assert(nodes1[p].children@ == kids.push(child));
    assert(kids.push(child).drop_last() =~= kids);
    lemma_forest_agrees(nodes0, nodes1, good, kids, p);
    assert(stack0[last + 1] < nodes0.len());
    lemma_subtree_agrees(nodes0, nodes1, good, c);
    assert(subtree(nodes1, p).children == subtree(nodes0, p).children.push(subtree(nodes0, c)));
    assert(open_subtrees(nodes1, stack1) =~= top_closed(open_subtrees(nodes0, stack0)));
    assert(children_follow(nodes1)) by {
        assert forall|q: int, j: int|
            0 <= q < nodes1.len() && 0 <= j < nodes1[q].children@.len() implies q
            < #[trigger] nodes1[q].children@[j] < nodes1.len() by {
            if q == p {
                if j < kids.len() {
                    assert(nodes1[q].children@[j] == nodes0[q].children@[j]);
                }
            } else {
                assert(nodes1[q] == nodes0[q]);
                assert(q < nodes0[q].children@[j] < nodes0.len());
            }
        }
    }
    assert(stack_fits(nodes1, stack1)) by {
        assert forall|k: int| 0 <= k < stack1.len() implies #[trigger] stack1[k] < nodes1.len() by {
            assert(stack0[k] < nodes0.len());
        }
        assert forall|a: int, b: int| 0 <= a < b < stack1.len() implies #[trigger] stack1[a]
            < #[trigger] stack1[b] by {
            assert(stack0[a] < stack0[b]);
        }
        assert(stack1[0] == stack0[0]);
    }
    assert(open_unattached(nodes1, stack1)) by {
        assert forall|q: int, j: int, k: int|
            0 <= q < nodes1.len() && 0 <= j < nodes1[q].children@.len() && 0 <= k
                < stack1.len() implies #[trigger] nodes1[q].children@[j] != #[trigger] stack1[k] by {
            assert(stack1[k] == stack0[k]);
            if q == p {
                if j < kids.len() {
                    assert(nodes1[q].children@[j] == nodes0[q].children@[j]);
                    assert(nodes0[q].children@[j] != stack0[k]);
                } else {
                    assert(stack0[k] < stack0[last + 1]);
                }
            } else {
                assert(nodes1[q] == nodes0[q]);
                assert(nodes0[q].children@[j] != stack0[k]);
            }
        }
    }
}

/// Opening an element keeps the chain of open elements.
proof fn lemma_opened_chain(
    nodes0: Seq<TreeNode>,
    stack0: Seq<usize>,
    nodes1: Seq<TreeNode>,
    index: usize,
)
    requires
        stack_fits(nodes0, stack0),
        open_chain(nodes0, stack0),
        node_pushed(nodes0, nodes1),
        index == nodes0.len(),
        nodes1.last().value is Tag,
        nodes1.last().parent == (if stack0.len() > 0 {
            Some(stack0.last())
        } else {
            None
        }),
    ensures
        open_chain(nodes1, stack0.push(index)),
{
    let stack1 = stack0.push(index);
    let last = stack0.len() as int;
    assert forall|k: int| 0 <= k < stack1.len() implies nodes1[#[trigger] stack1[k] as int].value
        is Tag by {
        if k < last {
            assert(nodes1[stack0[k] as int] == nodes0[stack0[k] as int]);
        }
    }
    assert forall|k: int| 0 < k < stack1.len() implies nodes1[#[trigger] stack1[k] as int].parent
        == Some(stack1[k - 1]) by {
        if k < last {
            assert(nodes1[stack0[k] as int] == nodes0[stack0[k] as int]);
            assert(stack1[k - 1] == stack0[k - 1]);
        }
    }
    if nodes0.len() > 0 {
        assert(nodes1[0] == nodes0[0]);
    }
}

/// Opening an element keeps the children of open elements before the
/// elements that are open inside them.
proof fn lemma_opened_before(
    nodes0: Seq<TreeNode>,
    stack0: Seq<usize>,
    nodes1: Seq<TreeNode>,
    index: usize,
)
    requires
        children_follow(nodes0),
        stack_fits(nodes0, stack0),
        open_children_before(nodes0, stack0),
        node_pushed(nodes0, nodes1),
        index == nodes0.len(),
    ensures
        open_children_before(nodes1, stack0.push(index)),
{
    let stack1 = stack0.push(index);
    let last = stack0.len() as int;
    assert forall|a: int, b: int, j: int|
        0 <= a < b < stack1.len() && 0 <= j < nodes1[stack1[a] as int].children@.len() implies
        #[trigger] nodes1[stack1[a] as int].children@[j] < #[trigger] stack1[b] by {
        assert(nodes1[stack0[a] as int] == nodes0[stack0[a] as int]);
        if b < last {
            assert(nodes0[stack0[a] as int].children@[j] < stack0[b]);
        } else {
            assert(nodes0[stack0[a] as int].children@[j] < nodes0.len());
        }
    }
}

/// Opening an element keeps every parent known.
proof fn lemma_opened_parents(
    nodes0: Seq<TreeNode>,
    stack0: Seq<usize>,
    nodes1: Seq<TreeNode>,
    index: usize,
)
    requires
        stack_fits(nodes0, stack0),
        parents_known(nodes0, stack0),
        node_pushed(nodes0, nodes1),
        index == nodes0.len(),
        nodes1.last().parent == (if stack0.len() > 0 {
            Some(stack0.last())
        } else {
            None
        }),
    ensures
        parents_known(nodes1, stack0.push(index)),
{
    let stack1 = stack0.push(index);
    let last = stack0.len() as int;
    assert forall|i: int| 0 < i < nodes1.len() implies (#[trigger] nodes1[i].parent matches Some(p)
        && p < i && (lists(stack1, i) || lists(nodes1[p as int].children@, i))) by {
        if i < nodes0.len() {
            assert(nodes1[i] == nodes0[i]);
            assert(nodes0[i].parent is Some);
            let p = nodes0[i].parent->0 as int;
            assert(nodes1[p] == nodes0[p]);
            if lists(stack0, i) {
                let k = choose|k: int| 0 <= k < stack0.len() && stack0[k] == i;
                assert(stack1[k] == i);
            }
        } else {
            assert(stack1[last] == i);
            assert(stack0[last - 1] < nodes0.len());
        }
    }
}

/// A new node changes nothing about the lists of children.
proof fn lemma_pushed_children(nodes0: Seq<TreeNode>, nodes1: Seq<TreeNode>)
    requires
        children_follow(nodes0),
        children_own(nodes0),
        children_sorted(nodes0),
        texts_are_leaves(nodes0),
        node_pushed(nodes0, nodes1),
    ensures
        children_own(nodes1),
        children_sorted(nodes1),
{
    assert forall|p: int, j: int|
        0 <= p < nodes1.len() && 0 <= j < nodes1[p].children@.len() implies has_parent(
        nodes1[(#[trigger] nodes1[p].children@[j]) as int],
        p,
    ) by {
        assert(nodes1[p] == nodes0[p]);
        let c = nodes0[p].children@[j] as int;
        assert(p < c < nodes0.len());
        assert(nodes1[c] == nodes0[c]);
    }
    assert forall|p: int, j: int, k: int|
        0 <= p < nodes1.len() && 0 <= j < k < nodes1[p].children@.len()
            implies #[trigger] nodes1[p].children@[j] < #[trigger] nodes1[p].children@[k] by {
        assert(nodes1[p] == nodes0[p]);
        assert(nodes0[p].children@[j] < nodes0[p].children@[k]);
    }
}

/// Opening an element keeps the parent links.
pub(crate) proof fn lemma_opened_linked(
    nodes0: Seq<TreeNode>,
    stack0: Seq<usize>,
    nodes1: Seq<TreeNode>,
    index: usize,
)
    requires
        building(nodes0, stack0),
        linked(nodes0, stack0),
        node_pushed(nodes0, nodes1),
        index == nodes0.len(),
        nodes1.last().value is Tag,
        nodes1.last().parent == (if stack0.len() > 0 {
            Some(stack0.last())
        } else {
            None
        }),
    ensures
        linked(nodes1, stack0.push(index)),
{
    reveal(building);
    reveal(linked);
    lemma_opened_chain(nodes0, stack0, nodes1, index);
    lemma_opened_before(nodes0, stack0, nodes1, index);
    lemma_opened_parents(nodes0, stack0, nodes1, index);
    lemma_pushed_children(nodes0, nodes1);
    assert forall|i: int| 0 <= i < nodes1.len() implies (#[trigger] nodes1[i].value matches Element::Text(
        s,
    ) ==> nodes1[i].children@.len() == 0 && !is_blank(s@)) by {
        if i < nodes0.len() {
            assert(nodes1[i] == nodes0[i]);
        }
    }
}

/// The empty arena, with no element open, has all the invariants.
pub(crate) proof fn lemma_nothing_built()
    ensures
        building(Seq::<TreeNode>::empty(), Seq::<usize>::empty()),
        linked(Seq::<TreeNode>::empty(), Seq::<usize>::empty()),
{
    reveal(building);
    reveal(linked);
}

/// Attaching a new leaf keeps the parent links.
pub(crate) proof fn lemma_attached_linked(
    nodes0: Seq<TreeNode>,
    stack: Seq<usize>,
    nodes1: Seq<TreeNode>,
    nodes2: Seq<TreeNode>,
    index: usize,
)
    requires
        building(nodes0, stack),
        linked(nodes0, stack),
        stack.len() > 0,
        node_pushed(nodes0, nodes1),
        index == nodes0.len(),
        child_added(nodes1, nodes2, stack.last() as int, index),
        nodes1.last().parent == Some(stack.last()),
        nodes1.last().value matches Element::Text(s) ==> !is_blank(s@),
    ensures
        linked(nodes2, stack),
{
    reveal(building);
    reveal(linked);
    let t = stack.last() as int;
    let n = index as int;
    let last = stack.len() - 1;
    assert(stack[last] == t);
    let kids = nodes0[t].children@;
    assert(nodes1[t] == nodes0[t]);
    assert(nodes2[n] == nodes1[n]);
    assert forall|i: int| 0 <= i < nodes0.len() && i != t implies #[trigger] nodes2[i]
        == nodes0[i] by {
        assert(nodes1[i] == nodes0[i]);
        assert(nodes2[i] == nodes1[i]);
    }
    assert forall|k: int| 0 <= k < stack.len() implies nodes2[#[trigger] stack[k] as int].value
        is Tag by {
        assert(nodes0[stack[k] as int].value is Tag);
    }
    assert forall|k: int| 0 < k < stack.len() implies nodes2[#[trigger] stack[k] as int].parent
        == Some(stack[k - 1]) by {
        assert(nodes0[stack[k] as int].parent == Some(stack[k - 1]));
    }
    assert forall|a: int, b: int, j: int|
        0 <= a < b < stack.len() && 0 <= j < nodes2[stack[a] as int].children@.len() implies
        #[trigger] nodes2[stack[a] as int].children@[j] < #[trigger] stack[b] by {
        assert(stack[a] < stack[b]);
        assert(stack[b] <= stack[last]) by {
            if b < last {
                assert(stack[b] < stack[last]);
            }
        }
        assert(nodes2[stack[a] as int] == nodes0[stack[a] as int]);
        assert(nodes0[stack[a] as int].children@[j] < stack[b]);
    }
    assert forall|i: int| 0 < i < nodes2.len() implies (#[trigger] nodes2[i].parent matches Some(p)
        && p < i && (lists(stack, i) || lists(nodes2[p as int].children@, i))) by {
        if i < nodes0.len() {
            assert(nodes0[i].parent is Some);
            assert(nodes2[i].parent == nodes0[i].parent);
            let p = nodes0[i].parent->0 as int;
            if !lists(stack, i) {
                let j = choose|j: int|
                    0 <= j < nodes0[p].children@.len() && nodes0[p].children@[j] == i;
                if p == t {
                    assert(nodes2[p].children@[j] == i);
                } else {
                    assert(nodes2[p].children@[j] == i);
                }
            }
        } else {
            assert(nodes2[t].children@[kids.len() as int] == i);
        }
    }
    assert forall|p: int, j: int|
        0 <= p < nodes2.len() && 0 <= j < nodes2[p].children@.len() implies has_parent(
        nodes2[(#[trigger] nodes2[p].children@[j]) as int],
        p,
    ) by {
        if p == t && j == kids.len() {
        } else if p < n {
            assert(nodes0[p].children@[j] == nodes2[p].children@[j]);
            let c = nodes0[p].children@[j] as int;
            assert(p < c < nodes0.len());
            assert(has_parent(nodes0[c], p));
            assert(nodes2[c].parent == nodes0[c].parent);
        }
    }
    assert forall|p: int, j: int, k: int|
        0 <= p < nodes2.len() && 0 <= j < k < nodes2[p].children@.len()
            implies #[trigger] nodes2[p].children@[j] < #[trigger] nodes2[p].children@[k] by {
        if p == t && k == kids.len() {
            assert(nodes0[p].children@[j] == nodes2[p].children@[j]);
            assert(p < nodes0[p].children@[j] < nodes0.len());
        } else if p < n {
            assert(nodes0[p].children@[j] == nodes2[p].children@[j]);
            assert(nodes0[p].children@[k] == nodes2[p].children@[k]);
        }
    }
    assert forall|i: int| 0 <= i < nodes2.len() implies (#[trigger] nodes2[i].value matches Element::Text(
        s,
    ) ==> nodes2[i].children@.len() == 0 && !is_blank(s@)) by {
        if i == t {
            assert(nodes0[stack[last] as int].value is Tag);
        } else if i < n {
            assert(nodes2[i] == nodes0[i]);
        }
    }
    assert(nodes2[0].parent == nodes0[0].parent);
}

/// Closing an element keeps the chain of open elements.
proof fn lemma_closed_chain(nodes0: Seq<TreeNode>, stack0: Seq<usize>, nodes1: Seq<TreeNode>)
    requires
        stack_fits(nodes0, stack0),
        open_chain(nodes0, stack0),
        stack0.len() >= 2,
        child_added(nodes0, nodes1, stack0[stack0.len() - 2] as int, stack0.last()),
    ensures
        open_chain(nodes1, stack0.drop_last()),
{
    let stack1 = stack0.drop_last();
    assert forall|k: int| 0 <= k < stack1.len() implies nodes1[#[trigger] stack1[k] as int].value
        is Tag by {
        assert(nodes0[stack0[k] as int].value is Tag);
    }
    assert forall|k: int| 0 < k < stack1.len() implies nodes1[#[trigger] stack1[k] as int].parent
        == Some(stack1[k - 1]) by {
        assert(nodes0[stack0[k] as int].parent == Some(stack0[k - 1]));
    }
    assert(nodes1[0].parent == nodes0[0].parent);
}

/// Closing an element keeps the children of open elements before the
/// elements that are open inside them.
proof fn lemma_closed_before(nodes0: Seq<TreeNode>, stack0: Seq<usize>, nodes1: Seq<TreeNode>)
    requires
        stack_fits(nodes0, stack0),
        open_children_before(nodes0, stack0),
        stack0.len() >= 2,
        child_added(nodes0, nodes1, stack0[stack0.len() - 2] as int, stack0.last()),
    ensures
        open_children_before(nodes1, stack0.drop_last()),
{
    let stack1 = stack0.drop_last();
    let last = stack1.len() - 1;
    assert forall|a: int, b: int, j: int|
        0 <= a < b < stack1.len() && 0 <= j < nodes1[stack1[a] as int].children@.len() implies
        #[trigger] nodes1[stack1[a] as int].children@[j] < #[trigger] stack1[b] by {
        assert(stack0[a] < stack0[b]);
        if b < last {
            assert(stack0[b] < stack0[last]);
        }
        assert(nodes1[stack0[a] as int] == nodes0[stack0[a] as int]);
        assert(nodes0[stack0[a] as int].children@[j] < stack0[b]);
    }
}

/// Closing an element keeps every parent known: the element now stands
/// among its parent's children.
proof fn lemma_closed_parents(nodes0: Seq<TreeNode>, stack0: Seq<usize>, nodes1: Seq<TreeNode>)
    requires
        stack_fits(nodes0, stack0),
        open_chain(nodes0, stack0),
        parents_known(nodes0, stack0),
        stack0.len() >= 2,
        child_added(nodes0, nodes1, stack0[stack0.len() - 2] as int, stack0.last()),
    ensures
        parents_known(nodes1, stack0.drop_last()),
{
    let stack1 = stack0.drop_last();
    let last = stack1.len() - 1;
    let p = stack0[last] as int;
    let c = stack0[last + 1] as int;
    let kids = nodes0[p].children@;
    assert forall|i: int| 0 < i < nodes1.len() implies (#[trigger] nodes1[i].parent matches Some(q)
        && q < i && (lists(stack1, i) || lists(nodes1[q as int].children@, i))) by {
        assert(nodes0[i].parent is Some);
        assert(nodes1[i].parent == nodes0[i].parent);
        let q = nodes0[i].parent->0 as int;
        if i == c {
            assert(nodes0[stack0[last + 1] as int].parent == Some(stack0[last]));
            assert(nodes1[p].children@[kids.len() as int] == i);
        } else if lists(stack0, i) {
            let k = choose|k: int| 0 <= k < stack0.len() && stack0[k] == i;
            assert(stack1[k] == i);
        } else {
            let j = choose|j: int|
                0 <= j < nodes0[q].children@.len() && nodes0[q].children@[j] == i;
            assert(nodes1[q].children@[j] == i);
        }
    }
}

/// Closing an element keeps every child with the parent that lists it.
proof fn lemma_closed_own(nodes0: Seq<TreeNode>, stack0: Seq<usize>, nodes1: Seq<TreeNode>)
    requires
        children_follow(nodes0),
        stack_fits(nodes0, stack0),
        open_chain(nodes0, stack0),
        children_own(nodes0),
        stack0.len() >= 2,
        child_added(nodes0, nodes1, stack0[stack0.len() - 2] as int, stack0.last()),
    ensures
        children_own(nodes1),
{
    let last = stack0.len() - 2;
    let p = stack0[last] as int;
    let c = stack0[last + 1] as int;
    let kids = nodes0[p].children@;
    assert forall|q: int, j: int|
        0 <= q < nodes1.len() && 0 <= j < nodes1[q].children@.len() implies has_parent(
        nodes1[(#[trigger] nodes1[q].children@[j]) as int],
        q,
    ) by {
        if q == p && j == kids.len() {
            assert(nodes0[stack0[last + 1] as int].parent == Some(stack0[last]));
            assert(nodes1[c].parent == nodes0[c].parent);
        } else {
            assert(nodes0[q].children@[j] == nodes1[q].children@[j]);
            let d = nodes0[q].children@[j] as int;
            assert(q < d < nodes0.len());
            assert(has_parent(nodes0[d], q));
            assert(nodes1[d].parent == nodes0[d].parent);
        }
    }
}

/// Closing an element keeps the lists of children increasing.
proof fn lemma_closed_sorted(nodes0: Seq<TreeNode>, stack0: Seq<usize>, nodes1: Seq<TreeNode>)
    requires
        stack_fits(nodes0, stack0),
        open_children_before(nodes0, stack0),
        children_sorted(nodes0),
        stack0.len() >= 2,
        child_added(nodes0, nodes1, stack0[stack0.len() - 2] as int, stack0.last()),
    ensures
        children_sorted(nodes1),
{
    let last = stack0.len() - 2;
    let p = stack0[last] as int;
    let kids = nodes0[p].children@;
    assert forall|q: int, j: int, k: int|
        0 <= q < nodes1.len() && 0 <= j < k < nodes1[q].children@.len()
            implies #[trigger] nodes1[q].children@[j] < #[trigger] nodes1[q].children@[k] by {
        if q == p && k == kids.len() {
            assert(nodes0[q].children@[j] == nodes1[q].children@[j]);
            assert(nodes0[stack0[last] as int].children@[j] < stack0[last + 1]);
        } else {
            assert(nodes0[q].children@[j] == nodes1[q].children@[j]);
            assert(nodes0[q].children@[k] == nodes1[q].children@[k]);
        }
    }
}

/// Closing an element keeps the texts leaves.
proof fn lemma_closed_texts(nodes0: Seq<TreeNode>, stack0: Seq<usize>, nodes1: Seq<TreeNode>)
    requires
        stack_fits(nodes0, stack0),
        open_chain(nodes0, stack0),
        texts_are_leaves(nodes0),
        stack0.len() >= 2,
        child_added(nodes0, nodes1, stack0[stack0.len() - 2] as int, stack0.last()),
    ensures
        texts_are_leaves(nodes1),
{
    let last = stack0.len() - 2;
    let p = stack0[last] as int;
    assert forall|i: int| 0 <= i < nodes1.len() implies (#[trigger] nodes1[i].value matches Element::Text(
        s,
    ) ==> nodes1[i].children@.len() == 0 && !is_blank(s@)) by {
        if i == p {
            assert(nodes0[stack0[last] as int].value is Tag);
        } else {
            assert(nodes1[i] == nodes0[i]);
        }
    }
}

/// Closing an element keeps the parent links.
pub(crate) proof fn lemma_closed_linked(nodes0: Seq<TreeNode>, stack0: Seq<usize>, nodes1: Seq<TreeNode>)
    requires
        building(nodes0, stack0),
        linked(nodes0, stack0),
        stack0.len() >= 2,
        child_added(nodes0, nodes1, stack0[stack0.len() - 2] as int, stack0.last()),
    ensures
        linked(nodes1, stack0.drop_last()),
{
    reveal(building);
    reveal(linked);
    lemma_closed_chain(nodes0, stack0, nodes1);
    lemma_closed_before(nodes0, stack0, nodes1);
    lemma_closed_parents(nodes0, stack0, nodes1);
    lemma_closed_own(nodes0, stack0, nodes1);
    lemma_closed_sorted(nodes0, stack0, nodes1);
    lemma_closed_texts(nodes0, stack0, nodes1);
}

/// An arena with only its root open is a finished tree.
pub(crate) proof fn lemma_finished_arena(nodes: Seq<TreeNode>, stack: Seq<usize>)
    requires
        building(nodes, stack),
        linked(nodes, stack),
        stack.len() == 1,
    ensures
        arena_well_formed(nodes),
        stack[0] == 0,
{
    reveal(building);
    reveal(linked);
    assert forall|i: int| 0 < i < nodes.len() implies (#[trigger] nodes[i].parent matches Some(p)
        && p < i && lists(nodes[p as int].children@, i)) by {
        if lists(stack, i) {
            let k = choose|k: int| 0 <= k < stack.len() && stack[k] == i;
            assert(false);
        }
    }
}

/// Where the last two open elements stand.
pub(crate) proof fn lemma_open_in_range(nodes: Seq<TreeNode>, stack: Seq<usize>)
    requires
        building(nodes, stack),
    ensures
        stack.len() == 0 <==> nodes.len() == 0,
        stack.len() > 0 ==> stack[0] == 0 && stack.last() < nodes.len(),
        stack.len() > 1 ==> stack[stack.len() - 2] < nodes.len(),
{
    reveal(building);
}

} // verus!
