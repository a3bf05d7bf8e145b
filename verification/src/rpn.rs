//! Parse trees and their postfix order: a tree is written out with each node
//! behind its children, and read back with a stack.
use vstd::prelude::*;
use crate::op::{Op, OpView};

verus! {

/// A node of the parse: an operator, and the piece of the source that its
/// first token covers.
#[derive(Debug, Clone, Copy)]
pub struct Node<'a> {
    pub op: &'a Op,
    /// The byte at which the piece starts, and the byte behind its end.
    pub span: (usize, usize),
    pub text: &'a str,
}

/// A node as plain values.
pub struct NodeView {
    pub op: OpView,
    pub span: (usize, usize),
    pub text: Seq<char>,
}

impl<'a> View for Node<'a> {
    type V = NodeView;

    open spec fn view(&self) -> NodeView {
        NodeView { op: self.op@, span: self.span, text: self.text@ }
    }
}

/// A parse tree as plain values: a node and the trees of its arguments, from
/// left to right.
pub struct TreeView {
    pub node: NodeView,
    pub children: Seq<TreeView>,
}

/// A parse tree: a node and the trees of its arguments, from left to right.
#[derive(Debug)]
pub struct ParseTree<'a> {
    pub node: Node<'a>,
    pub children: Vec<ParseTree<'a>>,
}

/// The tree as plain values: its node, and its children as plain values.
pub open spec fn tree_view<'a>(tree: ParseTree<'a>) -> TreeView
    decreases tree,
{
    TreeView {
        node: tree.node@,
        children: Seq::new(
            tree.children@.len(),
            |i: int|
                if 0 <= i < tree.children@.len() {
                    tree_view(tree.children@[i])
                } else {
                    arbitrary()
                },
        ),
    }
}

impl<'a> View for ParseTree<'a> {
    type V = TreeView;

    open spec fn view(&self) -> TreeView {
        tree_view(*self)
    }
}

/// The nodes as plain values.
pub open spec fn node_views<'a>(nodes: Seq<Node<'a>>) -> Seq<NodeView> {
    Seq::new(nodes.len(), |i: int| nodes[i]@)
}

/// The trees as plain values.
pub open spec fn tree_views<'a>(trees: Seq<ParseTree<'a>>) -> Seq<TreeView> {
    Seq::new(trees.len(), |i: int| trees[i]@)
}

/// Whether every node of the tree has as many children as its operator has
/// arguments.
pub open spec fn tree_complete(tree: TreeView) -> bool
    decreases tree,
{
    &&& tree.children.len() == tree.node.op.arity
    &&& forall|i: int|
        0 <= i < tree.children.len() ==> tree_complete(#[trigger] tree.children[i])
}

/// The nodes of a tree in postfix order: those of each child, from left to
/// right, then the tree's own.
pub open spec fn postfix_of(tree: TreeView) -> Seq<NodeView>
    decreases tree,
{
    postfix_of_all(tree.children, tree.children.len() as int).push(tree.node)
}

/// The nodes of the first `count` trees in postfix order, one tree after the
/// other.
pub open spec fn postfix_of_all(trees: Seq<TreeView>, count: int) -> Seq<NodeView>
    decreases trees, count,
{
    if count <= 0 || count > trees.len() {
        Seq::empty()
    } else {
        postfix_of_all(trees, count - 1) + postfix_of(trees[count - 1])
    }
}

/// How many trees a node takes from a stack: as many as its operator has
/// arguments, or all there are where there are fewer.
pub open spec fn taken_by(stack: Seq<TreeView>, node: NodeView) -> int {
    if node.op.arity <= stack.len() {
        node.op.arity as int
    } else {
        stack.len() as int
    }
}

/// The stack after a node was read: the trees that the node takes from the
/// top become its children, and the tree so made takes their place.
pub open spec fn read_step(stack: Seq<TreeView>, node: NodeView) -> Seq<TreeView> {
    let kept = stack.len() - taken_by(stack, node);
    stack.subrange(0, kept).push(
        TreeView { node, children: stack.subrange(kept, stack.len() as int) },
    )
}

/// The stack after the nodes were read, one after the other.
pub open spec fn read_all(stack: Seq<TreeView>, nodes: Seq<NodeView>) -> Seq<TreeView>
    decreases nodes.len(),
{
    if nodes.len() == 0 {
        stack
    } else {
        read_step(read_all(stack, nodes.drop_last()), nodes.last())
    }
}

/// The trees that a sequence of nodes in postfix order stands for.
pub open spec fn forest_of(nodes: Seq<NodeView>) -> Seq<TreeView> {
    read_all(Seq::empty(), nodes)
}

/// Reading one sequence of nodes behind another is reading the first, then
/// the second.
pub proof fn lemma_read_concat(stack: Seq<TreeView>, first: Seq<NodeView>, second: Seq<NodeView>)
    ensures
        read_all(stack, first + second) == read_all(read_all(stack, first), second),
    decreases second.len(),
{
    if second.len() == 0 {
        assert(first + second =~= first);
    } else {
        assert((first + second).drop_last() =~= first + second.drop_last());
        assert((first + second).last() == second.last());
        lemma_read_concat(stack, first, second.drop_last());
    }
}

/// Writing a tree out in postfix order and reading it back gives the tree:
/// on any stack, reading the nodes of a complete tree puts that tree on top
/// and leaves the rest as it was.
pub proof fn lemma_read_postfix(stack: Seq<TreeView>, tree: TreeView)
    requires
        tree_complete(tree),
    ensures
        read_all(stack, postfix_of(tree)) == stack.push(tree),
    decreases tree,
{
    let count = tree.children.len() as int;
    let front = postfix_of_all(tree.children, count);
    lemma_read_postfix_all(stack, tree.children, count);
    assert(postfix_of(tree).drop_last() =~= front);
    assert(postfix_of(tree).last() == tree.node);
    let below = stack + tree.children;
    assert(tree.children.subrange(0, count) =~= tree.children);
    assert(read_all(stack, front) == below);
    assert(below.subrange(0, below.len() - count) =~= stack);
    assert(below.subrange(below.len() - count, below.len() as int) =~= tree.children);
}

/// Reading the nodes of complete trees, written out one after the other,
/// puts the trees on the stack in their order.
pub proof fn lemma_read_postfix_all(stack: Seq<TreeView>, trees: Seq<TreeView>, count: int)
    requires
        0 <= count <= trees.len(),
        forall|i: int| 0 <= i < trees.len() ==> tree_complete(#[trigger] trees[i]),
    ensures
        read_all(stack, postfix_of_all(trees, count)) == stack + trees.subrange(0, count),
    decreases trees, count,
{
    if count == 0 {
        assert(stack + trees.subrange(0, 0) =~= stack);
    } else {
        let front = postfix_of_all(trees, count - 1);
        let below = stack + trees.subrange(0, count - 1);
        lemma_read_postfix_all(stack, trees, count - 1);
        lemma_read_concat(stack, front, postfix_of(trees[count - 1]));
        lemma_read_postfix(below, trees[count - 1]);
        assert(below.push(trees[count - 1]) =~= stack + trees.subrange(0, count));
    }
}

/// A parse tree is read back from its own nodes in postfix order: the forest
/// of the nodes of a complete tree is that tree alone.
pub proof fn lemma_postfix_read_back(tree: TreeView)
    requires
        tree_complete(tree),
    ensures
        forest_of(postfix_of(tree)) == seq![tree],
{
    lemma_read_postfix(Seq::empty(), tree);
    assert(Seq::<TreeView>::empty().push(tree) =~= seq![tree]);
}

/// The nodes of trees that stand side by side, written out one tree after
/// the other.
pub open spec fn written_out(trees: Seq<TreeView>) -> Seq<NodeView> {
    postfix_of_all(trees, trees.len() as int)
}

/// What the first trees of a sequence write out depends on those trees alone.
pub proof fn lemma_postfix_of_first(trees: Seq<TreeView>, others: Seq<TreeView>, count: int)
    requires
        0 <= count <= trees.len(),
        count <= others.len(),
        forall|i: int| 0 <= i < count ==> trees[i] == others[i],
    ensures
        postfix_of_all(trees, count) == postfix_of_all(others, count),
    decreases count,
{
    if count > 0 {
        lemma_postfix_of_first(trees, others, count - 1);
    }
}

/// Trees behind other trees write out their nodes behind the nodes of those.
pub proof fn lemma_postfix_of_concat(first: Seq<TreeView>, second: Seq<TreeView>, count: int)
    requires
        0 <= count <= second.len(),
    ensures
        postfix_of_all(first + second, first.len() + count) == written_out(first)
            + postfix_of_all(second, count),
    decreases count,
{
    let both = first + second;
    if count == 0 {
        lemma_postfix_of_first(both, first, first.len() as int);
        assert(written_out(first) + Seq::<NodeView>::empty() =~= written_out(first));
    } else {
        lemma_postfix_of_concat(first, second, count - 1);
        assert(both[first.len() + count - 1] == second[count - 1]);
        assert((written_out(first) + postfix_of_all(second, count - 1)) + postfix_of(
            second[count - 1],
        ) =~= written_out(first) + (postfix_of_all(second, count - 1) + postfix_of(
            second[count - 1],
        )));
    }
}

/// Reading a node adds that node, and nothing else, to what the stack writes
/// out, however many trees the node takes.
pub proof fn lemma_read_step_adds_node(stack: Seq<TreeView>, node: NodeView)
    ensures
        written_out(read_step(stack, node)) == written_out(stack).push(node),
{
    let kept = stack.len() - taken_by(stack, node);
    let below = stack.subrange(0, kept);
    let children = stack.subrange(kept, stack.len() as int);
    let tree = TreeView { node, children };
    let one = seq![tree];
    assert(read_step(stack, node) =~= below + one);
    assert(stack =~= below + children);
    lemma_postfix_of_concat(below, one, 1);
    lemma_postfix_of_concat(below, children, children.len() as int);
    reveal_with_fuel(postfix_of_all, 2);
    assert(postfix_of_all(one, 1) =~= postfix_of(tree));
    assert(written_out(below) + written_out(children).push(node) =~= (written_out(below)
        + written_out(children)).push(node));
}

/// Reading nodes adds those nodes, in order, to what the stack writes out.
pub proof fn lemma_read_all_adds_nodes(stack: Seq<TreeView>, nodes: Seq<NodeView>)
    ensures
        written_out(read_all(stack, nodes)) == written_out(stack) + nodes,
    decreases nodes.len(),
{
    if nodes.len() == 0 {
        assert(written_out(stack) + nodes =~= written_out(stack));
    } else {
        lemma_read_all_adds_nodes(stack, nodes.drop_last());
        lemma_read_step_adds_node(read_all(stack, nodes.drop_last()), nodes.last());
        assert((written_out(stack) + nodes.drop_last()).push(nodes.last()) =~= written_out(stack)
            + nodes);
    }
}

/// The trees that nodes in postfix order stand for, written out one after the
/// other, give back the nodes: every node lies in exactly one tree, at its
/// place.
pub proof fn lemma_forest_written_out(nodes: Seq<NodeView>)
    ensures
        written_out(forest_of(nodes)) == nodes,
{
    lemma_read_all_adds_nodes(Seq::empty(), nodes);
    assert(written_out(Seq::<TreeView>::empty()) + nodes =~= nodes);
}

impl<'a> ParseTree<'a> {
    /// Write the nodes of the tree behind `output`, in postfix order.
    pub fn emit(&self, output: &mut Vec<Node<'a>>)
        ensures
            node_views(final(output)@) == node_views(old(output)@) + postfix_of(self@),
        decreases self,
    {
        let mut i: usize = 0;
        assert(node_views(output@) + Seq::<NodeView>::empty() =~= node_views(output@));
        assert(self@.children.len() == self.children@.len());
        assert(forall|j: int|
            0 <= j < self.children@.len() ==> self@.children[j] == (#[trigger] self.children@[j])@);
        while i < self.children.len()
            invariant
                i <= self.children.len(),
                self@.children.len() == self.children@.len(),
                forall|j: int|
                    0 <= j < self.children@.len() ==> self@.children[j]
                        == (#[trigger] self.children@[j])@,
                node_views(output@) == node_views(old(output)@) + postfix_of_all(
                    self@.children,
                    i as int,
                ),
            decreases self.children.len() - i,
        {
            let ghost done = node_views(output@);
            let ghost front = postfix_of_all(self@.children, i as int);
            self.children[i].emit(output);
            i = i + 1;
            assert(node_views(output@) =~= node_views(old(output)@) + (front + postfix_of(
                self@.children[i - 1],
            )));
        }
        let ghost done = node_views(output@);
        output.push(self.node);
        assert(node_views(output@) =~= done.push(self.node@));
    }

    /// The nodes of the tree in postfix order.
    pub fn postfix(&self) -> (nodes: Vec<Node<'a>>)
        ensures
            node_views(nodes@) == postfix_of(self@),
    {
        let mut nodes: Vec<Node<'a>> = Vec::new();
        self.emit(&mut nodes);
        assert(node_views(Seq::<Node<'a>>::empty()) + postfix_of(self@) =~= postfix_of(self@));
        nodes
    }
}

/// Read trees back from nodes in postfix order: each node takes as many of
/// the trees read so far as its operator has arguments, or all of them where
/// there are fewer, and holds them as its children.
pub fn read_postfix<'a>(nodes: &Vec<Node<'a>>) -> (trees: Vec<ParseTree<'a>>)
    ensures
        tree_views(trees@) == forest_of(node_views(nodes@)),
{
    let mut stack: Vec<ParseTree<'a>> = Vec::new();
    let mut i: usize = 0;
    assert(node_views(nodes@.subrange(0, 0)) =~= Seq::<NodeView>::empty());
    assert(tree_views(stack@) =~= Seq::<TreeView>::empty());
    while i < nodes.len()
        invariant
            i <= nodes.len(),
            tree_views(stack@) == forest_of(node_views(nodes@.subrange(0, i as int))),
        decreases nodes.len() - i,
    {
        let node = nodes[i];
        let arity = node.op.arity;
        let taken = if arity <= stack.len() {
            arity
        } else {
            stack.len()
        };
        let ghost below = stack@;
        let kept = stack.len() - taken;
        let children = stack.split_off(kept);
        let tree = ParseTree { node, children };
        let ghost made = tree;
        stack.push(tree);
        proof {
            let tree = made;
            let read = node_views(nodes@.subrange(0, i + 1));
            assert(read.drop_last() =~= node_views(nodes@.subrange(0, i as int)));
            assert(read.last() == node@);
            assert(taken == taken_by(tree_views(below), node@));
            assert(tree@.children.len() == children@.len());
            assert(forall|j: int|
                0 <= j < children@.len() ==> tree@.children[j] == (#[trigger] children@[j])@);
            assert(tree@.children =~= tree_views(below).subrange(
                kept as int,
                below.len() as int,
            ));
            assert(tree_views(stack@) =~= read_step(tree_views(below), node@));
        }
        i = i + 1;
    }
    assert(nodes@.subrange(0, i as int) =~= nodes@);
    stack
}

} // verus!
