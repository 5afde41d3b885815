//! Syntax trees as the grammar engine builds them.

use vstd::prelude::*;
use crate::grammar::Tree;
use crate::rule::Rule;

verus! {

/// A node of a syntax tree: the production that matched, the byte offsets
/// from `start` up to `end` that it matched, and the nodes inside it.
#[derive(Debug, PartialEq, Eq)]
pub struct Node {
    pub rule: Rule,
    pub start: usize,
    pub end: usize,
    pub children: Vec<Node>,
}

impl View for Node {
    type V = Tree;

    open spec fn view(&self) -> Tree
        decreases self,
    {
        Tree {
            rule: self.rule,
            start: self.start as int,
            end: self.end as int,
            children: Seq::new(
                self.children@.len(),
                |i: int|
                    if 0 <= i < self.children@.len() {
                        self.children@[i]@
                    } else {
                        arbitrary()
                    },
            ),
        }
    }
}

/// The trees that a sequence of nodes stands for.
pub open spec fn views(nodes: Seq<Node>) -> Seq<Tree> {
    Seq::new(nodes.len(), |i: int| nodes[i]@)
}

impl Node {
    /// A node with the given children.
    pub fn new(rule: Rule, start: usize, end: usize, children: Vec<Node>) -> (node: Node)
        ensures
            node@ == (Tree {
                rule,
                start: start as int,
                end: end as int,
                children: views(children@),
            }),
            node.rule == rule,
            node.start == start,
            node.end == end,
            node.children == children,
    {
        let node = Node { rule, start, end, children };
        proof {
            lemma_children(&node);
        }
        node
    }

    /// A node without children.
    pub fn leaf(rule: Rule, start: usize, end: usize) -> (node: Node)
        ensures
            node@ == crate::grammar::leaf(rule, start as int, end as int),
            node.rule == rule,
            node.start == start,
            node.end == end,
            node.children@.len() == 0,
    {
        let node = Node { rule, start, end, children: Vec::new() };
        assert(node@.children =~= Seq::empty());
        node
    }
}

/// The children of a node's tree are the trees of its children.
pub proof fn lemma_children(node: &Node)
    ensures
        node@.children == views(node.children@),
        node@.rule == node.rule,
        node@.start == node.start,
        node@.end == node.end,
{
    reveal_with_fuel(<Node as View>::view, 2);
    assert(node@.children =~= views(node.children@));
}

} // verus!
