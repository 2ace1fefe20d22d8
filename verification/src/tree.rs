//! The trees that the builder produces, and their mathematical model.

use vstd::prelude::*;
use crate::token::Token;

verus! {

/// The model of a tree node: what a [`TreeNode`] denotes in contracts.
pub enum Tree {
    /// One token that is not a parenthesis.
    Leaf(Token),
    /// One parenthesized region, children in source order.
    Group(Seq<Tree>),
}

impl Tree {
    /// No leaf holds a parenthesis: parentheses delimit groups and never
    /// stand in a tree themselves.
    pub open spec fn well_formed(self) -> bool
        decreases self,
    {
        match self {
            Tree::Leaf(token) => token != Token::LeftParen && token != Token::RightParen,
            Tree::Group(children) => forall|i: int|
                0 <= i < children.len() ==> (#[trigger] children[i]).well_formed(),
        }
    }
}

/// Every tree of the forest is well formed.
pub open spec fn forest_well_formed(forest: Seq<Tree>) -> bool {
    forall|i: int| 0 <= i < forest.len() ==> (#[trigger] forest[i]).well_formed()
}

/// The forest of one leaf for each token, in order.
pub open spec fn leaves(tokens: Seq<Token>) -> Seq<Tree> {
    Seq::new(tokens.len(), |i: int| Tree::Leaf(tokens[i]))
}

/// A node of the forest that the builder returns.
#[derive(Debug, PartialEq, Eq)]
pub enum TreeNode {
    /// One token that is not a parenthesis.
    Leaf(Token),
    /// One parenthesized region, children in source order.
    Group(Vec<TreeNode>),
}

impl TreeNode {
    /// What the node denotes.
    pub open spec fn view(&self) -> Tree
        decreases self,
    {
        match self {
            TreeNode::Leaf(token) => Tree::Leaf(*token),
            TreeNode::Group(children) => Tree::Group(
                Seq::new(
                    children@.len(),
                    |i: int|
                        if 0 <= i < children@.len() {
                            children@[i].view()
                        } else {
                            arbitrary()
                        },
                ),
            ),
        }
    }
}

impl Clone for TreeNode {
    /// A copy of the whole tree under the node.
    fn clone(&self) -> (copy: Self)
        ensures
            copy@ == self@,
        decreases self,
    {
        match self {
            TreeNode::Leaf(token) => TreeNode::Leaf(*token),
            TreeNode::Group(children) => {
                let mut copies: Vec<TreeNode> = Vec::new();
                let mut i: usize = 0;
                while i < children.len()
                    invariant
                        *self == TreeNode::Group(*children),
                        i <= children.len(),
                        copies@.len() == i,
                        forall|k: int| 0 <= k < i ==> (#[trigger] copies@[k])@ == children@[k]@,
                    decreases children.len() - i,
                {
                    proof {
                        // The children are a field of the node, hence smaller.
                        assert(self->Group_0 == *children);
                    }
                    copies.push(children[i].clone());
                    i = i + 1;
                }
                proof {
                    lemma_group_view(*children);
                    lemma_group_view(copies);
                    assert(forest_view(copies@) =~= forest_view(children@));
                }
                TreeNode::Group(copies)
            },
        }
    }
}

/// The model of a forest: the models of its nodes, in order.
pub open spec fn forest_view(nodes: Seq<TreeNode>) -> Seq<Tree> {
    Seq::new(nodes.len(), |i: int| nodes[i]@)
}

/// A group denotes the group of what its children denote.
pub proof fn lemma_group_view(children: Vec<TreeNode>)
    ensures
        TreeNode::Group(children)@ == Tree::Group(forest_view(children@)),
{
    match TreeNode::Group(children)@ {
        Tree::Group(models) => {
            assert(models =~= forest_view(children@));
        },
        Tree::Leaf(_) => {},
    }
}

/// The model of a forest grown by one node is the model of the forest
/// grown by the model of the node.
pub proof fn lemma_forest_view_push(nodes: Seq<TreeNode>, node: TreeNode)
    ensures
        forest_view(nodes.push(node)) == forest_view(nodes).push(node@),
{
    assert(forest_view(nodes.push(node)) =~= forest_view(nodes).push(node@));
}

} // verus!
