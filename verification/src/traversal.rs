//! Depth-first traversal of an assembled proof tree.

use vstd::arithmetic::power2::pow2;
use vstd::prelude::*;
use crate::tree::ProofNode;
use crate::tree::build_layers;
use crate::tree::layer_leaves;
use crate::tree::lemma_layers_converge;

verus! {

/// One unit of proof content handed out by the traversal.
///
/// `Leaf` is a single leaf hash; `Children` is a sibling pair emitted as one
/// item when both children of a node are leaves; `Next` marks a descent into
/// an internal node that produced no leaf content this step.
#[derive(PartialEq, Eq)]
pub enum ProofItem<Hash> {
    Leaf(Hash),
    Next,
    Children(Hash, Hash),
}

impl<Hash: Copy> Clone for ProofItem<Hash> {
    /// An exact copy: hash values are plain copyable data.
    fn clone(&self) -> (copy: Self)
        ensures
            copy == *self,
    {
        match self {
            ProofItem::Leaf(hash) => ProofItem::Leaf(*hash),
            ProofItem::Next => ProofItem::Next,
            ProofItem::Children(l_leaf, r_leaf) => ProofItem::Children(*l_leaf, *r_leaf),
        }
    }
}

impl<Hash> ProofItem<Hash> {
    /// What [`ProofItem::into_leaf`] yields: the leaf's hash as an item, or
    /// nothing for an internal node.
    pub open spec fn leaf_item(node: ProofNode<Hash>) -> Option<ProofItem<Hash>> {
        match node {
            ProofNode::Leaf(leaf) => Some(ProofItem::Leaf(leaf)),
            ProofNode::Node(_, _) => None,
        }
    }

    /// Turns a leaf node into its `Leaf` item; an internal node has no single
    /// leaf content and yields `None`.
    pub fn into_leaf(node: ProofNode<Hash>) -> (item: Option<Self>)
        ensures
            item == Self::leaf_item(node),
    {
        match node {
            ProofNode::Leaf(leaf) => Some(ProofItem::Leaf(leaf)),
            ProofNode::Node(_, _) => None,
        }
    }
}

impl<Hash> ProofNode<Hash> {
    /// The full item sequence a depth-first traversal of this node emits:
    /// a leaf emits itself; a node over two leaves emits the pair as one
    /// `Children` item; any other node emits `Next` and then the items of its
    /// left subtree followed by those of its right subtree.
    pub open spec fn emission(self) -> Seq<ProofItem<Hash>>
        decreases self,
    {
        match self {
            ProofNode::Leaf(hash) => seq![ProofItem::Leaf(hash)],
            ProofNode::Node(left, right) => match (*left, *right) {
                (ProofNode::Leaf(l_leaf), ProofNode::Leaf(r_leaf)) => seq![
                    ProofItem::Children(l_leaf, r_leaf),
                ],
                _ => seq![ProofItem::Next] + (*left).emission() + (*right).emission(),
            },
        }
    }

    /// Returns a depth-first traversal over this node, positioned before its
    /// first item.
    pub fn as_dfs_iterator<'a>(&'a self) -> (iter: DfsIterator<'a, Hash>)
        ensures
            iter.remaining() == self.emission(),
    {
        let mut stack: Vec<&'a ProofNode<Hash>> = Vec::new();
        stack.push(self);
        let iter = DfsIterator { stack };
        proof {
            assert(iter.stack@.drop_last() =~= Seq::<&ProofNode<Hash>>::empty());
            assert(stack_emission(Seq::<&ProofNode<Hash>>::empty())
                =~= Seq::<ProofItem<Hash>>::empty());
            assert(iter.stack@.last() == self);
            assert(iter.remaining() =~= self.emission());
        }
        iter
    }
}

/// The items still to be emitted by a stack of pending subtrees, top of the
/// stack first.
pub open spec fn stack_emission<Hash>(stack: Seq<&ProofNode<Hash>>) -> Seq<ProofItem<Hash>>
    decreases stack.len(),
{
    if stack.len() == 0 {
        Seq::empty()
    } else {
        (*stack.last()).emission() + stack_emission(stack.drop_last())
    }
}

/// A depth-first traversal over a borrowed proof tree: a lazy, finite,
/// forward-only producer of [`ProofItem`]s. Once exhausted it stays exhausted.
pub struct DfsIterator<'a, Hash> {
    stack: Vec<&'a ProofNode<Hash>>,
}

impl<'a, Hash> DfsIterator<'a, Hash> {
    /// The items this traversal has yet to emit, in emission order.
    pub closed spec fn remaining(self) -> Seq<ProofItem<Hash>> {
        stack_emission(self.stack@)
    }
}

impl<'a, Hash: Copy> DfsIterator<'a, Hash> {
    /// Produces the next item of the traversal, or `None` once it is
    /// exhausted. Exhaustion is final: every later call returns `None` again.
    ///
    /// A popped leaf is emitted as `Leaf`; a node over two leaves is emitted
    /// as one `Children` pair; any other node emits `Next` after its right
    /// and then its left child are pushed, so that the left subtree is
    /// visited first and leaves come out left to right.
    pub fn next(&mut self) -> (item: Option<ProofItem<Hash>>)
        ensures
            old(self).remaining().len() == 0 ==> {
                &&& item is None
                &&& final(self).remaining().len() == 0
            },
            old(self).remaining().len() > 0 ==> {
                &&& item == Some(old(self).remaining()[0])
                &&& final(self).remaining() == old(self).remaining().skip(1)
            },
    {
        let ghost prev_stack = self.stack@;
        let popped = self.stack.pop();
        match popped {
            None => {
                proof {
                    assert(old(self).remaining() =~= Seq::<ProofItem<Hash>>::empty());
                }
                None
            },
            Some(node) => {
                proof {
                    assert(old(self).remaining() == (*prev_stack.last()).emission()
                        + stack_emission(prev_stack.drop_last()));
                }
                match node {
                    ProofNode::Leaf(hash) => {
                        proof {
                            assert(old(self).remaining()[0] == ProofItem::Leaf(*hash));
                            assert(old(self).remaining().skip(1) =~= self.remaining());
                        }
                        Some(ProofItem::Leaf(*hash))
                    },
                    ProofNode::Node(left, right) => match (&**left, &**right) {
                        (ProofNode::Leaf(l_leaf), ProofNode::Leaf(r_leaf)) => {
                            proof {
                                assert((*node).emission() =~= seq![
                                    ProofItem::Children(*l_leaf, *r_leaf),
                                ]);
                                assert(old(self).remaining()[0] == ProofItem::Children(
                                    *l_leaf,
                                    *r_leaf,
                                ));
                                assert(old(self).remaining().skip(1) =~= self.remaining());
                            }
                            Some(ProofItem::Children(*l_leaf, *r_leaf))
                        },
                        _ => {
                            let ghost rest = self.stack@;
                            self.stack.push(&**right);
                            self.stack.push(&**left);
                            proof {
                                assert((*node).emission() =~= seq![ProofItem::Next]
                                    + (**left).emission() + (**right).emission());
                                assert(self.stack@.drop_last() =~= rest.push(&**right));
                                assert(rest.push(&**right).drop_last() =~= rest);
                                assert(stack_emission(rest.push(&**right)) == (**right).emission()
                                    + stack_emission(rest));
                                assert(self.remaining() =~= (**left).emission() + ((
                                **right).emission() + stack_emission(rest)));
                                assert(old(self).remaining()[0] == ProofItem::<Hash>::Next);
                                assert(old(self).remaining().skip(1) =~= self.remaining());
                            }
                            Some(ProofItem::Next)
                        },
                    },
                }
            },
        }
    }
}

/// The leaf hashes one emitted item contributes, in order.
pub open spec fn item_leaves<Hash>(item: ProofItem<Hash>) -> Seq<Hash> {
    match item {
        ProofItem::Leaf(hash) => seq![hash],
        ProofItem::Next => Seq::empty(),
        ProofItem::Children(l_leaf, r_leaf) => seq![l_leaf, r_leaf],
    }
}

/// The leaf hashes a sequence of emitted items spells out, in emission order.
pub open spec fn emitted_leaves<Hash>(items: Seq<ProofItem<Hash>>) -> Seq<Hash>
    decreases items.len(),
{
    if items.len() == 0 {
        Seq::empty()
    } else {
        item_leaves(items[0]) + emitted_leaves(items.skip(1))
    }
}

proof fn lemma_emitted_leaves_concat<Hash>(
    first: Seq<ProofItem<Hash>>,
    second: Seq<ProofItem<Hash>>,
)
    ensures
        emitted_leaves(first + second) == emitted_leaves(first) + emitted_leaves(second),
    decreases first.len(),
{
    if first.len() == 0 {
        assert(first + second =~= second);
        assert(emitted_leaves(first) + emitted_leaves(second) =~= emitted_leaves(second));
    } else {
        lemma_emitted_leaves_concat(first.skip(1), second);
        assert((first + second).skip(1) =~= first.skip(1) + second);
        assert((first + second)[0] == first[0]);
        assert(emitted_leaves(first + second) =~= emitted_leaves(first) + emitted_leaves(second));
    }
}

/// Depth-first traversal emits every leaf of a tree exactly once and in
/// left-to-right order: the leaf hashes its items spell out are the tree's
/// own leaves.
pub proof fn lemma_emission_spells_leaves<Hash>(node: ProofNode<Hash>)
    ensures
        emitted_leaves(node.emission()) == node.leaves(),
    decreases node,
{
    assert(emitted_leaves(Seq::<ProofItem<Hash>>::empty()) == Seq::<Hash>::empty());
    match node {
        ProofNode::Leaf(hash) => {
            assert(node.emission().skip(1) =~= Seq::<ProofItem<Hash>>::empty());
            assert(emitted_leaves(node.emission()) =~= node.leaves());
        },
        ProofNode::Node(left, right) => match (*left, *right) {
            (ProofNode::Leaf(l_leaf), ProofNode::Leaf(r_leaf)) => {
                assert(node.emission() == seq![ProofItem::Children(l_leaf, r_leaf)]);
                assert((*left).leaves() == seq![l_leaf]);
                assert((*right).leaves() == seq![r_leaf]);
                assert(node.emission().skip(1) =~= Seq::<ProofItem<Hash>>::empty());
                assert(emitted_leaves(node.emission()) =~= node.leaves());
            },
            _ => {
                lemma_emission_spells_leaves(*left);
                lemma_emission_spells_leaves(*right);
                lemma_emitted_leaves_concat(
                    seq![ProofItem::Next],
                    (*left).emission() + (*right).emission(),
                );
                lemma_emitted_leaves_concat((*left).emission(), (*right).emission());
                assert(node.emission() == seq![ProofItem::<Hash>::Next] + (*left).emission()
                    + (*right).emission());
                assert(seq![ProofItem::<Hash>::Next] + (*left).emission() + (*right).emission()
                    =~= seq![ProofItem::<Hash>::Next] + ((*left).emission() + (*right).emission()));
                assert(seq![ProofItem::<Hash>::Next].skip(1) =~= Seq::<ProofItem<Hash>>::empty());
                assert(emitted_leaves(seq![ProofItem::<Hash>::Next]) =~= Seq::<Hash>::empty());
                assert(emitted_leaves(node.emission()) =~= node.leaves());
            },
        },
    }
}

/// A node whose two children are both leaves is emitted as exactly one
/// `Children` pair — a single item, never two separate `Leaf` items.
pub proof fn lemma_leaf_pair_emits_one_item<Hash>(l_leaf: Hash, r_leaf: Hash)
    ensures
        ProofNode::Node(
            Box::new(ProofNode::Leaf(l_leaf)),
            Box::new(ProofNode::Leaf(r_leaf)),
        ).emission() == seq![ProofItem::Children(l_leaf, r_leaf)],
{
}

/// Once the layers of a proof have converged on a single present slot,
/// traversing that root yields exactly the leaf hashes the original bottom
/// layer supplied, in the original left-to-right order.
pub proof fn lemma_converged_root_traversal<Hash>(
    layer: Seq<Option<ProofNode<Hash>>>,
    count: nat,
    root: ProofNode<Hash>,
)
    requires
        1 <= layer.len() <= pow2(count),
        build_layers(layer, count) == seq![Some(root)],
    ensures
        emitted_leaves(root.emission()) == layer_leaves(layer),
{
    lemma_layers_converge(layer, count);
    lemma_emission_spells_leaves(root);
    assert(layer_leaves(Seq::<Option<ProofNode<Hash>>>::empty()) == Seq::<Hash>::empty());
    assert(seq![Some(root)].skip(1) =~= Seq::<Option<ProofNode<Hash>>>::empty());
    assert(layer_leaves(seq![Some(root)]) =~= root.leaves());
}

} // verus!
