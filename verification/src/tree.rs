//! The proof tree and its bottom-up, layer-by-layer assembly.

use vstd::arithmetic::power2::lemma2_to64;
use vstd::arithmetic::power2::lemma_pow2_pos;
use vstd::arithmetic::power2::lemma_pow2_unfold;
use vstd::arithmetic::power2::pow2;
use vstd::prelude::*;

verus! {

/// One node of an assembled Merkle multi-proof tree.
///
/// A `Leaf` carries a single opaque hash value; a `Node` owns exactly two
/// children, left before right. The two-slot shape makes any other child
/// count unrepresentable.
#[derive(PartialEq, Eq)]
pub enum ProofNode<Hash> {
    Leaf(Hash),
    Node(Box<ProofNode<Hash>>, Box<ProofNode<Hash>>),
}

impl<Hash: Copy> Clone for ProofNode<Hash> {
    /// An exact structural copy: hash values are plain copyable data.
    fn clone(&self) -> (copy: Self)
        ensures
            copy == *self,
        decreases self,
    {
        match self {
            ProofNode::Leaf(hash) => ProofNode::Leaf(*hash),
            ProofNode::Node(left, right) => ProofNode::Node(
                Box::new((&**left).clone()),
                Box::new((&**right).clone()),
            ),
        }
    }
}

/// What merging one adjacent pair of layer slots yields: an absent side is
/// skipped, two present nodes pair up into a parent with the left child first.
pub open spec fn merged<Hash>(
    left_opt: Option<ProofNode<Hash>>,
    right_opt: Option<ProofNode<Hash>>,
) -> Option<ProofNode<Hash>> {
    match (left_opt, right_opt) {
        (None, right) => right,
        (Some(left), None) => Some(left),
        (Some(left), Some(right)) => Some(
            ProofNode::Node(Box::new(left), Box::new(right)),
        ),
    }
}

impl<Hash> ProofNode<Hash> {
    /// The node's leaf hashes, left to right.
    pub open spec fn leaves(self) -> Seq<Hash>
        decreases self,
    {
        match self {
            ProofNode::Leaf(hash) => seq![hash],
            ProofNode::Node(left, right) => (*left).leaves() + (*right).leaves(),
        }
    }

    /// Merges an adjacent pair of optional nodes into the slot one layer up.
    ///
    /// An absent left promotes the right side unchanged (present or not); a
    /// present left with an absent right is promoted unchanged; two present
    /// nodes become a parent whose children keep their order.
    pub fn new_node(left_opt: Option<Self>, right_opt: Option<Self>) -> (merged_node: Option<
        Self,
    >)
        ensures
            merged_node == merged(left_opt, right_opt),
    {
        match (left_opt, right_opt) {
            (None, right) => right,
            (Some(left), None) => Some(left),
            (Some(left), Some(right)) => Some(
                ProofNode::Node(Box::new(left), Box::new(right)),
            ),
        }
    }
}

/// The layer one level above `layer`: consecutive non-overlapping pairs are
/// merged in order, and the unpaired tail slot of an odd-length layer is
/// carried forward unchanged.
pub open spec fn next_layer<Hash>(layer: Seq<Option<ProofNode<Hash>>>) -> Seq<
    Option<ProofNode<Hash>>,
>
    decreases layer.len(),
{
    if layer.len() >= 2 {
        seq![merged(layer[0], layer[1])] + next_layer(layer.skip(2))
    } else {
        layer
    }
}

/// The leaf hashes of one optional layer slot: none for an absent slot.
pub open spec fn opt_leaves<Hash>(slot: Option<ProofNode<Hash>>) -> Seq<Hash> {
    match slot {
        Some(node) => node.leaves(),
        None => Seq::empty(),
    }
}

/// All leaf hashes a layer supplies, left to right across its present slots.
pub open spec fn layer_leaves<Hash>(layer: Seq<Option<ProofNode<Hash>>>) -> Seq<Hash>
    decreases layer.len(),
{
    if layer.len() == 0 {
        Seq::empty()
    } else {
        opt_leaves(layer[0]) + layer_leaves(layer.skip(1))
    }
}

/// The layer standing `count` merge steps above `layer`.
pub open spec fn build_layers<Hash>(layer: Seq<Option<ProofNode<Hash>>>, count: nat) -> Seq<
    Option<ProofNode<Hash>>,
>
    decreases count,
{
    if count == 0 {
        layer
    } else {
        build_layers(next_layer(layer), (count - 1) as nat)
    }
}

/// A single-slot layer passes through a merge step unchanged: its one entry
/// has no sibling and is carried forward as the odd tail.
pub proof fn lemma_singleton_layer_unchanged<Hash>(layer: Seq<Option<ProofNode<Hash>>>)
    requires
        layer.len() == 1,
    ensures
        next_layer(layer) == layer,
{
}

/// Merging two present nodes yields a parent that keeps the left child before
/// the right child.
pub proof fn lemma_merge_pairs_in_order<Hash>(left: ProofNode<Hash>, right: ProofNode<Hash>)
    ensures
        merged(Some(left), Some(right)) == Some(
            ProofNode::Node(Box::new(left), Box::new(right)),
        ),
{
}

/// Merging with an absent side promotes the present side unchanged, and two
/// absent sides stay absent.
pub proof fn lemma_merge_absent_side<Hash>(left: ProofNode<Hash>, right: ProofNode<Hash>)
    ensures
        merged(None::<ProofNode<Hash>>, Some(right)) == Some(right),
        merged(Some(left), None::<ProofNode<Hash>>) == Some(left),
        merged(None::<ProofNode<Hash>>, None::<ProofNode<Hash>>) == None::<ProofNode<Hash>>,
{
}

/// One merge step halves a layer, rounding up: each pair becomes one slot and
/// an odd tail keeps a slot of its own.
pub proof fn lemma_next_layer_len<Hash>(layer: Seq<Option<ProofNode<Hash>>>)
    ensures
        next_layer(layer).len() == (layer.len() + 1) / 2,
    decreases layer.len(),
{
    if layer.len() >= 2 {
        lemma_next_layer_len(layer.skip(2));
    }
}

/// Merging keeps every leaf hash of both sides, the left side's first.
pub proof fn lemma_merged_leaves<Hash>(
    left_opt: Option<ProofNode<Hash>>,
    right_opt: Option<ProofNode<Hash>>,
)
    ensures
        opt_leaves(merged(left_opt, right_opt)) == opt_leaves(left_opt) + opt_leaves(right_opt),
{
    assert(opt_leaves(merged(left_opt, right_opt)) =~= opt_leaves(left_opt) + opt_leaves(
        right_opt,
    ));
}

/// A merge step loses no leaf and reorders none: the upper layer supplies
/// exactly the leaf hashes of the layer below, left to right.
pub proof fn lemma_next_layer_keeps_leaves<Hash>(layer: Seq<Option<ProofNode<Hash>>>)
    ensures
        layer_leaves(next_layer(layer)) == layer_leaves(layer),
    decreases layer.len(),
{
    if layer.len() >= 2 {
        let rest = layer.skip(2);
        let pair = merged(layer[0], layer[1]);
        lemma_next_layer_keeps_leaves(rest);
        lemma_merged_leaves(layer[0], layer[1]);
        assert((seq![pair] + next_layer(rest)).skip(1) =~= next_layer(rest));
        assert(layer_leaves(seq![pair] + next_layer(rest)) == opt_leaves(pair) + layer_leaves(
            next_layer(rest),
        ));
        assert(layer.skip(1).skip(1) =~= rest);
        assert(layer_leaves(layer.skip(1)) == opt_leaves(layer[1]) + layer_leaves(rest));
        assert(layer_leaves(next_layer(layer)) =~= layer_leaves(layer));
    }
}

/// Repeated merge steps converge: a layer of at least one slot shrinks to a
/// single slot within `ceil(log2(len))` steps — `count` steps suffice whenever
/// `len <= pow2(count)` — and the surviving layer still supplies exactly the
/// leaf hashes of the original layer, left to right.
pub proof fn lemma_layers_converge<Hash>(layer: Seq<Option<ProofNode<Hash>>>, count: nat)
    requires
        1 <= layer.len() <= pow2(count),
    ensures
        build_layers(layer, count).len() == 1,
        layer_leaves(build_layers(layer, count)) == layer_leaves(layer),
    decreases count,
{
    if count == 0 {
        lemma2_to64();
    } else {
        lemma_next_layer_len(layer);
        lemma_next_layer_keeps_leaves(layer);
        lemma_pow2_unfold(count);
        lemma_pow2_pos((count - 1) as nat);
        lemma_layers_converge(next_layer(layer), (count - 1) as nat);
    }
}

/// Builds the next (upper) proof layer from `current_layer`: each consecutive
/// pair of slots is merged in order, and the unpaired tail slot of an
/// odd-length layer is carried forward unchanged. An empty layer yields an
/// empty layer.
pub fn temp_proof_layer<Hash>(current_layer: Vec<Option<ProofNode<Hash>>>) -> (upper_layer: Vec<
    Option<ProofNode<Hash>>,
>)
    ensures
        upper_layer@ == next_layer(current_layer@),
{
    let ghost full = current_layer@;
    let mut layer = current_layer;

    // Reverse the layer so that popping yields its slots front first.
    let mut reversed: Vec<Option<ProofNode<Hash>>> = Vec::new();
    while layer.len() > 0
        invariant
            layer@ + reversed@.reverse() == full,
        decreases layer@.len(),
    {
        let ghost prev_layer = layer@;
        let ghost prev_reversed = reversed@;
        let slot = layer.pop().unwrap();
        reversed.push(slot);
        proof {
            assert(layer@ + reversed@.reverse() =~= prev_layer + prev_reversed.reverse());
        }
    }
    assert(reversed@.reverse() =~= full);

    // Merge pair after pair, front of the original layer first.
    let mut upper_layer: Vec<Option<ProofNode<Hash>>> = Vec::new();
    while reversed.len() >= 2
        invariant
            upper_layer@ + next_layer(reversed@.reverse()) == next_layer(full),
        decreases reversed@.len(),
    {
        let ghost pending = reversed@.reverse();
        let left = reversed.pop().unwrap();
        let right = reversed.pop().unwrap();
        assert(left == pending[0] && right == pending[1]);
        let ghost prev_upper = upper_layer@;
        let merged_node = ProofNode::new_node(left, right);
        upper_layer.push(merged_node);
        proof {
            assert(reversed@.reverse() =~= pending.skip(2));
            assert(upper_layer@ + next_layer(pending.skip(2)) =~= prev_upper + next_layer(
                pending,
            ));
        }
    }

    // An odd layer keeps its unpaired tail slot unchanged.
    if reversed.len() == 1 {
        let ghost pending = reversed@.reverse();
        let ghost prev_upper = upper_layer@;
        let tail = reversed.pop().unwrap();
        upper_layer.push(tail);
        proof {
            assert(upper_layer@ =~= prev_upper + pending);
        }
    }
    proof {
        assert(upper_layer@ =~= next_layer(full));
    }
    upper_layer
}

} // verus!
