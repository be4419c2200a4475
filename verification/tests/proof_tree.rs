use proof_tree::ProofItem;
use proof_tree::ProofNode;
use proof_tree::temp_proof_layer;

fn leaf(hash: u64) -> ProofNode<u64> {
    ProofNode::Leaf(hash)
}

fn node(left: ProofNode<u64>, right: ProofNode<u64>) -> ProofNode<u64> {
    ProofNode::Node(Box::new(left), Box::new(right))
}

fn collect_items(root: &ProofNode<u64>) -> Vec<ProofItem<u64>> {
    let mut iter = root.as_dfs_iterator();
    let mut items = Vec::new();
    while let Some(item) = iter.next() {
        items.push(item);
    }
    items
}

#[test]
fn merge_pairs_present_nodes_in_order() {
    let merged = ProofNode::new_node(Some(leaf(1)), Some(leaf(2)));
    assert!(merged == Some(node(leaf(1), leaf(2))));
}

#[test]
fn merge_absent_left_returns_right() {
    let merged = ProofNode::new_node(None, Some(leaf(2)));
    assert!(merged == Some(leaf(2)));
}

#[test]
fn merge_absent_right_returns_left() {
    let merged = ProofNode::new_node(Some(leaf(1)), None);
    assert!(merged == Some(leaf(1)));
}

#[test]
fn merge_both_absent_stays_absent() {
    let merged = ProofNode::<u64>::new_node(None, None);
    assert!(merged == None);
}

#[test]
fn single_slot_layer_carried_forward() {
    let upper = temp_proof_layer(vec![Some(leaf(7))]);
    assert!(upper == vec![Some(leaf(7))]);
}

#[test]
fn single_absent_slot_carried_forward() {
    let upper = temp_proof_layer(vec![None::<ProofNode<u64>>]);
    assert!(upper == vec![None]);
}

#[test]
fn empty_layer_stays_empty() {
    let upper = temp_proof_layer(Vec::<Option<ProofNode<u64>>>::new());
    assert!(upper.is_empty());
}

#[test]
fn even_layer_merges_every_pair() {
    let layer = vec![Some(leaf(1)), Some(leaf(2)), Some(leaf(3)), Some(leaf(4))];
    let upper = temp_proof_layer(layer);
    assert!(upper == vec![
        Some(node(leaf(1), leaf(2))),
        Some(node(leaf(3), leaf(4))),
    ]);
}

#[test]
fn three_leaf_scenario_builds_and_traverses() {
    let layer0 = vec![Some(leaf(1)), Some(leaf(2)), Some(leaf(3))];

    let layer1 = temp_proof_layer(layer0);
    assert!(layer1 == vec![Some(node(leaf(1), leaf(2))), Some(leaf(3))]);

    let layer2 = temp_proof_layer(layer1);
    assert!(layer2 == vec![Some(node(node(leaf(1), leaf(2)), leaf(3)))]);

    let root = layer2.into_iter().next().unwrap().unwrap();
    let items = collect_items(&root);
    assert!(items == vec![
        ProofItem::Next,
        ProofItem::Children(1, 2),
        ProofItem::Leaf(3),
    ]);
}

#[test]
fn absent_left_scenario_promotes_right() {
    let layer0 = vec![None, Some(leaf(2))];

    let layer1 = temp_proof_layer(layer0);
    assert!(layer1 == vec![Some(leaf(2))]);

    let root = layer1.into_iter().next().unwrap().unwrap();
    let items = collect_items(&root);
    assert!(items == vec![ProofItem::Leaf(2)]);
}

#[test]
fn leaf_pair_emits_single_children_item() {
    let root = node(leaf(4), leaf(5));
    let items = collect_items(&root);
    assert!(items.len() == 1);
    assert!(items == vec![ProofItem::Children(4, 5)]);
}

#[test]
fn leaf_root_emits_its_hash() {
    let root = leaf(9);
    let items = collect_items(&root);
    assert!(items == vec![ProofItem::Leaf(9)]);
}

#[test]
fn exhausted_traversal_stays_exhausted() {
    let root = node(leaf(4), leaf(5));
    let mut iter = root.as_dfs_iterator();
    while iter.next().is_some() {}
    assert!(iter.next().is_none());
    assert!(iter.next().is_none());
    assert!(iter.next().is_none());
}

#[test]
fn five_slot_layer_converges_in_three_steps_keeping_leaf_order() {
    let mut layer = vec![
        Some(leaf(1)),
        None,
        Some(leaf(2)),
        Some(leaf(3)),
        Some(leaf(4)),
    ];
    // ceil(log2(5)) == 3 merge steps reach a single slot.
    for _ in 0..3 {
        layer = temp_proof_layer(layer);
    }
    assert!(layer.len() == 1);

    let root = layer.into_iter().next().unwrap().unwrap();
    let mut emitted = Vec::new();
    for item in collect_items(&root) {
        match item {
            ProofItem::Leaf(hash) => emitted.push(hash),
            ProofItem::Children(left_hash, right_hash) => {
                emitted.push(left_hash);
                emitted.push(right_hash);
            }
            ProofItem::Next => {}
        }
    }
    assert!(emitted == vec![1, 2, 3, 4]);
}

#[test]
fn into_leaf_extracts_only_from_leaves() {
    let from_leaf = ProofItem::into_leaf(leaf(8));
    assert!(from_leaf == Some(ProofItem::Leaf(8)));

    let from_node = ProofItem::into_leaf(node(leaf(1), leaf(2)));
    assert!(from_node == None);
}

#[test]
fn clone_copies_the_whole_tree() {
    let root = node(node(leaf(1), leaf(2)), leaf(3));
    let copy = root.clone();
    assert!(copy == root);
}
