use dot_tree::Feature;
use dot_tree::NodeError;
use dot_tree::Tree;
use dot_tree::TreeFileError;
use dot_tree::TreeOpenMode;

fn bits(pattern: &str) -> Vec<bool> {
    pattern.chars().map(|c| c == '1').collect()
}

fn new_tree(features: Vec<Feature>, widths: Vec<u32>) -> Tree {
    Tree::create(TreeOpenMode::ReadWrite, features, widths)
}

#[test]
fn header_fidelity_create_then_open() {
    let created = new_tree(vec![Feature::Disabling], vec![4, 9]);
    let opened = Tree::open(created.storage.clone(), TreeOpenMode::Read).unwrap();
    assert_eq!(opened.features, vec![Feature::Disabling]);
    assert_eq!(opened.subitems, vec![4, 9]);
    assert_eq!(opened.header_size, created.header_size);
    assert_eq!(opened.mode, TreeOpenMode::Read);

    let created = new_tree(vec![], vec![7]);
    let opened = Tree::open(created.storage.clone(), TreeOpenMode::ReadWrite).unwrap();
    assert_eq!(opened.features, Vec::<Feature>::new());
    assert_eq!(opened.subitems, vec![7]);
}

#[test]
fn open_rejects_foreign_bytes() {
    let r = Tree::open(vec![0u8; 32], TreeOpenMode::Read);
    assert!(matches!(r, Err(TreeFileError::InvalidIdentifier)));
    let r = Tree::open(vec![0x4E], TreeOpenMode::Read);
    assert!(matches!(r, Err(TreeFileError::MissingHeaders)));
}

#[test]
fn node_size_counts_presence_bit() {
    assert_eq!(new_tree(vec![Feature::Disabling], vec![4]).node_size(), 5);
    assert_eq!(new_tree(vec![], vec![4]).node_size(), 4);
    assert_eq!(new_tree(vec![Feature::Disabling], vec![3, 2, 5]).node_size(), 11);
}

#[test]
fn empty_tree_has_no_nodes() {
    let tree = new_tree(vec![Feature::Disabling], vec![4]);
    assert_eq!(tree.nodes(), 0);
    assert_eq!(tree.levels(), 0);
    assert!(matches!(tree.node(0), Err(NodeError::Unexistent)));
    assert!(matches!(tree.root(), Err(NodeError::Unexistent)));
}

#[test]
fn scenario_single_subitem_with_disabling() {
    // a tree with one subitem of width 4 bits and Disabling enabled
    let mut tree = new_tree(vec![Feature::Disabling], vec![4]);
    let written = tree
        .set_node(&vec![bits("1001")], &0, false, false)
        .unwrap();
    assert_eq!(written.position, 0);
    assert_eq!(written.subitems, vec![bits("1001")]);

    let read = tree.node(0).unwrap();
    assert_eq!(read.subitems, vec![bits("1001")]);
    assert_eq!(tree.nodes(), 1);
    assert!(matches!(tree.node(1), Err(NodeError::Unexistent)));

    let root = tree.root().unwrap();
    let child = root.add_child(&mut tree, 0, vec![bits("0000")], false).unwrap();
    assert_eq!(child.position, 1);
    let read = tree.node(1).unwrap();
    assert_eq!(read.subitems, vec![bits("0000")]);

    let node_one = tree.node(1).unwrap();
    node_one.disable(&mut tree).unwrap();
    assert!(matches!(tree.node(1), Err(NodeError::Disabled)));
}

#[test]
fn round_trip_across_byte_boundaries() {
    // node_size of 5 bits: records straddle byte boundaries
    let mut tree = new_tree(vec![Feature::Disabling], vec![4]);
    let payloads = ["1001", "0110", "1111", "0001", "1010"];
    for (p, payload) in payloads.iter().enumerate() {
        // overwrite: the slack bits of a grown byte already count as records
        tree.set_node(&vec![bits(payload)], &(p as u128), true, false)
            .unwrap();
    }
    for (p, payload) in payloads.iter().enumerate() {
        let read = tree.node(p as u128).unwrap();
        assert_eq!(read.subitems, vec![bits(payload)], "position {}", p);
    }
}

#[test]
fn round_trip_multiple_subitems() {
    let mut tree = new_tree(vec![], vec![3, 1, 7]);
    let subitems = vec![bits("101"), bits("1"), bits("0011010")];
    tree.set_node(&subitems, &0, false, false).unwrap();
    let read = tree.node(0).unwrap();
    assert_eq!(read.subitems, subitems);
}

#[test]
fn writes_do_not_interfere() {
    let mut tree = new_tree(vec![Feature::Disabling], vec![3, 2]);
    let payloads: Vec<Vec<Vec<bool>>> = (0u8..6)
        .map(|p| vec![bits(&format!("{:03b}", p & 7)), bits(&format!("{:02b}", (p + 1) & 3))])
        .collect();
    for (p, payload) in payloads.iter().enumerate() {
        tree.set_node(payload, &(p as u128), true, false).unwrap();
    }
    // overwrite the middle position with a fresh pattern
    tree.set_node(&vec![bits("111"), bits("11")], &3, true, false)
        .unwrap();
    for (p, payload) in payloads.iter().enumerate() {
        let read = tree.node(p as u128).unwrap();
        if p == 3 {
            assert_eq!(read.subitems, vec![bits("111"), bits("11")]);
        } else {
            assert_eq!(&read.subitems, payload, "position {}", p);
        }
    }
}

#[test]
fn growth_zero_fills_skipped_positions() {
    let mut tree = new_tree(vec![Feature::Disabling], vec![4]);
    tree.set_node(&vec![bits("1111")], &5, false, false).unwrap();
    assert!(tree.nodes() >= 6);
    // skipped positions exist but read as disabled
    for p in 0..5u128 {
        assert!(matches!(tree.node(p), Err(NodeError::Disabled)), "position {}", p);
    }
    assert_eq!(tree.node(5).unwrap().subitems, vec![bits("1111")]);
}

#[test]
fn growth_without_disabling_yields_zero_valued_nodes() {
    let mut tree = new_tree(vec![], vec![3]);
    tree.set_node(&vec![bits("101")], &4, false, false).unwrap();
    for p in 0..4u128 {
        let read = tree.node(p).unwrap();
        assert_eq!(read.subitems, vec![bits("000")], "position {}", p);
    }
    assert_eq!(tree.node(4).unwrap().subitems, vec![bits("101")]);
}

#[test]
fn set_node_rejects_existing_node_without_overwrite() {
    let mut tree = new_tree(vec![Feature::Disabling], vec![4]);
    tree.set_node(&vec![bits("1001")], &0, false, false).unwrap();
    let r = tree.set_node(&vec![bits("0110")], &0, false, false);
    assert!(matches!(r, Err(NodeError::NodeAlreadyExists)));
    // a disabled record still counts as existing
    let node = tree.node(0).unwrap();
    node.disable(&mut tree).unwrap();
    let r = tree.set_node(&vec![bits("0110")], &0, false, false);
    assert!(matches!(r, Err(NodeError::NodeAlreadyExists)));
}

#[test]
fn set_node_validates_subitem_widths() {
    let mut tree = new_tree(vec![Feature::Disabling], vec![4]);
    let r = tree.set_node(&vec![bits("10011")], &0, false, false);
    assert!(matches!(r, Err(NodeError::InvalidSubitem)));
    let r = tree.set_node(&vec![], &0, false, false);
    assert!(matches!(r, Err(NodeError::InvalidSubitem)));
    let r = tree.set_node(&vec![bits("1001"), bits("1")], &0, false, false);
    assert!(matches!(r, Err(NodeError::InvalidSubitem)));
    // a failed validation writes nothing
    assert_eq!(tree.nodes(), 0);
}

#[test]
fn set_node_disabled_confirms_with_disabled_error() {
    let mut tree = new_tree(vec![Feature::Disabling], vec![4]);
    let r = tree.set_node(&vec![bits("1001")], &0, false, true);
    assert!(matches!(r, Err(NodeError::Disabled)));
    // the record was written nonetheless
    assert_eq!(tree.nodes(), 1);
    assert!(matches!(tree.node(0), Err(NodeError::Disabled)));
}

#[test]
fn disable_then_enable_restores_subitems() {
    let mut tree = new_tree(vec![Feature::Disabling], vec![4]);
    tree.set_node(&vec![bits("1001")], &0, false, false).unwrap();
    let before = tree.storage.clone();
    let node = tree.node(0).unwrap();
    node.disable(&mut tree).unwrap();
    assert!(matches!(tree.node(0), Err(NodeError::Disabled)));
    node.enable(&mut tree).unwrap();
    let read = tree.node(0).unwrap();
    assert_eq!(read.subitems, vec![bits("1001")]);
    assert_eq!(tree.storage, before);
}

#[test]
fn disable_requires_the_feature() {
    let mut tree = new_tree(vec![], vec![4]);
    tree.set_node(&vec![bits("1001")], &0, false, false).unwrap();
    let node = tree.node(0).unwrap();
    assert!(matches!(node.disable(&mut tree), Err(NodeError::MissingFeature)));
    assert!(matches!(node.enable(&mut tree), Err(NodeError::MissingFeature)));
}

#[test]
fn parent_and_child_are_mutually_inverse() {
    let mut tree = new_tree(vec![Feature::Disabling], vec![4]);
    for p in 0..7u128 {
        tree.set_node(&vec![bits("1001")], &p, true, false).unwrap();
    }
    let root = tree.node(0).unwrap();
    let left = root.child(&tree, 0).unwrap();
    let right = root.child(&tree, 1).unwrap();
    assert_eq!(left.position, 1);
    assert_eq!(right.position, 2);
    assert_eq!(left.parent(&tree).unwrap().position, 0);
    assert_eq!(right.parent(&tree).unwrap().position, 0);
    let deep = tree.node(2).unwrap();
    assert_eq!(deep.child(&tree, 0).unwrap().position, 5);
    assert_eq!(deep.child(&tree, 1).unwrap().position, 6);
    assert_eq!(tree.node(5).unwrap().parent(&tree).unwrap().position, 2);
    assert_eq!(tree.node(6).unwrap().parent(&tree).unwrap().position, 2);
    assert!(matches!(root.parent(&tree), Err(NodeError::Unexistent)));
}

#[test]
fn child_index_out_of_bounds() {
    let mut tree = new_tree(vec![Feature::Disabling], vec![4]);
    tree.set_node(&vec![bits("1001")], &0, false, false).unwrap();
    let root = tree.node(0).unwrap();
    assert!(matches!(root.child(&tree, 2), Err(NodeError::InvalidIndex)));
    assert!(matches!(
        root.add_child(&mut tree, 2, vec![bits("0000")], false),
        Err(NodeError::InvalidIndex)
    ));
}

#[test]
fn is_leaf_reflects_children() {
    let mut tree = new_tree(vec![Feature::Disabling], vec![4]);
    tree.set_node(&vec![bits("1001")], &0, false, false).unwrap();
    let root = tree.node(0).unwrap();
    assert!(root.is_leaf(&tree));
    root.add_child(&mut tree, 1, vec![bits("0110")], false).unwrap();
    let root = tree.node(0).unwrap();
    assert!(!root.is_leaf(&tree));
    let right = root.child(&tree, 1).unwrap();
    assert!(right.is_leaf(&tree));
}

#[test]
fn levels_and_node_level() {
    let mut tree = new_tree(vec![Feature::Disabling], vec![4]);
    for p in 0..7u128 {
        tree.set_node(&vec![bits("1001")], &p, true, false).unwrap();
    }
    // 7 written records occupy 35 bits, so 5 bytes: their 5 slack bits
    // round the count up to 8
    assert_eq!(tree.nodes(), 8);
    assert_eq!(tree.levels(), 3);
    assert_eq!(tree.node(0).unwrap().level(), 0);
    assert_eq!(tree.node(1).unwrap().level(), 0);
    assert_eq!(tree.node(2).unwrap().level(), 1);
    assert_eq!(tree.node(3).unwrap().level(), 1);
    assert_eq!(tree.node(4).unwrap().level(), 2);
    assert_eq!(tree.node(6).unwrap().level(), 2);
}

#[test]
fn update_rewrites_in_place() {
    let mut tree = new_tree(vec![Feature::Disabling], vec![4]);
    tree.set_node(&vec![bits("1001")], &0, false, false).unwrap();
    let mut node = tree.node(0).unwrap();
    node.update(&mut tree, vec![bits("0111")]).unwrap();
    assert_eq!(node.subitems, vec![bits("0111")]);
    assert_eq!(tree.node(0).unwrap().subitems, vec![bits("0111")]);
}

#[test]
fn update_preserves_disabled_state_and_rejects_bad_input() {
    let mut tree = new_tree(vec![Feature::Disabling], vec![4]);
    tree.set_node(&vec![bits("1001")], &0, false, false).unwrap();
    let mut node = tree.node(0).unwrap();
    node.disable(&mut tree).unwrap();
    node.update(&mut tree, vec![bits("0111")]).unwrap();
    // still disabled, with the new payload behind the presence bit
    assert!(matches!(tree.node(0), Err(NodeError::Disabled)));
    node.enable(&mut tree).unwrap();
    assert_eq!(tree.node(0).unwrap().subitems, vec![bits("0111")]);

    let r = node.update(&mut tree, vec![bits("01")]);
    assert!(matches!(r, Err(NodeError::InvalidSubitem)));
    let mut far = dot_tree::Node { position: 42, subitems: vec![bits("0000")] };
    let r = far.update(&mut tree, vec![bits("0000")]);
    assert!(matches!(r, Err(NodeError::Unexistent)));
}

#[test]
fn refresh_reloads_from_the_image() {
    let mut tree = new_tree(vec![Feature::Disabling], vec![4]);
    tree.set_node(&vec![bits("1001")], &0, false, false).unwrap();
    let mut node = tree.node(0).unwrap();
    tree.set_node(&vec![bits("0110")], &0, true, false).unwrap();
    assert_eq!(node.subitems, vec![bits("1001")]);
    let fresh = node.refresh(&tree).unwrap();
    assert_eq!(fresh.subitems, vec![bits("0110")]);
    assert_eq!(node.subitems, vec![bits("0110")]);
    // a disabled node no longer decodes: refresh surfaces Unexistent
    let cached = tree.node(0).unwrap();
    cached.disable(&mut tree).unwrap();
    let r = node.refresh(&tree);
    assert!(matches!(r, Err(NodeError::Unexistent)));
}

#[test]
fn nodes_is_approximate_over_trailing_slack() {
    // node_size 5: one written record occupies one byte, whose 3 slack bits
    // hold no further record; two records occupy two bytes, whose 6 slack
    // bits count as a third, zero-filled record — accepted approximation
    let mut tree = new_tree(vec![Feature::Disabling], vec![4]);
    tree.set_node(&vec![bits("1001")], &0, false, false).unwrap();
    assert_eq!(tree.nodes(), 1);
    tree.set_node(&vec![bits("1001")], &1, false, false).unwrap();
    assert_eq!(tree.nodes(), 3);
    assert!(matches!(tree.node(2), Err(NodeError::Disabled)));
}
