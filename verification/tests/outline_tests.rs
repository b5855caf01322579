use htot_conv::outline::{Outline, OutlineError, OutlineItem, OutlineTree};

#[test]
fn test_outline_item_new() {
    let item = OutlineItem::new("key", 1, vec!["val1".to_string(), "val2".to_string()]);
    assert_eq!(item.key, "key");
    assert_eq!(item.level, 1);
    assert_eq!(item.value, vec!["val1".to_string(), "val2".to_string()]);
}

#[test]
fn test_outline_item_validate() {
    let item = OutlineItem::new("key", 1, vec!["val1".to_string()]);
    assert!(item.validate().is_ok());

    let item = OutlineItem::new("key", 0, vec!["val1".to_string()]);
    assert!(item.validate().is_err());
    assert_eq!(
        item.validate().unwrap_err(),
        OutlineError::ValidationError(
            "item level for item \"key\" must be positive".to_string()
        )
    );
}

#[test]
fn test_outline_item_valid() {
    let item = OutlineItem::new("key", 1, vec!["val1".to_string()]);
    assert!(item.valid());

    let item = OutlineItem::new("key", 0, vec!["val1".to_string()]);
    assert!(!item.valid());
}

#[test]
fn test_outline_new() {
    let outline = Outline::new();
    assert!(outline.key_header.is_empty());
    assert!(outline.value_header.is_empty());
    assert!(outline.item.is_empty());
}

#[test]
fn test_outline_add_item() {
    let mut outline = Outline::new();
    outline.add_item("key", 1, vec!["val1".to_string(), "val2".to_string()]);
    assert_eq!(outline.item.len(), 1);
    assert_eq!(outline.item[0].key, "key");
    assert_eq!(outline.item[0].level, 1);
    assert_eq!(
        outline.item[0].value,
        vec!["val1".to_string(), "val2".to_string()]
    );

    outline.add_item("key2", 1, vec!["val1".to_string(), "val2".to_string()]);
    assert_eq!(outline.item.len(), 2);
    assert_eq!(outline.item[0].key, "key");
    assert_eq!(outline.item[1].key, "key2");
}

#[test]
fn test_outline_validate() {
    let mut outline = Outline::new();
    outline.key_header = vec!["H1".to_string(), "H2".to_string()];
    outline.value_header = vec!["V1".to_string(), "V2".to_string()];
    outline.add_item("key", 1, vec!["val1".to_string()]);
    assert!(outline.validate().is_ok());

    let mut invalid_outline = Outline::new();
    invalid_outline.key_header = vec!["H1".to_string(), "H2".to_string()];
    invalid_outline.value_header = vec!["V1".to_string(), "V2".to_string()];
    invalid_outline.add_item("key", 0, vec!["val1".to_string()]);
    assert!(invalid_outline.validate().is_err());
}

#[test]
fn test_outline_valid() {
    let mut outline = Outline::new();
    outline.key_header = vec!["H1".to_string(), "H2".to_string()];
    outline.value_header = vec!["V1".to_string(), "V2".to_string()];
    outline.add_item("key", 1, vec!["val1".to_string()]);
    assert!(outline.valid());

    let mut invalid_outline = Outline::new();
    invalid_outline.key_header = vec!["H1".to_string(), "H2".to_string()];
    invalid_outline.value_header = vec!["V1".to_string(), "V2".to_string()];
    invalid_outline.add_item("key", 0, vec!["val1".to_string()]);
    assert!(!invalid_outline.valid());
}

#[test]
fn test_outline_max_level() {
    let mut outline = Outline::new();
    outline.key_header = vec![];
    outline.add_item("1", 1, vec![]);
    assert_eq!(outline.max_level(), 1);

    outline.add_item("1.1", 2, vec![]);
    assert_eq!(outline.max_level(), 2);

    outline.key_header = vec!["H1".to_string(), "H2".to_string(), "H3".to_string()];
    assert_eq!(outline.max_level(), 3);
}

#[test]
fn test_outline_max_value_length() {
    let mut outline = Outline::new();
    outline.value_header = vec![];
    outline.add_item("1", 1, vec![]);
    assert_eq!(outline.max_value_length(), 0);

    outline.add_item("1", 1, vec!["a".to_string()]);
    assert_eq!(outline.max_value_length(), 1);

    outline.add_item(
        "1",
        1,
        vec!["a".to_string(), "b".to_string(), "c".to_string()],
    );
    assert_eq!(outline.max_value_length(), 3);

    outline.value_header = vec!["H1".to_string(), "H2".to_string(), "H3".to_string()];
    assert_eq!(outline.max_value_length(), 3);
}

#[test]
fn test_outline_to_tree_empty() {
    let outline = Outline::new();
    let tree = outline.to_tree();
    assert!(tree.is_root(0));
    assert!(tree.children(0).is_empty());
}

#[test]
fn test_outline_to_tree_single_item() {
    let mut outline = Outline::new();
    outline.add_item("Item 1", 1, vec![]);
    let tree = outline.to_tree();

    assert!(tree.is_root(0));
    assert_eq!(tree.children(0).len(), 1);

    let child1 = tree.children(0)[0];
    assert_eq!(tree.item(child1).unwrap().key, "Item 1");
    assert_eq!(tree.item(child1).unwrap().level, 1);
    assert!(tree.is_leaf(child1));
    assert_eq!(tree.item(tree.parent(child1).unwrap()), None);
}

#[test]
fn test_outline_to_tree_nested_items() {
    let mut outline = Outline::new();
    outline.add_item("Item 1", 1, vec![]);
    outline.add_item("Item 1.1", 2, vec![]);
    outline.add_item("Item 1.2", 2, vec![]);
    outline.add_item("Item 1.2.1", 3, vec![]);
    outline.add_item("Item 2", 1, vec![]);

    let tree = outline.to_tree();

    // Root
    assert!(tree.is_root(0));
    assert_eq!(tree.children(0).len(), 2);

    // Item 1
    let item1 = tree.children(0)[0];
    assert_eq!(tree.item(item1).unwrap().key, "Item 1");
    assert_eq!(tree.item(item1).unwrap().level, 1);
    assert_eq!(tree.children(item1).len(), 2);
    assert_eq!(tree.item(tree.parent(item1).unwrap()), None);

    // Item 1.1
    let item1_1 = tree.children(item1)[0];
    assert_eq!(tree.item(item1_1).unwrap().key, "Item 1.1");
    assert_eq!(tree.item(item1_1).unwrap().level, 2);
    assert!(tree.is_leaf(item1_1));
    assert_eq!(
        tree.item(tree.parent(item1_1).unwrap()).unwrap().key,
        "Item 1"
    );

    // Item 1.2
    let item1_2 = tree.children(item1)[1];
    assert_eq!(tree.item(item1_2).unwrap().key, "Item 1.2");
    assert_eq!(tree.item(item1_2).unwrap().level, 2);
    assert_eq!(tree.children(item1_2).len(), 1);
    assert_eq!(
        tree.item(tree.parent(item1_2).unwrap()).unwrap().key,
        "Item 1"
    );

    // Item 1.2.1
    let item1_2_1 = tree.children(item1_2)[0];
    assert_eq!(tree.item(item1_2_1).unwrap().key, "Item 1.2.1");
    assert_eq!(tree.item(item1_2_1).unwrap().level, 3);
    assert!(tree.is_leaf(item1_2_1));
    assert_eq!(
        tree.item(tree.parent(item1_2_1).unwrap()).unwrap().key,
        "Item 1.2"
    );

    // Item 2
    let item2 = tree.children(0)[1];
    assert_eq!(tree.item(item2).unwrap().key, "Item 2");
    assert_eq!(tree.item(item2).unwrap().level, 1);
    assert!(tree.is_leaf(item2));
    assert_eq!(tree.item(tree.parent(item2).unwrap()), None);
}

#[test]
fn test_outline_to_tree_complex_levels() {
    let mut outline = Outline::new();
    outline.add_item("A", 1, vec![]);
    outline.add_item("B", 2, vec![]);
    outline.add_item("C", 3, vec![]);
    outline.add_item("D", 2, vec![]);
    outline.add_item("E", 1, vec![]);
    outline.add_item("F", 2, vec![]);

    let tree = outline.to_tree();

    // A
    let a_node = tree.children(0)[0];
    assert_eq!(tree.item(a_node).unwrap().key, "A");
    assert_eq!(tree.children(a_node).len(), 2);

    // B
    let b_node = tree.children(a_node)[0];
    assert_eq!(tree.item(b_node).unwrap().key, "B");
    assert_eq!(tree.children(b_node).len(), 1);

    // C
    let c_node = tree.children(b_node)[0];
    assert_eq!(tree.item(c_node).unwrap().key, "C");
    assert!(tree.is_leaf(c_node));

    // D
    let d_node = tree.children(a_node)[1];
    assert_eq!(tree.item(d_node).unwrap().key, "D");
    assert!(tree.is_leaf(d_node));

    // E
    let e_node = tree.children(0)[1];
    assert_eq!(tree.item(e_node).unwrap().key, "E");
    assert_eq!(tree.children(e_node).len(), 1);

    // F
    let f_node = tree.children(e_node)[0];
    assert_eq!(tree.item(f_node).unwrap().key, "F");
    assert!(tree.is_leaf(f_node));
}

#[test]
fn test_outline_tree_is_root() {
    let mut tree = OutlineTree::new_root();
    assert!(tree.is_root(0));

    let child = tree.new_with_parent(OutlineItem::new("child", 1, vec![]), 0);
    assert!(!tree.is_root(child));
}

#[test]
fn test_outline_tree_parent() {
    let mut tree = OutlineTree::new_root();
    let child = tree.new_with_parent(OutlineItem::new("child", 1, vec![]), 0);

    assert!(tree.parent(0).is_none());
    assert_eq!(tree.item(tree.parent(child).unwrap()), None);
}

#[test]
fn test_outline_tree_add_child() {
    let mut tree = OutlineTree::new_root();
    let child = tree.add_child(0, OutlineItem::new("child", 1, vec![]));

    assert_eq!(tree.children(0).len(), 1);
    assert_eq!(tree.item(tree.children(0)[0]).unwrap().key, "child");
    assert_eq!(tree.item(tree.parent(child).unwrap()), None);
    assert!(tree.is_leaf(child));
}

#[test]
fn test_outline_tree_is_leaf() {
    let mut tree = OutlineTree::new_root();
    assert!(!tree.is_leaf(0));

    let child = tree.add_child(0, OutlineItem::new("child", 1, vec![]));
    assert!(tree.is_leaf(child));

    let grand_child = tree.add_child(child, OutlineItem::new("grandchild", 2, vec![]));
    assert!(!tree.is_leaf(child));
    assert!(tree.is_leaf(grand_child));
}

#[test]
fn test_descendants_ancestors_prev_next() {
    // Build tree: root -> A -> (B -> C), and A -> D; root -> E -> F
    let mut outline = Outline::new();
    outline.add_item("A", 1, vec![]);
    outline.add_item("B", 2, vec![]);
    outline.add_item("C", 3, vec![]);
    outline.add_item("D", 2, vec![]);
    outline.add_item("E", 1, vec![]);
    outline.add_item("F", 2, vec![]);

    let tree = outline.to_tree();
    let a = tree.children(0)[0];
    let e = tree.children(0)[1];

    let b = tree.children(a)[0];
    let d = tree.children(a)[1];
    let c = tree.children(b)[0];

    // descendants of A: [B, C, D]
    let mut desc_a: Vec<usize> = Vec::new();
    let mut walk = tree.descendants(a);
    while let Some(n) = walk.next(&tree) {
        desc_a.push(n);
    }
    assert_eq!(desc_a.len(), 3);
    assert_eq!(tree.item(desc_a[0]).unwrap().key, "B");
    assert_eq!(tree.item(desc_a[1]).unwrap().key, "C");
    assert_eq!(tree.item(desc_a[2]).unwrap().key, "D");

    // ancestors of C: [B, A, root]
    let mut anc_c: Vec<usize> = Vec::new();
    let mut walk = tree.ancestors(c);
    while let Some(n) = walk.next(&tree) {
        anc_c.push(n);
    }
    assert_eq!(anc_c.len(), 3);
    assert_eq!(tree.item(anc_c[0]).unwrap().key, "B");
    assert_eq!(tree.item(anc_c[1]).unwrap().key, "A");
    assert!(tree.is_root(anc_c[2]));

    // prev/next among siblings under A
    assert!(tree.prev(b).is_none());
    assert_eq!(tree.item(tree.next(b).unwrap()).unwrap().key, "D");
    assert_eq!(tree.item(tree.prev(d).unwrap()).unwrap().key, "B");
    assert!(tree.next(d).is_none());

    // prev/next across top-level siblings: A <-> E
    assert!(tree.prev(a).is_none());
    assert_eq!(tree.item(tree.next(a).unwrap()).unwrap().key, "E");
    assert_eq!(tree.item(tree.prev(e).unwrap()).unwrap().key, "A");
    assert!(tree.next(e).is_none());
}

#[test]
fn test_tree_shape_numbered_items() {
    // Items 1, 1.1, 1.2, 1.2.1, 2: two children under the root, two under
    // "1", one under "1.2"; the ancestors of "1.2.1" are "1.2", "1", root.
    let mut outline = Outline::new();
    outline.add_item("1", 1, vec![]);
    outline.add_item("1.1", 2, vec![]);
    outline.add_item("1.2", 2, vec![]);
    outline.add_item("1.2.1", 3, vec![]);
    outline.add_item("2", 1, vec![]);

    let tree = outline.to_tree();
    assert_eq!(tree.children(0).len(), 2);
    let one = tree.children(0)[0];
    assert_eq!(tree.item(one).unwrap().key, "1");
    assert_eq!(tree.children(one).len(), 2);
    let one_two = tree.children(one)[1];
    assert_eq!(tree.item(one_two).unwrap().key, "1.2");
    assert_eq!(tree.children(one_two).len(), 1);
    let one_two_one = tree.children(one_two)[0];
    assert_eq!(tree.item(one_two_one).unwrap().key, "1.2.1");

    let mut anc: Vec<usize> = Vec::new();
    let mut walk = tree.ancestors(one_two_one);
    while let Some(n) = walk.next(&tree) {
        anc.push(n);
    }
    assert_eq!(anc.len(), 3);
    assert_eq!(tree.item(anc[0]).unwrap().key, "1.2");
    assert_eq!(tree.item(anc[1]).unwrap().key, "1");
    assert!(tree.is_root(anc[2]));
}

#[test]
fn test_tree_round_trip_increasing_levels() {
    // A strictly-increasing-by-1 level sequence flattens back, via preorder
    // descendants of the root, to the original item order.
    let keys = ["a", "b", "c", "d", "e"];
    let mut outline = Outline::new();
    for (i, k) in keys.iter().enumerate() {
        outline.add_item(k, (i + 1) as u32, vec![]);
    }
    let tree = outline.to_tree();
    let mut flat: Vec<String> = Vec::new();
    let mut walk = tree.descendants(0);
    while let Some(n) = walk.next(&tree) {
        flat.push(tree.item(n).unwrap().key.clone());
    }
    assert_eq!(flat, keys.iter().map(|s| s.to_string()).collect::<Vec<_>>());
}

#[test]
fn test_outline_validate_messages() {
    // The failure message follows the first failing check: key header, then
    // value header, then the first level-0 item, named by its key.
    let mut bad_key_header = Outline::new();
    bad_key_header.key_header = vec!["\u{00e9}".to_string()];
    bad_key_header.value_header = vec!["\u{00e9}".to_string()];
    bad_key_header.add_item("k", 0, vec![]);
    assert_eq!(
        bad_key_header.validate().unwrap_err(),
        OutlineError::ValidationError("key_header elements must be strings.".to_string())
    );

    let mut bad_value_header = Outline::new();
    bad_value_header.value_header = vec!["\u{00e9}".to_string()];
    bad_value_header.add_item("k", 0, vec![]);
    assert_eq!(
        bad_value_header.validate().unwrap_err(),
        OutlineError::ValidationError("value_header elements must be strings.".to_string())
    );

    let mut bad_item = Outline::new();
    bad_item.add_item("fine", 1, vec![]);
    bad_item.add_item("first bad", 0, vec![]);
    bad_item.add_item("second bad", 0, vec![]);
    assert_eq!(
        bad_item.validate().unwrap_err(),
        OutlineError::ValidationError(
            "item level for item \"first bad\" must be positive".to_string()
        )
    );
}
