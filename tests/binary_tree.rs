use ego_binary_tree::{build, BinaryTree, Nested};

#[test]
fn binary_tree_api_works() {
    let mut tree = BinaryTree::new(5);
    assert!(tree.root_mut().left().is_none());
    assert!(tree.root_mut().right().is_none());

    let mut root = tree.root_mut();
    let mut left = root.set_left(3);
    assert_eq!(left.value(), &3);
    assert!(left.left().is_none());
    assert!(left.right().is_none());
}

#[test]
fn new_tree_holds_only_its_root() {
    let tree = BinaryTree::new("only");
    assert_eq!(tree.root().value(), &"only");
    assert!(tree.root().left().is_none());
    assert!(tree.root().right().is_none());
}

#[test]
fn set_right_reads_back_with_empty_children() {
    let mut tree = BinaryTree::new(1u32);
    {
        let mut root = tree.root_mut();
        root.set_right(7);
        let mut right = root.right().unwrap();
        assert_eq!(right.value(), &7);
        assert!(right.left().is_none());
        assert!(right.right().is_none());
        assert!(root.left().is_none());
    }
    let right = tree.root().right().unwrap();
    assert_eq!(right.value(), &7);
    assert!(right.left().is_none());
    assert!(right.right().is_none());
}

#[test]
fn overwrite_keeps_descendants() {
    let mut tree = BinaryTree::new(0i64);
    {
        let mut root = tree.root_mut();
        let mut left = root.set_left(1);
        left.set_left(10).set_right(100);
        left.set_right(11);
    }
    {
        let mut root = tree.root_mut();
        root.set_left(2);
    }
    let left = tree.root().left().unwrap();
    assert_eq!(left.value(), &2);
    assert_eq!(left.left().unwrap().value(), &10);
    assert_eq!(left.left().unwrap().right().unwrap().value(), &100);
    assert!(left.left().unwrap().left().is_none());
    assert_eq!(left.right().unwrap().value(), &11);
}

#[test]
fn value_mut_writes_in_place() {
    let mut tree = BinaryTree::new(String::from("a"));
    {
        let mut root = tree.root_mut();
        root.value().push('b');
        let mut right = root.set_right(String::from("r"));
        *right.value() = String::from("changed");
    }
    assert_eq!(tree.root().value(), "ab");
    assert_eq!(tree.root().right().unwrap().value(), "changed");
    assert!(tree.root().left().is_none());
}

#[test]
fn fluent_chain_builds_a_path() {
    let mut tree = BinaryTree::new('r');
    tree.root_mut().set_left('a').set_right('b').set_left('c');
    let a = tree.root().left().unwrap();
    let b = a.right().unwrap();
    let c = b.left().unwrap();
    assert_eq!((a.value(), b.value(), c.value()), (&'a', &'b', &'c'));
    assert!(a.left().is_none());
    assert!(b.right().is_none());
    assert!(c.left().is_none() && c.right().is_none());
}

#[test]
fn shared_views_can_be_copied() {
    let mut tree = BinaryTree::new(4);
    tree.root_mut().set_left(8);
    let root = tree.root();
    let again = root;
    let left_a = root.left().unwrap();
    let left_b = again.left().unwrap();
    assert_eq!(left_a.value(), left_b.value());
    assert_eq!(*left_a.value(), 8);
}

#[test]
fn macro_root_works() {
    let tree = build(Nested::leaf('a'));
    assert_eq!(tree.root().value(), &'a');
}

#[test]
fn complicated_tree_works() {
    let tree = build(Nested::node(
        "root",
        Some(Nested::leaf("left")),
        Some(Nested::node(
            "right",
            None,
            Some(Nested::node("rightright", Some(Nested::leaf("rightrightleft")), None)),
        )),
    ));
    assert_eq!(tree.root().value(), &"root");

    let left = tree.root().left().unwrap();
    assert_eq!(left.value(), &"left");
    assert!(left.left().is_none());
    assert!(left.right().is_none());

    let right = tree.root().right().unwrap();
    assert_eq!(right.value(), &"right");
    assert!(right.left().is_none());

    let rightright = right.right().unwrap();
    assert_eq!(rightright.value(), &"rightright");

    let rightrightleft = rightright.left().unwrap();
    assert_eq!(rightrightleft.value(), &"rightrightleft");
}

#[test]
fn complicated_tree_has_no_further_children() {
    let tree = build(Nested::node(
        "root",
        Some(Nested::leaf("left")),
        Some(Nested::node(
            "right",
            None,
            Some(Nested::node("rightright", Some(Nested::leaf("rightrightleft")), None)),
        )),
    ));
    let rightright = tree.root().right().unwrap().right().unwrap();
    assert!(rightright.right().is_none());
    let rightrightleft = rightright.left().unwrap();
    assert!(rightrightleft.left().is_none());
    assert!(rightrightleft.right().is_none());
}

fn layout_of(tree: &BinaryTree<u32>) -> Vec<(Vec<bool>, u32)> {
    let mut out = Vec::new();
    let mut stack = vec![(Vec::new(), tree.root())];
    while let Some((path, node)) = stack.pop() {
        out.push((path.clone(), *node.value()));
        if let Some(l) = node.left() {
            let mut p = path.clone();
            p.push(false);
            stack.push((p, l));
        }
        if let Some(r) = node.right() {
            let mut p = path.clone();
            p.push(true);
            stack.push((p, r));
        }
    }
    out.sort();
    out
}

#[test]
fn nested_matches_explicit_calls() {
    let built = build(Nested::node(
        1,
        Some(Nested::node(2, Some(Nested::leaf(4)), Some(Nested::leaf(5)))),
        Some(Nested::node(3, None, Some(Nested::leaf(6)))),
    ));

    let mut explicit = BinaryTree::new(1);
    {
        let mut root = explicit.root_mut();
        {
            let mut two = root.set_left(2);
            two.set_left(4);
            two.set_right(5);
        }
        let mut three = root.set_right(3);
        three.set_right(6);
    }
    assert_eq!(layout_of(&built), layout_of(&explicit));
    assert_eq!(layout_of(&built).len(), 6);
}

#[test]
fn nested_leaf_only_on_one_side() {
    let tree = build(Nested::node(9, None, Some(Nested::leaf(8))));
    assert!(tree.root().left().is_none());
    assert_eq!(tree.root().right().unwrap().value(), &8);
}
