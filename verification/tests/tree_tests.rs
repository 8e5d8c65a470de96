use mrkle::node::MutNode;
use mrkle::{BasicNode, NodeIndex, Tree};

fn node(value: &str) -> BasicNode<String> {
    BasicNode::new(value.to_string())
}

#[test]
fn test_empty_tree_construction() {
    let tree: Tree<BasicNode<u8>> = Tree::new();
    assert!(tree.is_empty())
}

#[test]
fn test_tree_iter() {
    let mut tree: Tree<BasicNode<&str>> = Tree::new();

    let parent = tree.push(BasicNode::new("hello"));
    let child = tree.push(BasicNode::new_with_parent_index("world", parent));
    let l1 = tree.push(BasicNode::new_with_parent_index("!", child));
    let l2 = tree.push(BasicNode::new_with_parent_index("?", child));

    let root = tree.get_mut(parent.index()).unwrap();
    root.push(child);

    let mid = tree.get_mut(child.index()).unwrap();
    mid.push(l1);
    mid.push(l2);

    let mut tree_iter = tree.iter();

    let root_ref = tree_iter.next().unwrap();
    assert_eq!(root_ref.value, "hello");

    let c = tree_iter.next().unwrap();
    assert_eq!(c.value, "world");

    let first = tree_iter.next().unwrap();
    assert_eq!(first.value, "!");

    let second = tree_iter.next().unwrap();
    assert_eq!(second.value, "?");
}

#[test]
fn test_tree_get() {
    let mut root = node("hello");
    root.children = vec![NodeIndex::new(1), NodeIndex::new(2)];
    let mut tree: Tree<BasicNode<String>> = Tree::new();
    let n1 = node("world");
    let n2 = node("!");
    tree.root = Some(NodeIndex::new(0));
    tree.nodes.push(root.clone());
    tree.nodes.push(n1.clone());
    tree.nodes.push(n2.clone());

    assert_eq!(&root, tree.get(0).unwrap());
    assert_eq!(&n1, tree.get(1).unwrap());
    assert_eq!(&n2, tree.get(2).unwrap());
}

#[test]
fn test_tree_subtree() {
    let mut root = node("hello");
    root.children = vec![NodeIndex::new(1), NodeIndex::new(2)];
    let mut tree: Tree<BasicNode<String>> = Tree::new();
    tree.root = Some(NodeIndex::new(0));
    tree.nodes.push(root);
    tree.nodes.push(node("world"));
    tree.nodes.push(node("!"));

    let subtree = tree.subtree_view(NodeIndex::new(1)).unwrap();
    assert!(subtree.len() == 1);
    assert!(subtree.root() == &tree.nodes[1]);
}

#[test]
fn test_tree_subtree_unordered() {
    let mut root = node("hello");
    root.children = vec![NodeIndex::new(0), NodeIndex::new(1)];
    let mut tree: Tree<BasicNode<String>> = Tree::new();
    let n1 = node("world");
    let n2 = node("!");
    tree.root = Some(NodeIndex::new(2));
    tree.nodes.push(n1.clone());
    tree.nodes.push(n2);
    tree.nodes.push(root);

    let subtree = tree.subtree_from_node(&n1);
    assert!(subtree.is_some());
    if let Some(s) = subtree {
        assert!(s.len() == 1);
        assert!(s.root() == &tree.nodes[0]);
    }
}

#[test]
fn test_tree_prune_node_root() {
    let mut root = node("hello");
    root.children = vec![NodeIndex::new(0), NodeIndex::new(1)];
    let mut tree: Tree<BasicNode<String>> = Tree::new();
    let n1 = node("world");
    let n2 = node("!");
    tree.root = Some(NodeIndex::new(2));
    tree.nodes.push(n1.clone());
    tree.nodes.push(n2);
    tree.nodes.push(root);

    tree.prune(NodeIndex::new(2)).unwrap();
    assert!(tree.is_empty());
}

#[test]
fn test_tree_prune_node_leaf_non_seq() {
    let mut root = node("hello");
    root.children = vec![NodeIndex::new(0), NodeIndex::new(1)];
    let mut tree: Tree<BasicNode<String>> = Tree::new();
    let n1 = node("world");
    let mut n2 = node("!");
    let mut n3 = node("!!");

    n2.push(NodeIndex::new(3));

    tree.root = Some(NodeIndex::new(2));
    tree.push(n1);
    let index = tree.push(n2);
    n3.set_parent(index);
    tree.push(root);
    tree.push(n3);

    tree.prune(index).unwrap();
    let expect = ["hello", "world"];
    let mut it = tree.iter();
    let mut all = true;
    while let Some(n) = it.next() {
        all = all && expect.contains(&n.value.as_str());
    }
    assert!(all)
}

#[test]
fn test_tree_prune_node_leaf_seq() {
    // construct tree
    let mut tree: Tree<BasicNode<String>> = Tree::new();

    let root = tree.push(node("hello"));

    // construct children
    let lhs = tree.push(BasicNode::new_with_parent_index(String::from("world"), root));
    let rhs = tree.push(BasicNode::new_with_parent_index(String::from("!"), root));
    let _ = tree.push(BasicNode::new_with_parent_index(String::from("!!"), rhs));

    let root_node = tree.root_mut();

    root_node.push(lhs);
    root_node.push(rhs);

    // remove !, and !!
    tree.prune(rhs).unwrap();

    let expect = ["hello", "world"];
    let mut it = tree.iter();
    let mut all = true;
    while let Some(n) = it.next() {
        all = all && expect.contains(&n.value.as_str());
    }
    assert!(all)
}

#[test]
fn test_tree_view_construction() {
    let mut root = node("hello");
    root.children = vec![NodeIndex::new(1), NodeIndex::new(2)];
    let mut tree: Tree<BasicNode<String>> = Tree::new();

    tree.root = Some(NodeIndex::new(0));
    tree.nodes.push(root);

    tree.nodes.push(node("world"));
    tree.nodes.push(node("!"));

    let view = tree.view();
    let vroot = view.root();

    assert!(vroot == &tree.nodes[0])
}

#[test]
fn test_tree_prune_missing_root() {
    let mut tree: Tree<BasicNode<String>> = Tree::new();
    tree.nodes.push(node("hello"));
    tree.root = None;
    assert!(matches!(
        tree.prune(NodeIndex::new(0)),
        Err(mrkle::TreeError::MissingRoot)
    ));
}

#[test]
fn test_tree_prune_out_of_bounds() {
    let mut tree: Tree<BasicNode<String>> = Tree::new();
    tree.push(node("hello"));
    let r = tree.prune(NodeIndex::new(9));
    assert!(matches!(
        r,
        Err(mrkle::TreeError::IndexOutOfBounds { index: 9, len: 1 })
    ));
}

#[test]
fn test_node_child_list_operations() {
    let mut n = node("hello");
    assert!(n.try_push(NodeIndex::new(4)).is_ok());
    assert!(matches!(
        n.try_push(NodeIndex::new(4)),
        Err(mrkle::NodeError::Duplicate { child: 4 })
    ));
    n.push(NodeIndex::new(7));
    assert_eq!(n.pop().map(|i| i.index()), Some(7));
    n.insert(0, NodeIndex::new(9));
    assert_eq!(n.remove(0).index(), 9);
    assert!(n.remove_item(NodeIndex::new(4)));
    assert!(!n.remove_item(NodeIndex::new(4)));
    let drained = n.clear();
    assert!(drained.is_empty());
}

#[test]
fn test_find_by_locates_value() {
    let mut tree: Tree<BasicNode<&str>> = Tree::new();
    let parent = tree.push(BasicNode::new("hello"));
    let child = tree.push(BasicNode::new_with_parent_index("world", parent));
    tree.get_mut(parent.index()).unwrap().push(child);

    let found = tree.find_by(|n: &BasicNode<&str>| n.value == "world");
    assert_eq!(found.map(|i| i.index()), Some(1));
    let missing = tree.find_by(|n: &BasicNode<&str>| n.value == "nope");
    assert!(missing.is_none());
}

#[test]
fn test_find_uses_claimed_parent() {
    let mut tree: Tree<BasicNode<&str>> = Tree::new();
    let parent = tree.push(BasicNode::new("hello"));
    let child = tree.push(BasicNode::new_with_parent_index("world", parent));
    tree.get_mut(parent.index()).unwrap().push(child);

    let probe = BasicNode::new_with_parent_index("world", parent);
    let found = tree.find(&probe);
    assert_eq!(found.map(|i| i.index()), Some(1));
}
