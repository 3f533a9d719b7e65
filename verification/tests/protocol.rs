use willow::{
    ChildUpdate, NewNode, Node, NodeContent, NodeKind, NodeUpdateError, Operation, Scalar, Shape,
    Tree,
};

fn num(value: f32) -> Scalar {
    Scalar { bits: value.to_bits() }
}

fn leaf() -> NewNode {
    NewNode::Shape(Shape::Empty)
}

#[test]
fn errors_read_as_sentences() {
    assert_eq!(NodeUpdateError::InvalidTarget.message(), "invalid update target index");
    assert_eq!(NodeUpdateError::InvalidKeepIndex(2).message(), "invalid kept index: 2");
    assert_eq!(NodeUpdateError::UnownedKeepIndex(0).message(), "unowned kept index: 0");
    assert_eq!(
        NodeUpdateError::DuplicateKeepIndex(4294967295).message(),
        "attempt to keep an index twice: 4294967295"
    );
    assert_eq!(NodeUpdateError::InvalidKeepIndex(1070).message(), "invalid kept index: 1070");
}

#[test]
fn a_new_node_converts_to_an_entry() {
    let entry: ChildUpdate = leaf().into();
    assert!(matches!(entry, ChildUpdate::NewNode(NewNode::Shape(Shape::Empty))));
}

#[test]
fn a_list_of_new_nodes_converts_to_a_group() {
    let content: NodeContent = vec![
        leaf(),
        NewNode::Shape(Shape::Circle { radius: num(1.0) }),
    ]
    .into();
    match content {
        NodeContent::Group { new_children: Some(children) } => {
            assert_eq!(children.len(), 2);
            assert!(matches!(children[0], ChildUpdate::NewNode(NewNode::Shape(Shape::Empty))));
            assert!(matches!(
                &children[1],
                ChildUpdate::NewNode(NewNode::Shape(Shape::Circle { radius })) if *radius == num(1.0)
            ));
        }
        _ => panic!("not a group"),
    }
}

#[test]
fn a_list_of_entries_converts_to_a_group() {
    let content: NodeContent = vec![ChildUpdate::KeepIndex(3), ChildUpdate::NewNode(leaf())].into();
    match content {
        NodeContent::Group { new_children: Some(children) } => {
            assert_eq!(children.len(), 2);
            assert!(matches!(children[0], ChildUpdate::KeepIndex(3)));
            assert!(matches!(children[1], ChildUpdate::NewNode(_)));
        }
        _ => panic!("not a group"),
    }
}

#[test]
fn spend_counts_the_nodes_to_allocate() {
    let subtree = NewNode::Group {
        children: vec![
            leaf(),
            NewNode::Operation {
                operation: Operation::Opacity { opacity: num(1.0) },
                child: Box::new(leaf()),
            },
        ],
    };
    assert_eq!(subtree.spend(10), Some(6));
    assert_eq!(subtree.spend(4), Some(0));
    assert_eq!(subtree.spend(3), None);
    assert_eq!(subtree.spend(0), None);
    assert_eq!(ChildUpdate::KeepIndex(1).spend(0), Some(0));
    let content = NodeContent::Group {
        new_children: Some(vec![
            ChildUpdate::KeepIndex(1),
            ChildUpdate::NewNode(subtree),
            ChildUpdate::NewNode(leaf()),
        ]),
    };
    assert_eq!(content.spend(5), Some(0));
    assert_eq!(content.spend(4), None);
    assert_eq!(NodeContent::Group { new_children: None }.spend(0), Some(0));
    assert_eq!(NodeContent::Shape(Shape::Empty).spend(7), Some(7));
}

#[test]
fn a_tree_has_room_for_small_updates() {
    let tree = Tree::new();
    assert!(tree.has_room(&NodeContent::Shape(Shape::Empty)));
    assert!(tree.has_room(&vec![leaf(), leaf()].into()));
}

#[test]
fn a_new_node_carries_no_flag() {
    let node = Node::new(NodeKind::Group(vec![1, 2]), willow::Aabb::invalid());
    assert!(!node.owned && !node.reused);
    assert_eq!(node.get_kind(), &NodeKind::Group(vec![1, 2]));
    assert_eq!(node.aabb, willow::Aabb::invalid());
}
