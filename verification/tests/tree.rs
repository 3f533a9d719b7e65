use willow::{
    Aabb, Arithmetic, ChildUpdate, Mat3, NewNode, NodeContent, NodeKind, NodeUpdate,
    NodeUpdateError, NodeUpdateResponse, Operation, Scalar, Shape, Tree, Vec2, Vec3, WalkEvent,
    WalkTree,
};

struct Glam;

fn num(value: f32) -> Scalar {
    Scalar { bits: value.to_bits() }
}

fn float(value: Scalar) -> f32 {
    f32::from_bits(value.bits)
}

fn vec2(x: f32, y: f32) -> Vec2 {
    Vec2 { x: num(x), y: num(y) }
}

fn to_glam(v: Vec2) -> glam::Vec2 {
    glam::Vec2::new(float(v.x), float(v.y))
}

fn from_glam(v: glam::Vec2) -> Vec2 {
    vec2(v.x, v.y)
}

fn column(v: glam::Vec3) -> Vec3 {
    Vec3 { x: num(v.x), y: num(v.y), z: num(v.z) }
}

fn glam_column(v: Vec3) -> glam::Vec3 {
    glam::Vec3::new(float(v.x), float(v.y), float(v.z))
}

fn mat_from_glam(m: glam::Mat3) -> Mat3 {
    Mat3 { x_axis: column(m.x_axis), y_axis: column(m.y_axis), z_axis: column(m.z_axis) }
}

fn mat_to_glam(m: &Mat3) -> glam::Mat3 {
    glam::Mat3::from_cols(glam_column(m.x_axis), glam_column(m.y_axis), glam_column(m.z_axis))
}

impl Arithmetic for Glam {
    fn sum(&self, a: Vec2, b: Vec2) -> Vec2 {
        from_glam(to_glam(a) + to_glam(b))
    }

    fn difference(&self, a: Vec2, b: Vec2) -> Vec2 {
        from_glam(to_glam(a) - to_glam(b))
    }

    fn scaled(&self, a: Vec2, factor: Scalar) -> Vec2 {
        from_glam(to_glam(a) * float(factor))
    }

    fn rotated(&self, a: Vec2, angle: Scalar) -> Vec2 {
        from_glam(glam::Mat2::from_angle(float(angle)) * to_glam(a))
    }

    fn times(&self, count: usize, unit: Scalar) -> Scalar {
        num(count as f32 * float(unit))
    }

    fn translation(&self, offset: Vec2) -> Mat3 {
        mat_from_glam(glam::Mat3::from_translation(to_glam(offset)))
    }

    fn rotation(&self, angle: Scalar) -> Mat3 {
        mat_from_glam(glam::Mat3::from_rotation_z(float(angle)))
    }

    fn scaling(&self, scale: Scalar) -> Mat3 {
        mat_from_glam(glam::Mat3::from_scale(glam::Vec2::splat(float(scale))))
    }

    fn product(&self, a: &Mat3, b: &Mat3) -> Mat3 {
        mat_from_glam(mat_to_glam(a) * mat_to_glam(b))
    }

    fn transform_point(&self, m: &Mat3, p: Vec2) -> Vec2 {
        from_glam(mat_to_glam(m).transform_point2(to_glam(p)))
    }
}

fn group(children: Vec<ChildUpdate>) -> NodeContent {
    NodeContent::Group { new_children: Some(children) }
}

fn three_empty() -> NodeContent {
    vec![
        NewNode::Shape(Shape::Empty),
        NewNode::Shape(Shape::Empty),
        NewNode::Shape(Shape::Empty),
    ]
    .into()
}

fn boxed(min: (f32, f32), max: (f32, f32)) -> Aabb {
    Aabb { min: vec2(min.0, min.1), max: vec2(max.0, max.1) }
}

#[test]
fn create_tree() {
    let _tree = Tree::new();
}

#[test]
fn fresh_tree_holds_one_empty_root() {
    let tree = Tree::new();
    let root = tree.get(0).unwrap();
    assert_eq!(root.kind, NodeKind::Shape(Shape::Empty));
    assert_eq!(root.aabb, Aabb::invalid());
    assert_eq!(float(root.aabb.min.x), f32::INFINITY);
    assert_eq!(float(root.aabb.max.y), f32::NEG_INFINITY);
    assert!(!root.owned && !root.reused);
    assert!(tree.get(1).is_none());
    assert!(!tree.contains(1));
}

#[test]
fn invalid_update_target() {
    let mut tree = Tree::new();
    let content = NodeContent::Shape(Shape::Empty);
    let update = NodeUpdate { target: 1, content };
    assert!(tree.update_node(update, &Glam).is_err());
}

#[test]
fn invalid_target_leaves_the_tree() {
    let mut tree = Tree::new();
    tree.update_node(NodeUpdate { target: 0, content: three_empty() }, &Glam).unwrap();
    let result = tree.update_node(
        NodeUpdate { target: 9, content: NodeContent::Shape(Shape::Circle { radius: num(2.0) }) },
        &Glam,
    );
    assert_eq!(result, Err(NodeUpdateError::InvalidTarget));
    assert_eq!(tree.get(0).unwrap().kind, NodeKind::Group(vec![1, 2, 3]));
    for index in 1..4 {
        assert_eq!(tree.get(index).unwrap().kind, NodeKind::Shape(Shape::Empty));
    }
    assert!(tree.get(4).is_none());
}

#[test]
fn update_root_shape() {
    let mut tree = Tree::new();
    let shape = Shape::Circle { radius: num(1.0) };
    let content = NodeContent::Shape(shape.clone());
    let update = NodeUpdate { target: 0, content };
    let response = tree.update_node(update, &Glam).unwrap();
    let kind = NodeKind::Shape(shape);
    assert_eq!(tree.get(0).unwrap().kind, kind);
    assert_eq!(response, NodeUpdateResponse { new_nodes: vec![] });
    assert_eq!(tree.get(0).unwrap().aabb, boxed((-1.0, -1.0), (1.0, 1.0)));
}

#[test]
fn update_root_operation() {
    let mut tree = Tree::new();
    let response = tree
        .update_node(
            NodeUpdate {
                target: 0,
                content: NodeContent::Operation {
                    operation: Operation::Translate { offset: vec2(1.0, 1.0) },
                    child: NewNode::Shape(Shape::Circle { radius: num(1.0) }).into(),
                },
            },
            &Glam,
        )
        .unwrap();
    assert_eq!(response.new_nodes, vec![1]);
    assert_eq!(
        tree.get(0).unwrap().kind,
        NodeKind::Operation { operation: Operation::Translate { offset: vec2(1.0, 1.0) }, child: 1 }
    );
    assert_eq!(tree.get(0).unwrap().aabb, boxed((0.0, 0.0), (2.0, 2.0)));
    assert_eq!(tree.get(1).unwrap().aabb, boxed((-1.0, -1.0), (1.0, 1.0)));
}

#[test]
fn update_root_group() {
    let mut tree = Tree::new();
    let response = tree.update_node(NodeUpdate { target: 0, content: three_empty() }, &Glam).unwrap();

    assert_eq!(response, NodeUpdateResponse { new_nodes: vec![1, 2, 3] });
    assert_eq!(tree.get(0).unwrap().kind, NodeKind::Group(vec![1, 2, 3]));
}

#[test]
fn keep_group_index() {
    let mut tree = Tree::new();
    let response = tree.update_node(NodeUpdate { target: 0, content: three_empty() }, &Glam).unwrap();

    let response = tree
        .update_node(
            NodeUpdate {
                target: 0,
                content: vec![
                    ChildUpdate::NewNode(NewNode::Shape(Shape::Circle { radius: num(1.0) })),
                    ChildUpdate::KeepIndex(response.new_nodes[1]),
                    ChildUpdate::KeepIndex(response.new_nodes[2]),
                ]
                .into(),
            },
            &Glam,
        )
        .unwrap();

    assert_eq!(response.new_nodes, vec![4]);
    assert_eq!(tree.get(1), None);
    assert!(tree.contains(0) && tree.contains(2) && tree.contains(3) && tree.contains(4));
    assert!(!tree.contains(5));
    assert_eq!(tree.get(0).unwrap().kind, NodeKind::Group(vec![4, 2, 3]));
    assert_eq!(tree.get(2).unwrap().kind, NodeKind::Shape(Shape::Empty));
    assert_eq!(tree.get(0).unwrap().aabb, boxed((-1.0, -1.0), (1.0, 1.0)));
}

#[test]
fn invalid_keep_index() {
    let mut tree = Tree::new();
    let new_nodes = tree
        .update_node(
            NodeUpdate { target: 0, content: vec![NewNode::Shape(Shape::Empty)].into() },
            &Glam,
        )
        .unwrap()
        .new_nodes;

    assert_eq!(new_nodes, vec![1]);

    let result = tree.update_node(
        NodeUpdate { target: 0, content: vec![ChildUpdate::KeepIndex(2)].into() },
        &Glam,
    );

    assert_eq!(result, Err(NodeUpdateError::InvalidKeepIndex(2)));
    assert_eq!(tree.get(0).unwrap().kind, NodeKind::Group(vec![1]));
    assert!(tree.contains(1) && !tree.contains(2));
    assert!(!tree.get(1).unwrap().owned && !tree.get(1).unwrap().reused);
}

#[test]
fn self_keep_index() {
    let mut tree = Tree::new();
    let result = tree.update_node(
        NodeUpdate { target: 0, content: vec![ChildUpdate::KeepIndex(0)].into() },
        &Glam,
    );

    assert_eq!(result, Err(NodeUpdateError::UnownedKeepIndex(0)));
}

#[test]
fn failed_update_unsets_node_flags() {
    let mut tree = Tree::new();

    let new_nodes = tree
        .update_node(
            NodeUpdate { target: 0, content: vec![NewNode::Shape(Shape::Empty)].into() },
            &Glam,
        )
        .unwrap()
        .new_nodes;

    assert_eq!(new_nodes, vec![1]);

    tree.update_node(
        NodeUpdate { target: 0, content: vec![ChildUpdate::KeepIndex(2)].into() },
        &Glam,
    )
    .unwrap_err();

    assert!(!tree.get(1).unwrap().owned);
}

#[test]
fn duplicate_keep_index() {
    let mut tree = Tree::new();
    tree.update_node(NodeUpdate { target: 0, content: three_empty() }, &Glam).unwrap();
    let result = tree.update_node(
        NodeUpdate {
            target: 0,
            content: group(vec![
                ChildUpdate::KeepIndex(2),
                ChildUpdate::NewNode(NewNode::Shape(Shape::Empty)),
                ChildUpdate::KeepIndex(2),
            ]),
        },
        &Glam,
    );
    assert_eq!(result, Err(NodeUpdateError::DuplicateKeepIndex(2)));
    assert_eq!(tree.get(0).unwrap().kind, NodeKind::Group(vec![1, 2, 3]));
    assert!(!tree.contains(4));
    for index in 1..4 {
        let node = tree.get(index).unwrap();
        assert!(!node.owned && !node.reused);
    }
    let response = tree
        .update_node(
            NodeUpdate { target: 0, content: group(vec![ChildUpdate::NewNode(NewNode::Shape(Shape::Empty))]) },
            &Glam,
        )
        .unwrap();
    assert_eq!(response.new_nodes, vec![4]);
}

#[test]
fn a_new_index_cannot_be_kept() {
    let mut tree = Tree::new();
    let result = tree.update_node(
        NodeUpdate {
            target: 0,
            content: group(vec![
                ChildUpdate::NewNode(NewNode::Shape(Shape::Empty)),
                ChildUpdate::KeepIndex(1),
            ]),
        },
        &Glam,
    );
    assert_eq!(result, Err(NodeUpdateError::UnownedKeepIndex(1)));
    assert!(!tree.contains(1));
    assert_eq!(tree.get(0).unwrap().kind, NodeKind::Shape(Shape::Empty));
}

#[test]
fn children_come_before_their_parent() {
    let mut tree = Tree::new();
    let subtree = NewNode::Operation {
        operation: Operation::Scale { scale: num(2.0) },
        child: Box::new(NewNode::Group {
            children: vec![
                NewNode::Shape(Shape::Circle { radius: num(1.0) }),
                NewNode::Shape(Shape::Rectangle { min: vec2(0.0, 0.0), max: vec2(3.0, 4.0) }),
            ],
        }),
    };
    let response = tree
        .update_node(NodeUpdate { target: 0, content: group(vec![ChildUpdate::NewNode(subtree)]) }, &Glam)
        .unwrap();
    assert_eq!(response.new_nodes, vec![1, 2, 3, 4]);
    assert_eq!(tree.get(0).unwrap().kind, NodeKind::Group(vec![4]));
    assert_eq!(
        tree.get(4).unwrap().kind,
        NodeKind::Operation { operation: Operation::Scale { scale: num(2.0) }, child: 3 }
    );
    assert_eq!(tree.get(3).unwrap().kind, NodeKind::Group(vec![1, 2]));
    assert_eq!(tree.get(3).unwrap().aabb, boxed((-1.0, -1.0), (3.0, 4.0)));
    assert_eq!(tree.get(4).unwrap().aabb, boxed((-2.0, -2.0), (6.0, 8.0)));
    assert_eq!(tree.get(0).unwrap().aabb, boxed((-2.0, -2.0), (6.0, 8.0)));
}

#[test]
fn abandoned_subtrees_are_freed_whole() {
    let mut tree = Tree::new();
    let deep = NewNode::Group {
        children: vec![
            NewNode::Operation {
                operation: Operation::Opacity { opacity: num(0.5) },
                child: Box::new(NewNode::Shape(Shape::Empty)),
            },
            NewNode::Shape(Shape::Empty),
        ],
    };
    let response = tree
        .update_node(
            NodeUpdate {
                target: 0,
                content: group(vec![
                    ChildUpdate::NewNode(deep),
                    ChildUpdate::NewNode(NewNode::Shape(Shape::Empty)),
                ]),
            },
            &Glam,
        )
        .unwrap();
    assert_eq!(response.new_nodes, vec![1, 2, 3, 4, 5]);
    assert_eq!(tree.get(0).unwrap().kind, NodeKind::Group(vec![4, 5]));
    let response = tree
        .update_node(NodeUpdate { target: 0, content: group(vec![ChildUpdate::KeepIndex(5)]) }, &Glam)
        .unwrap();
    assert_eq!(response.new_nodes, Vec::<u32>::new());
    for index in 1..5 {
        assert!(!tree.contains(index));
    }
    assert!(tree.contains(0) && tree.contains(5));
    assert_eq!(tree.get(0).unwrap().kind, NodeKind::Group(vec![5]));
}

#[test]
fn an_absent_list_is_an_empty_group() {
    let mut tree = Tree::new();
    tree.update_node(NodeUpdate { target: 0, content: three_empty() }, &Glam).unwrap();
    let response = tree
        .update_node(NodeUpdate { target: 0, content: NodeContent::Group { new_children: None } }, &Glam)
        .unwrap();
    assert_eq!(response.new_nodes, Vec::<u32>::new());
    assert_eq!(tree.get(0).unwrap().kind, NodeKind::Group(vec![]));
    assert_eq!(tree.get(0).unwrap().aabb, Aabb::invalid());
    for index in 1..4 {
        assert!(!tree.contains(index));
    }
}

#[test]
fn new_with_content_rewrites_the_root() {
    let (tree, response) = Tree::new_with_content(three_empty(), &Glam).unwrap();
    assert_eq!(response.new_nodes, vec![1, 2, 3]);
    assert_eq!(tree.get(0).unwrap().kind, NodeKind::Group(vec![1, 2, 3]));
    let refused =
        Tree::new_with_content(group(vec![ChildUpdate::KeepIndex(7)]), &Glam).map(|made| made.1);
    assert_eq!(refused, Err(NodeUpdateError::InvalidKeepIndex(7)));
}

#[test]
fn add_new_node_leaves_a_subtree_without_parent() {
    let mut tree = Tree::new();
    let mut indices = vec![9];
    let index = tree.add_new_node(
        &mut indices,
        NewNode::Operation {
            operation: Operation::Blur { radius: num(2.0) },
            child: Box::new(NewNode::Shape(Shape::Circle { radius: num(1.0) })),
        },
        &Glam,
    );
    assert_eq!(index, 2);
    assert_eq!(indices, vec![9, 1, 2]);
    assert_eq!(tree.get(2).unwrap().aabb, boxed((-3.0, -3.0), (3.0, 3.0)));
    assert_eq!(tree.get(0).unwrap().kind, NodeKind::Shape(Shape::Empty));
}

#[derive(Default)]
struct Recorder {
    calls: Vec<String>,
}

impl WalkTree for Recorder {
    fn on_shape(&mut self, shape: &Shape) {
        self.calls.push(format!("shape {:?}", shape));
    }

    fn push_operation(&mut self, operation: &Operation) {
        self.calls.push(format!("push {:?}", operation));
    }

    fn pop_operation(&mut self, operation: &Operation) {
        self.calls.push(format!("pop {:?}", operation));
    }

    fn on_aabb(&mut self, aabb: &Aabb) {
        self.calls.push(format!("aabb {:?}", aabb));
    }
}

fn circle(radius: f32) -> NewNode {
    NewNode::Shape(Shape::Circle { radius: num(radius) })
}

fn moved(x: f32, y: f32, child: NewNode) -> NewNode {
    NewNode::Operation { operation: Operation::Translate { offset: vec2(x, y) }, child: Box::new(child) }
}

fn viewport() -> Aabb {
    boxed((0.0, 0.0), (100.0, 100.0))
}

#[test]
fn culling_skips_subtree() {
    let content = NodeContent::Operation {
        operation: Operation::Translate { offset: vec2(1000.0, 1000.0) },
        child: ChildUpdate::NewNode(circle(1.0)),
    };
    let (mut tree, _) = Tree::new_with_content(content, &Glam).unwrap();
    assert_eq!(tree.get(0).unwrap().aabb, boxed((999.0, 999.0), (1001.0, 1001.0)));
    assert_eq!(tree.trace(&viewport(), &Glam), vec![]);
    let mut recorder = Recorder::default();
    tree.walk(&mut recorder, &viewport(), &Glam);
    assert_eq!(recorder.calls, Vec::<String>::new());
}

#[test]
fn culling_skips_only_what_is_out_of_sight() {
    let content = group(vec![
        ChildUpdate::NewNode(moved(1000.0, 1000.0, circle(1.0))),
        ChildUpdate::NewNode(moved(50.0, 50.0, circle(2.0))),
    ]);
    let (tree, response) = Tree::new_with_content(content, &Glam).unwrap();
    assert_eq!(response.new_nodes, vec![1, 2, 3, 4]);
    assert_eq!(
        tree.trace(&viewport(), &Glam),
        vec![WalkEvent::Push(4), WalkEvent::Shape(3), WalkEvent::Pop(4)]
    );
    assert_eq!(tree.trace(&boxed((990.0, 990.0), (1010.0, 1010.0)), &Glam), vec![
        WalkEvent::Push(2),
        WalkEvent::Shape(1),
        WalkEvent::Pop(2)
    ]);
}

#[test]
fn a_box_that_only_touches_the_viewport_is_culled() {
    let content = NodeContent::Shape(Shape::Rectangle { min: vec2(100.0, 0.0), max: vec2(110.0, 10.0) });
    let (tree, _) = Tree::new_with_content(content, &Glam).unwrap();
    assert_eq!(tree.trace(&viewport(), &Glam), vec![]);
    assert_eq!(tree.trace(&boxed((0.0, 0.0), (100.5, 100.0)), &Glam), vec![WalkEvent::Shape(0)]);
}

#[test]
fn an_empty_shape_is_never_seen() {
    let tree = Tree::new();
    assert_eq!(tree.trace(&viewport(), &Glam), vec![]);
}

#[test]
fn group_children_are_walked_in_their_order() {
    let content = group(vec![
        ChildUpdate::NewNode(circle(1.0)),
        ChildUpdate::NewNode(circle(2.0)),
        ChildUpdate::NewNode(circle(3.0)),
    ]);
    let (mut tree, _) = Tree::new_with_content(content, &Glam).unwrap();
    let view = boxed((-10.0, -10.0), (10.0, 10.0));
    assert_eq!(tree.trace(&view, &Glam), vec![
        WalkEvent::Shape(1),
        WalkEvent::Shape(2),
        WalkEvent::Shape(3)
    ]);
    let mut recorder = Recorder::default();
    tree.walk(&mut recorder, &view, &Glam);
    assert_eq!(recorder.calls, vec![
        format!("shape {:?}", Shape::Circle { radius: num(1.0) }),
        format!("shape {:?}", Shape::Circle { radius: num(2.0) }),
        format!("shape {:?}", Shape::Circle { radius: num(3.0) }),
    ]);
}

#[test]
fn pushes_and_pops_nest() {
    let stroke = Operation::Stroke(willow::Stroke::Solid {
        color: Vec3 { x: num(0.0), y: num(0.0), z: num(1.0) },
    });
    let inner = NewNode::Operation {
        operation: Operation::Scale { scale: num(2.0) },
        child: Box::new(NewNode::Group { children: vec![circle(1.0), moved(500.0, 0.0, circle(1.0))] }),
    };
    let content = NodeContent::Operation { operation: stroke.clone(), child: ChildUpdate::NewNode(inner) };
    let (mut tree, response) = Tree::new_with_content(content, &Glam).unwrap();
    assert_eq!(response.new_nodes, vec![1, 2, 3, 4, 5]);
    let view = boxed((-10.0, -10.0), (10.0, 10.0));
    let trace = tree.trace(&view, &Glam);
    assert_eq!(trace, vec![
        WalkEvent::Push(0),
        WalkEvent::Push(5),
        WalkEvent::Shape(1),
        WalkEvent::Pop(5),
        WalkEvent::Pop(0)
    ]);
    let mut open = Vec::new();
    for event in trace {
        match event {
            WalkEvent::Push(id) => open.push(id),
            WalkEvent::Pop(id) => assert_eq!(open.pop(), Some(id)),
            WalkEvent::Shape(_) => {}
        }
    }
    assert!(open.is_empty());
    let mut recorder = Recorder::default();
    tree.walk(&mut recorder, &view, &Glam);
    assert_eq!(recorder.calls, vec![
        format!("push {:?}", stroke),
        format!("push {:?}", Operation::Scale { scale: num(2.0) }),
        format!("shape {:?}", Shape::Circle { radius: num(1.0) }),
        format!("pop {:?}", Operation::Scale { scale: num(2.0) }),
        format!("pop {:?}", stroke),
    ]);
}

#[test]
fn transforms_compose_from_the_root_down() {
    // scale by 2, then move by (30, 0) in the scaled space: the circle lies at (60, 0)
    let content = NodeContent::Operation {
        operation: Operation::Scale { scale: num(2.0) },
        child: ChildUpdate::NewNode(moved(30.0, 0.0, circle(1.0))),
    };
    let (tree, _) = Tree::new_with_content(content, &Glam).unwrap();
    assert_eq!(tree.get(2).unwrap().aabb, boxed((29.0, -1.0), (31.0, 1.0)));
    assert_eq!(tree.get(0).unwrap().aabb, boxed((58.0, -2.0), (62.0, 2.0)));
    let seen = vec![WalkEvent::Push(0), WalkEvent::Push(2), WalkEvent::Shape(1), WalkEvent::Pop(2), WalkEvent::Pop(0)];
    assert_eq!(tree.trace(&boxed((57.0, -3.0), (63.0, 3.0)), &Glam), seen);
    // a viewport that meets the root's box but not the circle's own box in world space
    assert_eq!(tree.trace(&boxed((58.0, 1.5), (62.0, 3.0)), &Glam), seen);
    assert_eq!(tree.trace(&boxed((0.0, -3.0), (57.0, 3.0)), &Glam), vec![]);
}

#[test]
fn text_box_grows_with_the_length_in_bytes() {
    let text = Shape::Text { content: "héllo".to_string(), font: "sans".to_string() };
    let (tree, _) = Tree::new_with_content(NodeContent::Shape(text), &Glam).unwrap();
    assert_eq!(tree.get(0).unwrap().aabb, boxed((-5.0, -10.0), (60.0, 5.0)));
}

#[test]
fn rounded_rectangle_box_ignores_the_radii() {
    let shape = Shape::RoundedRectangle {
        min: vec2(1.0, 2.0),
        max: vec2(3.0, 4.0),
        radii: willow::Vec4 { x: num(9.0), y: num(9.0), z: num(9.0), w: num(9.0) },
    };
    let (tree, _) = Tree::new_with_content(NodeContent::Shape(shape), &Glam).unwrap();
    assert_eq!(tree.get(0).unwrap().aabb, boxed((1.0, 2.0), (3.0, 4.0)));
}

#[test]
fn rotation_box_is_the_box_of_the_turned_corners() {
    let angle = 0.5f32;
    let rectangle = Shape::Rectangle { min: vec2(1.0, 2.0), max: vec2(4.0, 3.0) };
    let content = NodeContent::Operation {
        operation: Operation::Rotation { angle: num(angle) },
        child: ChildUpdate::NewNode(NewNode::Shape(rectangle)),
    };
    let (tree, _) = Tree::new_with_content(content, &Glam).unwrap();
    let mat = glam::Mat2::from_angle(angle);
    let mut min = glam::Vec2::INFINITY;
    let mut max = glam::Vec2::NEG_INFINITY;
    for corner in [
        glam::vec2(1.0, 2.0),
        glam::vec2(1.0, 3.0),
        glam::vec2(4.0, 2.0),
        glam::vec2(4.0, 3.0),
    ] {
        let corner = mat * corner;
        min = min.min(corner);
        max = max.max(corner);
    }
    assert_eq!(tree.get(0).unwrap().aabb, Aabb { min: from_glam(min), max: from_glam(max) });
}

#[test]
fn stroke_and_opacity_keep_the_box_and_blur_widens_it() {
    let mut tree = Tree::new();
    let mut indices = Vec::new();
    let stroke = Operation::Stroke(willow::Stroke::Solid {
        color: Vec3 { x: num(1.0), y: num(0.0), z: num(0.0) },
    });
    let wrap = |operation: Operation, child: NewNode| NewNode::Operation { operation, child: Box::new(child) };
    let node = wrap(
        Operation::Blur { radius: num(3.0) },
        wrap(Operation::Opacity { opacity: num(0.5) }, wrap(stroke, circle(2.0))),
    );
    let index = tree.add_new_node(&mut indices, node, &Glam);
    assert_eq!(indices, vec![1, 2, 3, 4]);
    assert_eq!(index, 4);
    assert_eq!(tree.get(2).unwrap().aabb, boxed((-2.0, -2.0), (2.0, 2.0)));
    assert_eq!(tree.get(3).unwrap().aabb, boxed((-2.0, -2.0), (2.0, 2.0)));
    assert_eq!(tree.get(4).unwrap().aabb, boxed((-5.0, -5.0), (5.0, 5.0)));
}

#[test]
fn create_new_node_takes_the_boxes_of_the_children() {
    let (mut tree, _) = Tree::new_with_content(
        group(vec![ChildUpdate::NewNode(circle(1.0)), ChildUpdate::NewNode(moved(5.0, 5.0, circle(1.0)))]),
        &Glam,
    )
    .unwrap();
    let node = tree.create_new_node(NodeKind::Group(vec![1, 3]), &Glam);
    assert_eq!(node.get_kind(), &NodeKind::Group(vec![1, 3]));
    assert_eq!(node.aabb, boxed((-1.0, -1.0), (6.0, 6.0)));
    assert!(!node.owned && !node.reused);
    let leaf = tree.create_new_node(NodeKind::Shape(Shape::Empty), &Glam);
    assert_eq!(leaf.aabb, Aabb::invalid());
}

#[test]
fn slots_are_counted_and_reused() {
    let mut tree = Tree::new();
    assert_eq!(tree.slot_count(), 1);
    tree.update_node(NodeUpdate { target: 0, content: three_empty() }, &Glam).unwrap();
    assert_eq!(tree.slot_count(), 4);
    tree.update_node(NodeUpdate { target: 0, content: NodeContent::Shape(Shape::Empty) }, &Glam).unwrap();
    assert_eq!(tree.slot_count(), 4);
    assert!(tree.has_room(&three_empty()));
    let response = tree.update_node(NodeUpdate { target: 0, content: three_empty() }, &Glam).unwrap();
    assert_eq!(tree.slot_count(), 4);
    assert_eq!(response.new_nodes, vec![3, 2, 1]);
    assert_eq!(tree.get(0).unwrap().kind, NodeKind::Group(vec![3, 2, 1]));
}

#[test]
fn a_refused_update_gives_back_its_indices() {
    let mut tree = Tree::new();
    tree.update_node(NodeUpdate { target: 0, content: three_empty() }, &Glam).unwrap();
    let refused = tree.update_node(
        NodeUpdate {
            target: 0,
            content: group(vec![
                ChildUpdate::NewNode(moved(1.0, 1.0, circle(1.0))),
                ChildUpdate::KeepIndex(1),
                ChildUpdate::NewNode(circle(1.0)),
                ChildUpdate::KeepIndex(8),
            ]),
        },
        &Glam,
    );
    assert_eq!(refused, Err(NodeUpdateError::InvalidKeepIndex(8)));
    assert_eq!(tree.get(0).unwrap().kind, NodeKind::Group(vec![1, 2, 3]));
    for index in 4..8 {
        assert!(!tree.contains(index));
    }
    let response = tree
        .update_node(
            NodeUpdate {
                target: 0,
                content: group(vec![
                    ChildUpdate::KeepIndex(1),
                    ChildUpdate::KeepIndex(2),
                    ChildUpdate::KeepIndex(3),
                    ChildUpdate::NewNode(moved(1.0, 1.0, circle(1.0))),
                    ChildUpdate::NewNode(circle(1.0)),
                ]),
            },
            &Glam,
        )
        .unwrap();
    assert_eq!(response.new_nodes, vec![4, 5, 6]);
    assert_eq!(tree.get(0).unwrap().kind, NodeKind::Group(vec![1, 2, 3, 5, 6]));
}

#[test]
fn freed_indices_are_issued_again_last_freed_first() {
    let deep = NewNode::Group { children: vec![moved(1.0, 1.0, circle(1.0)), circle(2.0)] };
    let (mut tree, response) = Tree::new_with_content(
        group(vec![ChildUpdate::NewNode(deep), ChildUpdate::NewNode(circle(3.0))]),
        &Glam,
    )
    .unwrap();
    assert_eq!(response.new_nodes, vec![1, 2, 3, 4, 5]);
    assert_eq!(tree.get(4).unwrap().kind, NodeKind::Group(vec![2, 3]));
    // the group 4 leaves first, then 2 and the circle 1 below it, then 3
    tree.update_node(NodeUpdate { target: 0, content: group(vec![ChildUpdate::KeepIndex(5)]) }, &Glam)
        .unwrap();
    let response = tree
        .update_node(
            NodeUpdate {
                target: 0,
                content: group(vec![
                    ChildUpdate::KeepIndex(5),
                    ChildUpdate::NewNode(moved(0.0, 0.0, moved(0.0, 0.0, moved(0.0, 0.0, circle(1.0))))),
                    ChildUpdate::NewNode(circle(1.0)),
                ]),
            },
            &Glam,
        )
        .unwrap();
    assert_eq!(response.new_nodes, vec![3, 1, 2, 4, 6]);
}

#[test]
fn updating_an_inner_node_keeps_its_place() {
    let (mut tree, _) = Tree::new_with_content(
        group(vec![ChildUpdate::NewNode(moved(1.0, 1.0, circle(1.0))), ChildUpdate::NewNode(circle(2.0))]),
        &Glam,
    )
    .unwrap();
    assert_eq!(tree.get(0).unwrap().kind, NodeKind::Group(vec![2, 3]));
    let response = tree
        .update_node(
            NodeUpdate {
                target: 2,
                content: NodeContent::Operation {
                    operation: Operation::Scale { scale: num(3.0) },
                    child: ChildUpdate::KeepIndex(1),
                },
            },
            &Glam,
        )
        .unwrap();
    assert_eq!(response.new_nodes, Vec::<u32>::new());
    assert_eq!(tree.get(0).unwrap().kind, NodeKind::Group(vec![2, 3]));
    assert_eq!(
        tree.get(2).unwrap().kind,
        NodeKind::Operation { operation: Operation::Scale { scale: num(3.0) }, child: 1 }
    );
    assert_eq!(tree.get(2).unwrap().aabb, boxed((-3.0, -3.0), (3.0, 3.0)));
    assert_eq!(tree.get(1).unwrap().kind, NodeKind::Shape(Shape::Circle { radius: num(1.0) }));
    let refused = tree.update_node(
        NodeUpdate { target: 2, content: group(vec![ChildUpdate::KeepIndex(3)]) },
        &Glam,
    );
    assert_eq!(refused, Err(NodeUpdateError::UnownedKeepIndex(3)));
}

#[test]
fn new_indices_are_distinct_and_were_free() {
    let (mut tree, first) = Tree::new_with_content(three_empty(), &Glam).unwrap();
    let before: Vec<u32> = (0..16).filter(|index| tree.contains(*index)).collect();
    assert_eq!(before, vec![0, 1, 2, 3]);
    let response = tree
        .update_node(
            NodeUpdate {
                target: 0,
                content: group(vec![
                    ChildUpdate::KeepIndex(first.new_nodes[0]),
                    ChildUpdate::NewNode(moved(1.0, 1.0, circle(1.0))),
                    ChildUpdate::NewNode(circle(1.0)),
                ]),
            },
            &Glam,
        )
        .unwrap();
    assert_eq!(response.new_nodes, vec![4, 5, 6]);
    for (place, index) in response.new_nodes.iter().enumerate() {
        assert!(!before.contains(index));
        assert!(tree.contains(*index));
        assert!(!response.new_nodes[..place].contains(index));
    }
}

#[test]
fn a_kept_child_stays_as_it_was() {
    let (mut tree, _) = Tree::new_with_content(
        group(vec![ChildUpdate::NewNode(moved(2.0, 3.0, circle(1.0))), ChildUpdate::NewNode(circle(4.0))]),
        &Glam,
    )
    .unwrap();
    let kept = tree.get(2).unwrap().clone();
    let below = tree.get(1).unwrap().clone();
    assert_eq!(kept.aabb, boxed((1.0, 2.0), (3.0, 4.0)));
    let response = tree
        .update_node(
            NodeUpdate {
                target: 0,
                content: group(vec![ChildUpdate::NewNode(circle(9.0)), ChildUpdate::KeepIndex(2)]),
            },
            &Glam,
        )
        .unwrap();
    assert_eq!(response.new_nodes, vec![4]);
    assert_eq!(tree.get(0).unwrap().kind, NodeKind::Group(vec![4, 2]));
    assert!(!tree.contains(3));
    assert_eq!(tree.get(2), Some(&kept));
    assert_eq!(tree.get(1), Some(&below));
    assert_eq!(tree.get(0).unwrap().aabb, boxed((-9.0, -9.0), (9.0, 9.0)));
}
