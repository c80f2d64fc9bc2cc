use gloom_rs::scene::{
    build_helicopter_scene, DrawStep, HelicopterNodes, HelicopterParts, MeshDraw, SceneGraph,
};

fn parts() -> HelicopterParts {
    HelicopterParts {
        body: MeshDraw { vao_id: 2, index_count: 300 },
        door: MeshDraw { vao_id: 3, index_count: 30 },
        main_rotor: MeshDraw { vao_id: 4, index_count: 60 },
        tail_rotor: MeshDraw { vao_id: 5, index_count: 12 },
    }
}

#[test]
fn helicopter_scene_plan() {
    let surface = MeshDraw { vao_id: 1, index_count: 900 };
    let scene = build_helicopter_scene(surface, &parts(), 5);
    assert_eq!(scene.root, 0);
    assert_eq!(scene.surface, 1);
    assert_eq!(scene.graph.node_count(), 22);
    assert_eq!(
        scene.helicopters[1],
        HelicopterNodes { body: 6, door: 7, main_rotor: 8, tail_rotor: 9 }
    );
    let plan = scene.graph.draw_plan(scene.root).unwrap();
    assert_eq!(plan.len(), 21);
    assert_eq!(plan[0], DrawStep { node: 1, vao_id: 1, index_count: 900, parent: None });
    assert_eq!(plan[1], DrawStep { node: 2, vao_id: 2, index_count: 300, parent: Some(0) });
    assert_eq!(plan[2], DrawStep { node: 3, vao_id: 3, index_count: 30, parent: Some(1) });
    assert_eq!(plan[4], DrawStep { node: 5, vao_id: 5, index_count: 12, parent: Some(1) });
    assert_eq!(plan[5], DrawStep { node: 6, vao_id: 2, index_count: 300, parent: Some(0) });
    for (i, step) in plan.iter().enumerate() {
        if let Some(p) = step.parent {
            assert!(p < i);
        }
    }
}

#[test]
fn children_of_a_group_node_start_from_the_origin() {
    let mut g = SceneGraph::new();
    let a = g.add_node(1, 3);
    let group = g.add_empty_node();
    let b = g.add_node(2, 6);
    g.add_child(a, group);
    g.add_child(group, b);
    let plan = g.draw_plan(a).unwrap();
    assert_eq!(
        plan,
        vec![
            DrawStep { node: a, vao_id: 1, index_count: 3, parent: None },
            DrawStep { node: b, vao_id: 2, index_count: 6, parent: None },
        ]
    );
}

#[test]
fn shared_child_is_drawn_once_per_parent() {
    let mut g = SceneGraph::new();
    let root = g.add_empty_node();
    let x = g.add_node(1, 3);
    let y = g.add_node(2, 3);
    let shared = g.add_node(3, 3);
    g.add_child(root, x);
    g.add_child(root, y);
    g.add_child(x, shared);
    g.add_child(y, shared);
    let plan = g.draw_plan(root).unwrap();
    let nodes: Vec<usize> = plan.iter().map(|s| s.node).collect();
    assert_eq!(nodes, vec![x, shared, y, shared]);
    assert_eq!(plan[1].parent, Some(0));
    assert_eq!(plan[3].parent, Some(2));
}

#[test]
fn cycle_has_no_plan() {
    let mut g = SceneGraph::new();
    let a = g.add_node(1, 3);
    let b = g.add_node(2, 3);
    g.add_child(a, b);
    g.add_child(b, a);
    assert!(g.draw_plan(a).is_none());
    let mut lone = SceneGraph::new();
    let n = lone.add_empty_node();
    lone.add_child(n, n);
    assert!(lone.draw_plan(n).is_none());
}

#[test]
fn out_of_range_root_has_no_plan() {
    let g = SceneGraph::new();
    assert!(g.draw_plan(0).is_none());
}
