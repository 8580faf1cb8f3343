use force_graph::graph::{find_circle, resolve_edges, Circle, Edge, ReferenceError};

fn circles(ids: &[usize]) -> Vec<Circle> {
    ids.iter().map(|&id| Circle { id, dragging: false }).collect()
}

#[test]
fn a_new_circle_is_free() {
    assert_eq!(Circle::new(12), Circle { id: 12, dragging: false });
}

#[test]
fn find_circle_gives_position_of_id() {
    let cs = circles(&[10, 20, 30]);
    assert_eq!(find_circle(&cs, 10), Some(0));
    assert_eq!(find_circle(&cs, 30), Some(2));
    assert_eq!(find_circle(&cs, 25), None);
    assert_eq!(find_circle(&Vec::new(), 0), None);
}

#[test]
fn find_circle_takes_the_first_of_equal_ids() {
    let cs = circles(&[4, 7, 7, 4]);
    assert_eq!(find_circle(&cs, 7), Some(1));
    assert_eq!(find_circle(&cs, 4), Some(0));
}

#[test]
fn resolve_edges_maps_ids_to_positions() {
    let cs = circles(&[5, 3, 8]);
    let edges = vec![
        Edge { source: 8, target: 5 },
        Edge { source: 3, target: 3 },
        Edge { source: 5, target: 3 },
    ];
    assert_eq!(resolve_edges(&cs, &edges), Ok(vec![(2, 0), (1, 1), (0, 1)]));
}

#[test]
fn resolve_edges_of_no_edges_is_empty() {
    let cs = circles(&[1]);
    assert_eq!(resolve_edges(&cs, &Vec::new()), Ok(Vec::new()));
}

#[test]
fn resolve_edges_reports_unknown_source() {
    let cs = circles(&[0, 1]);
    let edges = vec![Edge { source: 0, target: 1 }, Edge { source: 2, target: 9 }];
    assert_eq!(resolve_edges(&cs, &edges), Err(ReferenceError { edge: 1, node: 2 }));
}

#[test]
fn resolve_edges_reports_unknown_target() {
    let cs = circles(&[0, 1]);
    let edges = vec![Edge { source: 1, target: 7 }, Edge { source: 5, target: 0 }];
    assert_eq!(resolve_edges(&cs, &edges), Err(ReferenceError { edge: 0, node: 7 }));
}

#[test]
fn two_nodes_one_edge_resolve_to_one_spring() {
    let cs = circles(&[0, 1]);
    let edges = vec![Edge { source: 0, target: 1 }];
    assert_eq!(resolve_edges(&cs, &edges), Ok(vec![(0, 1)]));
}
