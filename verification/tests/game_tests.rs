use force_graph::game::{pick, Game, Motion, MouseButton, Zoom};
use force_graph::graph::{Circle, Edge, ReferenceError};

fn two_node_game() -> Game {
    let edges = vec![Edge { source: 0, target: 1 }];
    match Game::new(&vec![0, 1], edges) {
        Ok(game) => game,
        Err(_) => panic!("the edge names two nodes"),
    }
}

#[test]
fn new_game_holds_nothing() {
    let game = two_node_game();
    assert_eq!(
        game.circles,
        vec![Circle { id: 0, dragging: false }, Circle { id: 1, dragging: false }]
    );
    assert_eq!(game.edges, vec![Edge { source: 0, target: 1 }]);
    assert_eq!(game.springs, vec![(0, 1)]);
    assert_eq!(game.dragging_circle, None);
    assert!(!game.dragging_pan);
    assert_eq!((game.last_mouse_x, game.last_mouse_y), (0, 0));
    assert_eq!(game.force_scale.hundredths(), 1);
    assert_eq!(game.grid.query(0, 0), Vec::<usize>::new());
}

#[test]
fn new_game_refuses_edge_to_unknown_node() {
    let edges = vec![Edge { source: 3, target: 4 }, Edge { source: 4, target: 9 }];
    match Game::new(&vec![3, 4], edges) {
        Ok(_) => panic!("node 9 does not exist"),
        Err(e) => assert_eq!(e, ReferenceError { edge: 1, node: 9 }),
    }
}

#[test]
fn pick_takes_the_first_hit() {
    assert_eq!(pick(&vec![false, true, true], 3), Some(1));
    assert_eq!(pick(&vec![false, false, false], 3), None);
    assert_eq!(pick(&vec![false, false, true], 2), None);
    assert_eq!(pick(&vec![true], 4), Some(0));
    assert_eq!(pick(&vec![], 4), None);
}

#[test]
fn left_button_on_a_node_holds_it() {
    let mut game = two_node_game();
    game.handle_mouse_button_down(40, 50, MouseButton::Left, &vec![false, true]);
    assert_eq!(game.dragging_circle, Some(1));
    assert!(game.circles[1].dragging);
    assert!(!game.circles[0].dragging);
    assert!(!game.dragging_pan);
    assert_eq!((game.last_mouse_x, game.last_mouse_y), (40, 50));
}

#[test]
fn left_button_on_two_nodes_holds_the_first() {
    let mut game = two_node_game();
    game.handle_mouse_button_down(1, 2, MouseButton::Left, &vec![true, true]);
    assert_eq!(game.dragging_circle, Some(0));
    assert!(game.circles[0].dragging);
    assert!(!game.circles[1].dragging);
}

#[test]
fn left_button_on_the_background_starts_a_pan() {
    let mut game = two_node_game();
    game.handle_mouse_button_down(7, 8, MouseButton::Left, &vec![false, false]);
    assert_eq!(game.dragging_circle, None);
    assert!(game.dragging_pan);
    assert_eq!((game.last_mouse_x, game.last_mouse_y), (7, 8));
}

#[test]
fn other_buttons_do_nothing() {
    let mut game = two_node_game();
    game.handle_mouse_button_down(7, 8, MouseButton::Right, &vec![true, true]);
    assert_eq!(game.dragging_circle, None);
    assert!(!game.dragging_pan);
    assert!(!game.circles[0].dragging);
    assert_eq!((game.last_mouse_x, game.last_mouse_y), (0, 0));
    game.handle_mouse_button_down(1, 1, MouseButton::Left, &vec![true, false]);
    game.handle_mouse_button_up(MouseButton::Middle);
    assert_eq!(game.dragging_circle, Some(0));
    assert!(game.circles[0].dragging);
}

#[test]
fn releasing_lets_the_node_go() {
    let mut game = two_node_game();
    game.handle_mouse_button_down(1, 1, MouseButton::Left, &vec![false, true]);
    game.handle_mouse_button_up(MouseButton::Left);
    assert_eq!(game.dragging_circle, None);
    assert!(!game.circles[1].dragging);
    assert!(!game.dragging_pan);
    assert_eq!((game.last_mouse_x, game.last_mouse_y), (1, 1));
}

#[test]
fn releasing_ends_a_pan() {
    let mut game = two_node_game();
    game.handle_mouse_button_down(1, 1, MouseButton::Left, &vec![false, false]);
    assert!(game.dragging_pan);
    game.handle_mouse_button_up(MouseButton::Left);
    assert!(!game.dragging_pan);
}

#[test]
fn motion_while_holding_a_node_drags_it() {
    let mut game = two_node_game();
    game.handle_mouse_button_down(1, 1, MouseButton::Left, &vec![false, true]);
    assert_eq!(game.handle_mouse_motion(30, 40), Motion::Drag { index: 1 });
    assert_eq!((game.last_mouse_x, game.last_mouse_y), (1, 1));
}

#[test]
fn motion_while_holding_the_background_pans() {
    let mut game = two_node_game();
    game.handle_mouse_button_down(10, 20, MouseButton::Left, &vec![false, false]);
    assert_eq!(game.handle_mouse_motion(13, 15), Motion::Pan { dx: 3, dy: -5 });
    assert_eq!((game.last_mouse_x, game.last_mouse_y), (13, 15));
    assert_eq!(game.handle_mouse_motion(13, 15), Motion::Pan { dx: 0, dy: 0 });
}

#[test]
fn pan_distance_is_exact_at_the_rim() {
    let mut game = two_node_game();
    game.handle_mouse_button_down(i32::MIN, i32::MAX, MouseButton::Left, &vec![false, false]);
    assert_eq!(
        game.handle_mouse_motion(i32::MAX, i32::MIN),
        Motion::Pan { dx: 4294967295, dy: -4294967295 }
    );
}

#[test]
fn motion_with_nothing_held_is_idle() {
    let mut game = two_node_game();
    assert_eq!(game.handle_mouse_motion(5, 5), Motion::Idle);
    assert_eq!((game.last_mouse_x, game.last_mouse_y), (0, 0));
}

#[test]
fn motion_with_a_held_id_that_no_node_carries_is_idle() {
    let mut game = two_node_game();
    game.dragging_circle = Some(42);
    game.dragging_pan = true;
    assert_eq!(game.handle_mouse_motion(5, 5), Motion::Idle);
    game.handle_mouse_button_up(MouseButton::Left);
    assert_eq!(game.dragging_circle, Some(42));
    assert!(!game.dragging_pan);
}

#[test]
fn wheel_forward_zooms_in() {
    let game = two_node_game();
    assert_eq!(game.handle_mouse_wheel(1), Zoom::In);
    assert_eq!(game.handle_mouse_wheel(0), Zoom::Out);
    assert_eq!(game.handle_mouse_wheel(-3), Zoom::Out);
}

#[test]
fn a_tick_rebuilds_the_grid_and_steps_the_ramp() {
    let mut game = two_node_game();
    game.grid.insert(9, 0, 0);
    assert_eq!(game.update(&vec![(0, 0), (0, 1)]), 1);
    assert_eq!(game.grid.query(0, 0), vec![0, 1]);
    assert_eq!(game.force_scale.hundredths(), 2);
    assert_eq!(game.update(&vec![(0, 0), (5, 5)]), 2);
    assert_eq!(game.grid.query(0, 0), vec![0]);
    assert_eq!(game.force_scale.hundredths(), 3);
}

#[test]
fn the_scale_of_a_tick_ramps_to_full_and_stays() {
    let mut game = two_node_game();
    let cells: Vec<(i32, i32)> = vec![(0, 0), (0, 0)];
    for tick in 0..100u32 {
        assert_eq!(game.update(&cells), 1 + tick);
    }
    for _ in 0..50 {
        assert_eq!(game.update(&cells), 100);
    }
    assert_eq!(game.force_scale.hundredths(), 100);
}

#[test]
fn a_held_node_stays_held_through_a_tick() {
    let mut game = two_node_game();
    game.handle_mouse_button_down(1, 1, MouseButton::Left, &vec![true, false]);
    game.update(&vec![(0, 0), (0, 0)]);
    assert!(game.circles[0].dragging);
    assert_eq!(game.dragging_circle, Some(0));
    assert_eq!(
        force_graph::physics::interaction_partners(&game.circles, &game.grid, 0, 0, 0),
        Vec::<usize>::new()
    );
    assert_eq!(
        force_graph::physics::interaction_partners(&game.circles, &game.grid, 1, 0, 0),
        vec![0]
    );
}

#[test]
fn press_then_release_leaves_the_nodes_as_they_were() {
    let mut game = two_node_game();
    let before = game.circles.clone();
    game.handle_mouse_button_down(3, 4, MouseButton::Left, &vec![false, true]);
    assert_eq!(game.handle_mouse_motion(9, 9), Motion::Drag { index: 1 });
    game.handle_mouse_button_up(MouseButton::Left);
    assert_eq!(game.circles, before);
    assert_eq!(game.dragging_circle, None);
}
