use std::collections::HashMap;
use tron_bot::grid::{is_invalid, Grid};
use tron_bot::position::{moves, Position};
use tron_bot::search::{
    children_nodes, evaluate_context, evaluate_node, merge_children, new_node, play, to_direction,
    Context, Move, Node, Scores,
};

fn empty_grid(size_x: i32, size_y: i32) -> Grid {
    Grid::new(size_x, size_y, String::from("{}"))
}

fn fresh_context(grid: Grid, max_depth: u32) -> Context {
    Context {
        grid,
        max_depth,
        scores: Scores { forward: 0, starboard: 0, larboard: 0 },
        explored: HashMap::new(),
    }
}

#[test]
fn heading_horizontal_delta() {
    // dx = +1: forward advances x by dx, laterals shift y by +/- dx.
    let p = Position::new(5, 5, 4, 5);
    let (f, s, l) = moves(&p);
    assert_eq!((f.x, f.y), (6, 5));
    assert_eq!((s.x, s.y), (5, 6));
    assert_eq!((l.x, l.y), (5, 4));
    for q in [f, s, l] {
        assert_eq!((q.previous_x, q.previous_y), (5, 5));
    }
}

#[test]
fn heading_horizontal_negative_delta() {
    let p = Position::new(3, 3, 4, 3);
    let (f, s, l) = moves(&p);
    assert_eq!((f.x, f.y), (2, 3));
    assert_eq!((s.x, s.y), (3, 2));
    assert_eq!((l.x, l.y), (3, 4));
}

#[test]
fn heading_vertical_delta() {
    // dx = 0, dy = +1: forward advances y, starboard shifts x by -dy.
    let p = Position::new(2, 2, 2, 1);
    let (f, s, l) = moves(&p);
    assert_eq!((f.x, f.y), (2, 3));
    assert_eq!((s.x, s.y), (1, 2));
    assert_eq!((l.x, l.y), (3, 2));
}

#[test]
fn heading_ignores_unused_delta() {
    // With a nonzero dx, previous_y plays no part.
    let a = Position::new(5, 5, 4, 5);
    let (f1, s1, l1) = moves(&a);
    let b = Position::new(5, 5, 4, 9);
    let (f2, s2, l2) = moves(&b);
    assert_eq!((f1.x, f1.y), (f2.x, f2.y));
    assert_eq!((s1.x, s1.y), (s2.x, s2.y));
    assert_eq!((l1.x, l1.y), (l2.x, l2.y));
}

#[test]
fn grid_reads_keys_from_snapshot() {
    let grid = Grid::new(5, 5, String::from("{\"2-3\":[],\"0-0\":[\"wall\"],\"1-1\":[1,2]}"));
    assert!(grid.filled(2, 3));
    assert!(grid.filled(0, 0));
    assert!(grid.filled(1, 1));
    assert!(!grid.filled(3, 2));
    assert!(!grid.filled(4, 4));
}

#[test]
fn grid_fails_open_on_malformed_snapshot() {
    for bad in ["nonsense", "[1,2]", "{\"2-3\":5}", "", "{\"2-3\":[]"] {
        let grid = Grid::new(5, 5, String::from(bad));
        for x in 0..5 {
            for y in 0..5 {
                assert!(!grid.filled(x, y));
            }
        }
    }
}

#[test]
fn grid_key_matches_snapshot_format() {
    let k = Grid::key(&Position::new(2, 3, 2, 2));
    assert_eq!(k, String::from("2-3"));
    let k = Grid::key(&Position::new(-1, 12, 0, 12));
    assert_eq!(k, String::from("-1-12"));
    let k = Grid::key(&Position::new(107, -40, 107, -39));
    assert_eq!(k, String::from("107--40"));
}

#[test]
fn grid_negative_coordinates_can_be_occupied() {
    let grid = Grid::new(5, 5, String::from("{\"-1-2\":[]}"));
    assert!(grid.filled(-1, 2));
    assert!(!grid.filled(1, 2));
}

#[test]
fn invalid_outside_bounds_or_occupied() {
    let grid = Grid::new(3, 4, String::from("{\"1-1\":[]}"));
    assert!(is_invalid(&Position::new(-1, 0, 0, 0), &grid));
    assert!(is_invalid(&Position::new(0, -1, 0, 0), &grid));
    assert!(is_invalid(&Position::new(3, 0, 2, 0), &grid));
    assert!(is_invalid(&Position::new(0, 4, 0, 3), &grid));
    assert!(is_invalid(&Position::new(1, 1, 1, 0), &grid));
    assert!(!is_invalid(&Position::new(2, 3, 2, 2), &grid));
}

#[test]
fn direction_names() {
    assert_eq!(to_direction(&Move::Forward), String::from("FORWARD"));
    assert_eq!(to_direction(&Move::Larboard), String::from("LARBOARD"));
    assert_eq!(to_direction(&Move::Starboard), String::from("STARBOARD"));
}

#[test]
fn expansion_filters_invalid_successors() {
    // Forward (2,3) is occupied, so only the lateral children survive.
    let grid = Grid::new(5, 5, String::from("{\"2-3\":[]}"));
    let root = Node {
        depth: 0,
        direction: Move::Forward,
        origin: None,
        position: Position::new(2, 2, 2, 1),
    };
    let children = children_nodes(&grid, &root);
    assert_eq!(children.len(), 2);
    assert_eq!((children[0].position.x, children[0].position.y), (1, 2));
    assert_eq!(children[0].origin, Some(Move::Starboard));
    assert_eq!((children[1].position.x, children[1].position.y), (3, 2));
    assert_eq!(children[1].origin, Some(Move::Larboard));
    for c in &children {
        assert_eq!(c.depth, 1);
    }
}

#[test]
fn expansion_order_is_forward_starboard_larboard() {
    let grid = empty_grid(5, 5);
    let root = Node {
        depth: 0,
        direction: Move::Forward,
        origin: None,
        position: Position::new(2, 2, 2, 1),
    };
    let children = children_nodes(&grid, &root);
    assert_eq!(children.len(), 3);
    assert_eq!(children[0].direction, Move::Forward);
    assert_eq!(children[1].direction, Move::Starboard);
    assert_eq!(children[2].direction, Move::Larboard);
}

#[test]
fn origin_is_fixed_at_the_first_hop() {
    let parent = Node {
        depth: 3,
        direction: Move::Starboard,
        origin: Some(Move::Larboard),
        position: Position::new(2, 2, 1, 2),
    };
    let n = new_node(Position::new(3, 2, 2, 2), &parent, Move::Forward);
    assert_eq!(n.origin, Some(Move::Larboard));
    assert_eq!(n.depth, 4);
    let root = Node {
        depth: 0,
        direction: Move::Forward,
        origin: None,
        position: Position::new(2, 2, 1, 2),
    };
    let first = new_node(Position::new(3, 2, 2, 2), &root, Move::Starboard);
    assert_eq!(first.origin, Some(Move::Starboard));
}

#[test]
fn merge_gathers_all_surviving_children() {
    let grid = empty_grid(5, 5);
    let root = Node {
        depth: 0,
        direction: Move::Forward,
        origin: None,
        position: Position::new(2, 2, 2, 1),
    };
    let merged = merge_children(&grid, &vec![root]);
    assert_eq!(merged.len(), 3);
    let mut cells: Vec<(i32, i32)> = merged.iter().map(|n| (n.position.x, n.position.y)).collect();
    cells.sort();
    assert_eq!(cells, vec![(1, 2), (2, 3), (3, 2)]);
    for n in &merged {
        assert_eq!(n.depth, 1);
        assert_eq!(n.origin, Some(n.direction));
    }
}

#[test]
fn first_visit_credits_origin_with_depth() {
    let mut ctx = fresh_context(empty_grid(5, 5), 3);
    let n = Node {
        depth: 1,
        direction: Move::Forward,
        origin: Some(Move::Forward),
        position: Position::new(2, 3, 2, 2),
    };
    assert!(evaluate_node(&mut ctx, n));
    assert_eq!(ctx.scores, Scores { forward: 1, starboard: 0, larboard: 0 });
}

#[test]
fn equal_depth_duplicate_is_dropped() {
    let mut ctx = fresh_context(empty_grid(5, 5), 3);
    let first = Node {
        depth: 1,
        direction: Move::Forward,
        origin: Some(Move::Forward),
        position: Position::new(2, 3, 2, 2),
    };
    assert!(evaluate_node(&mut ctx, first));
    let duplicate = Node {
        depth: 1,
        direction: Move::Starboard,
        origin: Some(Move::Starboard),
        position: Position::new(2, 3, 1, 3),
    };
    // Dropped: not retained, zero score impact, entry kept for the first node.
    assert!(!evaluate_node(&mut ctx, duplicate));
    assert_eq!(ctx.scores, Scores { forward: 1, starboard: 0, larboard: 0 });
}

#[test]
fn replacement_reattributes_score_across_origins() {
    let mut ctx = fresh_context(empty_grid(5, 5), 3);
    let first = Node {
        depth: 2,
        direction: Move::Forward,
        origin: Some(Move::Starboard),
        position: Position::new(2, 3, 2, 2),
    };
    assert!(evaluate_node(&mut ctx, first));
    assert_eq!(ctx.scores, Scores { forward: 0, starboard: 2, larboard: 0 });
    // A shallower node for the same cell: the old entry is de-credited by its
    // depth, the new node credited with its own, and the entry replaced. The
    // net change to the total score mass is new depth minus old depth.
    let shallower = Node {
        depth: 1,
        direction: Move::Larboard,
        origin: Some(Move::Larboard),
        position: Position::new(2, 3, 1, 3),
    };
    assert!(evaluate_node(&mut ctx, shallower));
    assert_eq!(ctx.scores, Scores { forward: 0, starboard: 0, larboard: 1 });
}

#[test]
fn decision_breaks_ties_toward_forward() {
    let mut ctx = fresh_context(empty_grid(5, 5), 1);
    ctx.scores = Scores { forward: 0, starboard: 0, larboard: 0 };
    assert_eq!(evaluate_context(&ctx), Move::Forward);
    ctx.scores = Scores { forward: 7, starboard: 7, larboard: 7 };
    assert_eq!(evaluate_context(&ctx), Move::Forward);
}

#[test]
fn decision_takes_strictly_highest_score() {
    let mut ctx = fresh_context(empty_grid(5, 5), 1);
    ctx.scores = Scores { forward: 0, starboard: 1, larboard: 1 };
    assert_eq!(evaluate_context(&ctx), Move::Starboard);
    ctx.scores = Scores { forward: 0, starboard: 1, larboard: 2 };
    assert_eq!(evaluate_context(&ctx), Move::Larboard);
    ctx.scores = Scores { forward: 3, starboard: 1, larboard: 2 };
    assert_eq!(evaluate_context(&ctx), Move::Forward);
}

#[test]
fn play_on_open_grid_starts_forward() {
    // 5 by 5 empty grid, heading +y: the level-0 decision is forward on zero
    // scores, and level 1 is a three-way tie, again resolved to forward.
    let decisions = play(Position::new(2, 2, 2, 1), empty_grid(5, 5), 1);
    assert_eq!(decisions, vec![Move::Forward, Move::Forward]);
}

#[test]
fn play_with_forward_blocked_picks_starboard() {
    // Cell (2,3), directly forward at depth 1, is occupied: the forward
    // branch is pruned, starboard and larboard score 1 each, and the tie
    // between them resolves to starboard, the earlier move in the fixed
    // enumeration order.
    let grid = Grid::new(5, 5, String::from("{\"2-3\":[]}"));
    let decisions = play(Position::new(2, 2, 2, 1), grid, 1);
    assert_eq!(decisions, vec![Move::Forward, Move::Starboard]);
}

#[test]
fn play_emits_one_decision_per_level() {
    for d in 0..6 {
        let decisions = play(Position::new(2, 2, 2, 1), empty_grid(5, 5), d);
        assert_eq!(decisions.len(), (d + 1) as usize);
        assert_eq!(decisions[0], Move::Forward);
    }
}

#[test]
fn play_survives_an_exhausted_frontier() {
    // On a 1 by 1 grid every successor is out of bounds: the frontier is
    // empty from level 1 on, and every level still reports forward off the
    // all-zero scores.
    let decisions = play(Position::new(0, 0, 0, 1), empty_grid(1, 1), 5);
    assert_eq!(decisions, vec![Move::Forward; 6]);
}

#[test]
fn play_with_laterals_blocked_keeps_forward() {
    // Both lateral successors of the root are occupied: only the forward
    // branch survives level 1, so forward holds the strictly highest score.
    let grid = Grid::new(5, 5, String::from("{\"1-2\":[],\"3-2\":[]}"));
    let decisions = play(Position::new(2, 2, 2, 1), grid, 1);
    assert_eq!(decisions, vec![Move::Forward, Move::Forward]);
}

#[test]
fn play_with_all_successors_blocked_defaults_forward() {
    let grid = Grid::new(5, 5, String::from("{\"2-3\":[],\"1-2\":[],\"3-2\":[]}"));
    let decisions = play(Position::new(2, 2, 2, 1), grid, 2);
    assert_eq!(decisions, vec![Move::Forward; 3]);
}
