use polytile::board::make_point_board;
use polytile::geometry::Point;
use polytile::geometry::Shape;
use polytile::geometry::ShapeAttrs;
use polytile::solver::create_solver;
use polytile::solver::set_prune;
use polytile::solver::step;
use polytile::solver::Solver;
use polytile::solver::StepEvent;

fn pt(x: i16, y: i16) -> Point {
    Point { x, y }
}

fn shape(points: Vec<Point>, chiral: bool, rotations: u8) -> Shape {
    Shape { points, attrs: ShapeAttrs { chiral, rotations } }
}

fn square_2x2() -> Vec<Point> {
    vec![pt(0, 0), pt(0, 1), pt(1, 0), pt(1, 1)]
}

/// Drives the solver to exhaustion, collecting the ordered event sequence
/// and a snapshot of the board at every `Solved` event.
fn run(mut s: Solver) -> (Vec<StepEvent>, Vec<Vec<Option<String>>>) {
    let mut events = Vec::new();
    let mut solutions = Vec::new();
    let mut guard = 0u64;
    loop {
        let (more, ev) = step(&mut s);
        if let Some(e) = ev {
            events.push(e);
            if e == StepEvent::Solved {
                let snap: Vec<Option<String>> = s.board.all.iter().map(|p| s.board.at(p)).collect();
                solutions.push(snap);
            }
        }
        if !more {
            break;
        }
        guard += 1;
        assert!(guard < 1_000_000, "search did not terminate in a reasonable step count");
    }
    (events, solutions)
}

#[test]
fn empty_shape_list_terminates_immediately() {
    let board = make_point_board(square_2x2());
    let mut s = create_solver(board, vec![]);
    let (more, ev) = step(&mut s);
    assert!(!more);
    assert!(ev.is_none());
}

#[test]
fn row_of_four_solved_exactly_once() {
    let board = make_point_board(vec![pt(0, 0), pt(1, 0), pt(2, 0), pt(3, 0)]);
    let i_piece = shape(vec![pt(0, 0), pt(1, 0), pt(2, 0), pt(3, 0)], false, 0);
    let s = create_solver(board, vec![("I".to_string(), i_piece)]);
    let (events, solutions) = run(s);
    assert_eq!(events, vec![StepEvent::Solved]);
    assert_eq!(solutions.len(), 1);
    let want: Vec<Option<String>> = (0..4).map(|_| Some("I".to_string())).collect();
    assert_eq!(solutions[0], want);
}

#[test]
fn three_cell_piece_on_square_fails_to_place() {
    // A 3-cell piece on a 4-cell board: the piece fits at one anchor, but a
    // placement of the last catalogue shape counts only when it completes
    // the covering, so that fit is undone on the spot. After exhausting all
    // four anchors with its one variant the frame never placed, and the
    // whole run reports exactly one FailedToPlace — never Placed or Solved.
    let board = make_point_board(square_2x2());
    let l_piece = shape(vec![pt(0, 0), pt(1, 0), pt(0, 1)], false, 0);
    let s = create_solver(board, vec![("L".to_string(), l_piece)]);
    let (events, solutions) = run(s);
    assert_eq!(events, vec![StepEvent::FailedToPlace]);
    assert!(solutions.is_empty());
}

#[test]
fn no_solved_when_shapes_cannot_cover_the_board() {
    // Two dominoes on a 1x5 row: four cells of shape can never cover five,
    // so no Solved is ever reported; every solved board would have had an
    // empty cell.
    let board = make_point_board(vec![pt(0, 0), pt(1, 0), pt(2, 0), pt(3, 0), pt(4, 0)]);
    let a = shape(vec![pt(0, 0), pt(1, 0)], false, 1);
    let b = shape(vec![pt(0, 0), pt(1, 0)], false, 1);
    let s = create_solver(board, vec![("A".to_string(), a), ("B".to_string(), b)]);
    let (events, solutions) = run(s);
    assert!(!events.contains(&StepEvent::Solved));
    assert!(events.contains(&StepEvent::Placed));
    assert!(events.contains(&StepEvent::FailedToPlace));
    assert!(solutions.is_empty());
}

#[test]
fn failed_to_place_when_shape_never_fits() {
    let board = make_point_board(square_2x2());
    let bar = shape(vec![pt(0, 0), pt(1, 0), pt(2, 0)], false, 0);
    let s = create_solver(board, vec![("B".to_string(), bar)]);
    let (events, solutions) = run(s);
    assert_eq!(events, vec![StepEvent::FailedToPlace]);
    assert_eq!(solutions.len(), 0);
}

#[test]
fn zero_point_shape_is_trivially_non_placeable() {
    let board = make_point_board(vec![pt(0, 0)]);
    let empty = shape(vec![], false, 0);
    let s = create_solver(board, vec![("E".to_string(), empty)]);
    let (events, solutions) = run(s);
    assert_eq!(events, vec![StepEvent::FailedToPlace]);
    assert_eq!(solutions.len(), 0);
}

#[test]
fn two_dominoes_tile_the_square() {
    let board = make_point_board(square_2x2());
    let a = shape(vec![pt(0, 0), pt(1, 0)], false, 1);
    let b = shape(vec![pt(0, 0), pt(1, 0)], false, 1);
    let s = create_solver(board, vec![("A".to_string(), a), ("B".to_string(), b)]);
    let (events, solutions) = run(s);
    assert!(events.contains(&StepEvent::Solved));
    assert!(!solutions.is_empty());
    for sol in &solutions {
        for cell in sol {
            assert!(cell.is_some(), "a solved board must be fully covered");
        }
    }
    // Both pairings exist: A on top with B below, and A left with B right,
    // each also with the roles swapped where anchors allow it.
    let mut sorted = solutions.clone();
    sorted.sort();
    sorted.dedup();
    assert_eq!(sorted.len(), solutions.len(), "solutions are distinct");
}

#[test]
fn prune_does_not_change_the_solution_set() {
    // Two L-trominoes tiling a 2x3 rectangle: collect the solved boards
    // with the reachability prune on and off; the sets must be identical.
    let cells = vec![pt(0, 0), pt(1, 0), pt(2, 0), pt(0, 1), pt(1, 1), pt(2, 1)];
    let tromino = shape(vec![pt(0, 0), pt(1, 0), pt(0, 1)], true, 3);
    let pieces = vec![
        ("A".to_string(), tromino.clone()),
        ("B".to_string(), tromino),
    ];
    let s1 = create_solver(make_point_board(cells.clone()), clone_pieces(&pieces));
    let (_, mut with_prune) = run(s1);
    let mut s2 = create_solver(make_point_board(cells), clone_pieces(&pieces));
    set_prune(&mut s2, false);
    let (_, mut without_prune) = run(s2);
    assert!(!with_prune.is_empty());
    with_prune.sort();
    without_prune.sort();
    assert_eq!(with_prune, without_prune);
}

#[test]
fn identical_inputs_give_identical_event_sequences() {
    let cells = vec![pt(0, 0), pt(1, 0), pt(2, 0), pt(0, 1), pt(1, 1), pt(2, 1)];
    let tromino = shape(vec![pt(0, 0), pt(1, 0), pt(0, 1)], true, 3);
    let pieces = vec![
        ("A".to_string(), tromino.clone()),
        ("B".to_string(), tromino),
    ];
    let s1 = create_solver(make_point_board(cells.clone()), clone_pieces(&pieces));
    let s2 = create_solver(make_point_board(cells), clone_pieces(&pieces));
    let (e1, sol1) = run(s1);
    let (e2, sol2) = run(s2);
    assert_eq!(e1, e2);
    assert_eq!(sol1, sol2);
}

/// Test-side deep copy of a labeled shape list.
fn clone_pieces(pieces: &[(String, Shape)]) -> Vec<(String, Shape)> {
    pieces.iter().map(|(l, s)| (l.clone(), s.clone())).collect()
}
