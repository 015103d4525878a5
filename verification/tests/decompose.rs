use polytile::board::make_point_board;
use polytile::geometry::Point;
use polytile::geometry::Shape;
use polytile::geometry::ShapeAttrs;
use polytile::parallel::create_parallel_solver;
use polytile::solver::create_solver;
use polytile::solver::step;
use polytile::solver::Solver;
use polytile::solver::StepEvent;

fn pt(x: i16, y: i16) -> Point {
    Point { x, y }
}

fn domino() -> Shape {
    Shape { points: vec![pt(0, 0), pt(1, 0)], attrs: ShapeAttrs { chiral: false, rotations: 1 } }
}

fn square_2x2() -> Vec<Point> {
    vec![pt(0, 0), pt(0, 1), pt(1, 0), pt(1, 1)]
}

fn solutions_of(mut s: Solver) -> Vec<Vec<Option<String>>> {
    let mut out = Vec::new();
    let mut guard = 0u64;
    loop {
        let (more, ev) = step(&mut s);
        if ev == Some(StepEvent::Solved) {
            let snap: Vec<Option<String>> = s.board.all.iter().map(|p| s.board.at(p)).collect();
            out.push(snap);
        }
        if !more {
            break;
        }
        guard += 1;
        assert!(guard < 1_000_000);
    }
    out
}

fn pieces() -> Vec<(String, Shape)> {
    vec![("A".to_string(), domino()), ("B".to_string(), domino())]
}

#[test]
fn decomposer_covers_the_same_solutions() {
    let direct = {
        let s = create_solver(make_point_board(square_2x2()), pieces());
        let mut sols = solutions_of(s);
        sols.sort();
        sols
    };
    let split = {
        let solvers = create_parallel_solver(make_point_board(square_2x2()), pieces(), 1);
        assert!(!solvers.is_empty());
        let mut sols: Vec<Vec<Option<String>>> = Vec::new();
        for s in solvers {
            sols.extend(solutions_of(s));
        }
        sols.sort();
        sols
    };
    assert!(!direct.is_empty());
    assert_eq!(direct, split);
}

#[test]
fn decomposer_seeds_each_solver_with_the_remaining_shapes() {
    let solvers = create_parallel_solver(make_point_board(square_2x2()), pieces(), 1);
    for s in &solvers {
        assert_eq!(s.labeled_shapes.len(), 1);
        assert_eq!(s.labeled_shapes[0].0, "B".to_string());
        // The prefix shape is already on the harvested board.
        let filled = s.board.all.iter().filter(|p| s.board.at(p).is_some()).count();
        assert_eq!(filled, 2);
    }
}

#[test]
fn decomposer_with_empty_prefix_returns_the_whole_search() {
    // There is exactly one way to place zero shapes, so an empty prefix
    // yields the one trivial continuation: a solver over the untouched
    // board carrying every shape, equivalent to the direct search.
    let direct = solutions_of(create_solver(make_point_board(square_2x2()), pieces()));
    let solvers = create_parallel_solver(make_point_board(square_2x2()), pieces(), 0);
    assert_eq!(solvers.len(), 1);
    let mut solvers = solvers;
    let s = solvers.remove(0);
    assert_eq!(s.labeled_shapes.len(), 2);
    assert!(s.board.all.iter().all(|p| s.board.at(p).is_none()));
    assert_eq!(solutions_of(s), direct);
}

#[test]
fn decomposer_with_full_prefix_yields_one_solver_per_solution() {
    let direct = solutions_of(create_solver(make_point_board(square_2x2()), pieces()));
    let solvers = create_parallel_solver(make_point_board(square_2x2()), pieces(), 2);
    assert_eq!(solvers.len(), direct.len());
    for s in &solvers {
        assert_eq!(s.labeled_shapes.len(), 0);
        assert!(s.board.all.iter().all(|p| s.board.at(p).is_some()));
    }
}

#[test]
fn harvested_solvers_own_independent_boards() {
    let solvers = create_parallel_solver(make_point_board(square_2x2()), pieces(), 1);
    assert!(solvers.len() >= 2);
    let before: Vec<Option<String>> =
        solvers[1].board.all.iter().map(|p| solvers[1].board.at(p)).collect();
    // Driving one solver must not disturb another.
    let mut driven = solvers;
    let s0 = driven.remove(0);
    let _ = solutions_of(s0);
    let after: Vec<Option<String>> =
        driven[0].board.all.iter().map(|p| driven[0].board.at(p)).collect();
    assert_eq!(before, after);
}
