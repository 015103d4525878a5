use polytile::board::add;
use polytile::board::make_point_board;
use polytile::board::Board;
use polytile::geometry::Point;

fn pt(x: i16, y: i16) -> Point {
    Point { x, y }
}

fn square_2x2() -> Board {
    make_point_board(vec![pt(0, 0), pt(0, 1), pt(1, 0), pt(1, 1)])
}

fn remaining_sorted(b: &Board) -> Vec<Point> {
    let mut r = b.remaining();
    r.sort_by_key(|p| (p.x, p.y));
    r
}

#[test]
fn add_sums_coordinates() {
    assert_eq!(add(&pt(1, 2), &pt(3, 4)), pt(4, 6));
    assert_eq!(add(&pt(-1, 5), &pt(1, -5)), pt(0, 0));
}

#[test]
fn new_board_is_all_unfilled() {
    let b = square_2x2();
    assert_eq!(b.remaining(), vec![pt(0, 0), pt(0, 1), pt(1, 0), pt(1, 1)]);
    assert_eq!(b.at(&pt(0, 0)), None);
    assert_eq!(b.at(&pt(5, 5)), None);
}

#[test]
fn fill_marks_translated_cells() {
    let mut b = square_2x2();
    let eps = b.fill(&vec![pt(0, 0), pt(1, 0)], pt(0, 1), "A");
    assert_eq!(eps, Some(vec![pt(0, 1), pt(1, 1)]));
    assert_eq!(b.at(&pt(0, 1)), Some("A".to_string()));
    assert_eq!(b.at(&pt(1, 1)), Some("A".to_string()));
    assert_eq!(b.at(&pt(0, 0)), None);
    assert_eq!(b.remaining(), vec![pt(0, 0), pt(1, 0)]);
}

#[test]
fn fill_preserves_domain_order_of_remaining() {
    let mut b = square_2x2();
    b.fill(&vec![pt(0, 0)], pt(0, 1), "A").unwrap();
    // The domain order is (0,0), (0,1), (1,0), (1,1); with (0,1) taken the
    // unfilled cells must come back in that same relative order.
    assert_eq!(b.remaining(), vec![pt(0, 0), pt(1, 0), pt(1, 1)]);
}

#[test]
fn fill_fails_atomically_on_occupied_cell() {
    let mut b = square_2x2();
    assert!(b.fill(&vec![pt(0, 0)], pt(0, 0), "A").is_some());
    let r = b.fill(&vec![pt(0, 0), pt(0, 1)], pt(0, 0), "B");
    assert_eq!(r, None);
    // The overlapping attempt must not have changed anything.
    assert_eq!(b.at(&pt(0, 0)), Some("A".to_string()));
    assert_eq!(b.at(&pt(0, 1)), None);
    assert_eq!(remaining_sorted(&b), vec![pt(0, 1), pt(1, 0), pt(1, 1)]);
}

#[test]
fn fill_fails_outside_the_domain() {
    let mut b = square_2x2();
    assert_eq!(b.fill(&vec![pt(0, 0), pt(1, 0)], pt(1, 0), "A"), None);
    assert_eq!(b.remaining().len(), 4);
}

#[test]
fn fill_of_no_points_succeeds_vacuously() {
    let mut b = square_2x2();
    let eps = b.fill(&vec![], pt(0, 0), "A");
    assert_eq!(eps, Some(vec![]));
    assert_eq!(b.remaining().len(), 4);
}

#[test]
fn fill_unfill_round_trip_restores_remaining() {
    let mut b = square_2x2();
    let before = remaining_sorted(&b);
    let first = b.fill(&vec![pt(0, 0), pt(1, 0)], pt(0, 0), "A").unwrap();
    let second = b.fill(&vec![pt(0, 0), pt(1, 0)], pt(0, 1), "B").unwrap();
    assert!(b.remaining().is_empty());
    b.unfill(second);
    b.unfill(first);
    assert_eq!(remaining_sorted(&b), before);
    assert_eq!(b.at(&pt(0, 0)), None);
}

#[test]
fn reachable_counts_the_component_up_to_the_limit() {
    let b = square_2x2();
    assert_eq!(b.reachable(&pt(0, 0), 10), 4);
    assert_eq!(b.reachable(&pt(0, 0), 4), 4);
    assert_eq!(b.reachable(&pt(0, 0), 2), 2);
    assert_eq!(b.reachable(&pt(0, 0), 0), 0);
}

#[test]
fn reachable_is_zero_for_filled_or_outside_start() {
    let mut b = square_2x2();
    assert_eq!(b.reachable(&pt(7, 7), 10), 0);
    b.fill(&vec![pt(0, 0)], pt(0, 0), "A").unwrap();
    assert_eq!(b.reachable(&pt(0, 0), 10), 0);
}

#[test]
fn reachable_is_monotone_in_the_limit() {
    let b = make_point_board(vec![pt(0, 0), pt(1, 0), pt(2, 0), pt(3, 0), pt(4, 0)]);
    let mut prev = 0;
    for limit in 0..8 {
        let r = b.reachable(&pt(2, 0), limit);
        assert!(r <= limit);
        assert!(r >= prev, "reachable must not shrink as the limit grows");
        prev = r;
    }
    assert_eq!(prev, 5);
}

#[test]
fn reachable_respects_walls() {
    // A 1x5 row with the middle cell filled: from the left end only the two
    // left cells are connected.
    let mut b = make_point_board(vec![pt(0, 0), pt(1, 0), pt(2, 0), pt(3, 0), pt(4, 0)]);
    b.fill(&vec![pt(0, 0)], pt(2, 0), "W").unwrap();
    assert_eq!(b.reachable(&pt(0, 0), 10), 2);
    assert_eq!(b.reachable(&pt(4, 0), 10), 2);
    assert_eq!(b.reachable(&pt(2, 0), 10), 0);
}

#[test]
fn board_new_with_custom_directions() {
    // Diagonal-only adjacency: the four cells of the square split into two
    // diagonal components.
    let b = Board::new(
        vec![pt(0, 0), pt(0, 1), pt(1, 0), pt(1, 1)],
        vec![pt(1, 1), pt(-1, -1), pt(1, -1), pt(-1, 1)],
    );
    assert_eq!(b.reachable(&pt(0, 0), 10), 2);
}
