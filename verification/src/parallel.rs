//! The parallel decomposer: run the engine to exhaustion over a prefix of
//! the shape catalogue, and for every complete placement of that prefix
//! harvest an independent solver seeded with the resulting board and the
//! remaining shapes. The returned solvers share nothing: each owns a deep
//! copy of its board, so they can be driven concurrently.

use crate::board::Board;
use crate::geometry::Point;
use crate::geometry::Shape;
use crate::geometry::shape_ok;
use crate::solver::Solver;
use crate::solver::StepEvent;
use crate::solver::create_solver;
use crate::solver::lemma_prefix_placement_congruent;
use crate::solver::lemma_solved_prefix_placement;
use crate::solver::prefix_placement;
use crate::solver::step;
use vstd::prelude::*;

verus! {

/// A deep copy of a point list.
fn clone_point_vec(v: &Vec<Point>) -> (r: Vec<Point>)
    ensures
        r@ == v@,
{
    let mut r: Vec<Point> = Vec::new();
    let mut i: usize = 0;
    while i < v.len()
        invariant
            i <= v@.len(),
            r@ == v@.take(i as int),
        decreases v@.len() - i,
    {
        r.push(v[i]);
        proof {
            assert(v@.take(i + 1) =~= v@.take(i as int).push(v@[i as int]));
        }
        i = i + 1;
    }
    proof {
        assert(v@.take(v@.len() as int) =~= v@);
    }
    r
}

/// A deep copy of a shape: same offsets, same attributes.
fn clone_shape(s: &Shape) -> (r: Shape)
    ensures
        r.points@ == s.points@,
        r.attrs == s.attrs,
{
    Shape { points: clone_point_vec(&s.points), attrs: s.attrs }
}

/// A deep copy of a labeled shape list.
fn clone_pairs(v: &Vec<(String, Shape)>) -> (r: Vec<(String, Shape)>)
    ensures
        r@.len() == v@.len(),
        forall|j: int|
            0 <= j < v@.len() ==> (#[trigger] r@[j]).0 == v@[j].0 && r@[j].1.points@
                == v@[j].1.points@ && r@[j].1.attrs == v@[j].1.attrs,
{
    let mut r: Vec<(String, Shape)> = Vec::new();
    let mut i: usize = 0;
    while i < v.len()
        invariant
            i <= v@.len(),
            r@.len() == i,
            forall|j: int|
                0 <= j < i ==> (#[trigger] r@[j]).0 == v@[j].0 && r@[j].1.points@
                    == v@[j].1.points@ && r@[j].1.attrs == v@[j].1.attrs,
        decreases v@.len() - i,
    {
        let ghost r0 = r@;
        let p = &v[i];
        let pair = (p.0.clone(), clone_shape(&p.1));
        r.push(pair);
        proof {
            assert(r@ == r0.push(pair));
            assert(r@[i as int] == pair);
            assert(pair.0 == v@[i as int].0);
            assert(forall|j: int| 0 <= j < i ==> r@[j] == r0[j]);
        }
        i = i + 1;
    }
    r
}

/// A deep copy of a board: same domain, same adjacency offsets, same cell
/// contents, and no aliasing with the original.
fn clone_board(b: &Board) -> (r: Board)
    requires
        b.inv(),
    ensures
        r.inv(),
        r.all@ == b.all@,
        r.dirs@ == b.dirs@,
        r.cells@ == b.cells@,
        r.cells_view() == b.cells_view(),
{
    let all2 = clone_point_vec(&b.all);
    let dirs2 = clone_point_vec(&b.dirs);
    let mut cells2: Vec<Option<String>> = Vec::new();
    let mut i: usize = 0;
    while i < b.cells.len()
        invariant
            b.inv(),
            i <= b.cells@.len(),
            cells2@.len() == i,
            forall|k: int| 0 <= k < i ==> cells2@[k] == b.cells@[k],
        decreases b.cells@.len() - i,
    {
        match &b.cells[i] {
            Some(s) => cells2.push(Some(s.clone())),
            None => cells2.push(None),
        }
        i = i + 1;
    }
    let r = Board { all: all2, cells: cells2, dirs: dirs2 };
    proof {
        assert(r.cells@ =~= b.cells@);
        assert(r.cells_view() =~= b.cells_view());
    }
    r
}

/// Run the engine to exhaustion over the first `n` shapes; every complete
/// placement of that prefix yields one harvested solver over a deep copy of
/// the reached board, seeded with the remaining shapes. The prefix search
/// runs with the full-cover rule off: its harvested boards cover only part
/// of the domain, and each harvested solver applies that rule itself when
/// its own last shape goes down. An empty prefix has exactly one placement, so it
/// yields the one trivial continuation: the whole search, untouched. Each
/// harvested solver is well-formed, owns the same domain, and carries
/// exactly the shapes after the prefix, in order.
pub fn create_parallel_solver(board: Board, pieces: Vec<(String, Shape)>, n: usize) -> (solvers:
    Vec<Solver>)
    requires
        board.inv(),
        n <= pieces@.len(),
        forall|i: int| 0 <= i < pieces@.len() ==> shape_ok(#[trigger] pieces@[i].1),
    ensures
        forall|k: int|
            0 <= k < solvers@.len() ==> (#[trigger] solvers@[k]).inv() && solvers@[k].board.all@
                == board.all@ && solvers@[k].labeled_shapes@.len() == pieces@.len() - n
                && solvers@[k].prune && solvers@[k].require_full
                && solvers@[k].shape_states@.len() == (if pieces@.len() == n {
                0int
            } else {
                1int
            }) && (forall|
                j: int,
            |
                0 <= j < pieces@.len() - n ==> (#[trigger] solvers@[k].labeled_shapes@[j]).0
                    == pieces@[j + n].0 && solvers@[k].labeled_shapes@[j].1.points@ == pieces@[j
                    + n].1.points@ && solvers@[k].labeled_shapes@[j].1.attrs == pieces@[j
                    + n].1.attrs),
        forall|k: int|
            0 <= k < solvers@.len() ==> prefix_placement(
                board.all@,
                board.cells_view(),
                pieces@,
                n as int,
                (#[trigger] solvers@[k]).board.cells_view(),
            ),
        n == 0 ==> solvers@.len() == 1,
{
    let ghost all0 = board.all@;
    let ghost cv0 = board.cells_view();
    if n == 0 {
        let nb = clone_board(&board);
        let all_pieces = clone_pairs(&pieces);
        proof {
            assert forall|j: int| 0 <= j < all_pieces@.len() implies shape_ok(
                (#[trigger] all_pieces@[j]).1,
            ) by {
                assert(shape_ok(pieces@[j].1));
                assert(all_pieces@[j].1.points@ == pieces@[j].1.points@);
                assert(all_pieces@[j].1.attrs == pieces@[j].1.attrs);
                assert forall|t: int|
                    0 <= t < all_pieces@[j].1.points@.len() implies crate::geometry::coords_in_range(
                    #[trigger] all_pieces@[j].1.points@[t],
                ) by {
                    assert(all_pieces@[j].1.points@[t] == pieces@[j].1.points@[t]);
                }
            }
        }
        let ns = create_solver(nb, all_pieces);
        let mut solvers: Vec<Solver> = Vec::new();
        solvers.push(ns);
        proof {
            assert(solvers@[0] == ns);
            assert(solvers@.len() == 1);
        }
        return solvers;
    }
    let total = pieces.len();
    let mut first_n: Vec<(String, Shape)> = Vec::new();
    let mut remainder: Vec<(String, Shape)> = Vec::new();
    let mut i: usize = 0;
    while i < total
        invariant
            total == pieces@.len(),
            n <= total,
            i <= total,
            first_n@.len() == (if i <= n {
                i as int
            } else {
                n as int
            }),
            remainder@.len() == (if i <= n {
                0int
            } else {
                i - n
            }),
            forall|j: int|
                0 <= j < first_n@.len() ==> (#[trigger] first_n@[j]).0 == pieces@[j].0
                    && first_n@[j].1.points@ == pieces@[j].1.points@ && first_n@[j].1.attrs
                    == pieces@[j].1.attrs,
            forall|j: int|
                0 <= j < remainder@.len() ==> (#[trigger] remainder@[j]).0 == pieces@[j + n].0
                    && remainder@[j].1.points@ == pieces@[j + n].1.points@
                    && remainder@[j].1.attrs == pieces@[j + n].1.attrs,
        decreases total - i,
    {
        let p = &pieces[i];
        let pair = (p.0.clone(), clone_shape(&p.1));
        if i < n {
            first_n.push(pair);
        } else {
            remainder.push(pair);
        }
        i = i + 1;
    }
    proof {
        assert forall|j: int| 0 <= j < first_n@.len() implies shape_ok(
            (#[trigger] first_n@[j]).1,
        ) by {
            assert(shape_ok(pieces@[j].1));
        }
    }
    let ghost firstv = first_n@;
    let mut sub = create_solver(board, first_n);
    sub.require_full = false;
    let mut solvers: Vec<Solver> = Vec::new();
    loop
        invariant
            sub.inv(),
            sub.board.all@ == all0,
            sub.labeled_shapes@ == firstv,
            firstv.len() == n as int,
            forall|j: int|
                0 <= j < n ==> (#[trigger] firstv[j]).0 == pieces@[j].0 && firstv[j].1.points@
                    == pieces@[j].1.points@ && firstv[j].1.attrs == pieces@[j].1.attrs,
            sub.shape_states@.len() > 0 ==> sub.trail@[0] == cv0,
            n <= pieces@.len(),
            remainder@.len() == pieces@.len() - n,
            forall|j: int|
                0 <= j < remainder@.len() ==> (#[trigger] remainder@[j]).0 == pieces@[j + n].0
                    && remainder@[j].1.points@ == pieces@[j + n].1.points@
                    && remainder@[j].1.attrs == pieces@[j + n].1.attrs,
            forall|j: int| 0 <= j < pieces@.len() ==> shape_ok(#[trigger] pieces@[j].1),
            forall|k: int|
                0 <= k < solvers@.len() ==> (#[trigger] solvers@[k]).inv() && solvers@[k].board.all@
                    == all0 && solvers@[k].labeled_shapes@.len() == pieces@.len() - n
                    && solvers@[k].prune && solvers@[k].require_full
                    && solvers@[k].shape_states@.len() == (if pieces@.len()
                    == n {
                    0int
                } else {
                    1int
                }) && prefix_placement(all0, cv0, pieces@, n as int, solvers@[k].board.cells_view())
                    && (forall|
                    j: int,
                |
                    0 <= j < pieces@.len() - n ==> (#[trigger] solvers@[k].labeled_shapes@[j]).0
                        == pieces@[j + n].0 && solvers@[k].labeled_shapes@[j].1.points@ == pieces@[j
                        + n].1.points@ && solvers@[k].labeled_shapes@[j].1.attrs == pieces@[j
                        + n].1.attrs),
        decreases sub.measure(),
    {
        let (more, ev) = step(&mut sub);
        let is_solved = match ev {
            Some(StepEvent::Solved) => true,
            _ => false,
        };
        if is_solved {
            proof {
                lemma_solved_prefix_placement(sub);
                lemma_prefix_placement_congruent(
                    all0,
                    cv0,
                    sub.labeled_shapes@,
                    pieces@,
                    n as int,
                    sub.board.cells_view(),
                );
            }
            let nb = clone_board(&sub.board);
            let rem2 = clone_pairs(&remainder);
            proof {
                assert forall|j: int| 0 <= j < rem2@.len() implies shape_ok(
                    (#[trigger] rem2@[j]).1,
                ) by {
                    assert(shape_ok(pieces@[j + n].1));
                    assert(rem2@[j].1.points@ == pieces@[j + n].1.points@);
                    assert(rem2@[j].1.attrs == pieces@[j + n].1.attrs);
                    assert forall|t: int|
                        0 <= t < rem2@[j].1.points@.len() implies crate::geometry::coords_in_range(
                        #[trigger] rem2@[j].1.points@[t],
                    ) by {
                        assert(rem2@[j].1.points@[t] == pieces@[j + n].1.points@[t]);
                    }
                }
            }
            let ns = create_solver(nb, rem2);
            let ghost solvers0 = solvers@;
            solvers.push(ns);
            proof {
                assert(forall|k: int|
                    0 <= k < solvers0.len() ==> solvers@[k] == solvers0[k]);
                assert(solvers@[solvers@.len() - 1] == ns);
            }
        }
        if !more {
            break ;
        }
    }
    solvers
}

} // verus!
