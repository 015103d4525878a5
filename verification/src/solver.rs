//! The backtracking engine. Search state lives in owned data: one frame per
//! shape currently engaged, on an explicit stack, so stepping can be driven
//! from outside and a solver can be cloned for parallel fan-out.
//!
//! Each `step` performs one tick: undo the previous tentative placement of
//! the top frame, then either try the next variant at the current anchor,
//! or advance the anchor (skipping the rest of the anchors entirely when the
//! flood-fill prune shows the empty pocket around the current anchor is too
//! small for the smallest shape). Frames are pushed after a successful
//! placement and popped when exhausted.
//!
//! Termination is proved: `step` strictly decreases `Solver::measure`, a
//! bounded positional encoding of every frame's remaining work, so repeated
//! stepping must reach the empty stack.

use crate::board::after_fill;
use crate::board::covers;
use crate::board::full_view;
use crate::board::hits;
use crate::board::open_at;
use crate::board::placement_ok;
use crate::board::pt_at;
use crate::board::translated;
use crate::board::Board;
use crate::geometry::Point;
use crate::geometry::Shape;
use crate::geometry::ShapeAttrs;
use crate::geometry::shape_ok;
use crate::geometry::transformed;
use crate::geometry::variant_count;
use crate::geometry::variants;
use vstd::prelude::*;

verus! {

/// One shape's in-progress search state: the anchors it may still try (a
/// snapshot of the unfilled cells when the frame was created), the walk
/// indices over anchors and variants, the undo record of the last successful
/// placement, and how often this frame has placed its shape.
pub struct ShapeState {
    pub point_index: usize,
    pub variant_index: usize,
    pub remove: Option<Vec<Point>>,
    pub places: usize,
    pub label: String,
    pub points: Vec<Point>,
}

/// The search engine: the board, the catalogue of labeled shapes, each
/// shape's precomputed variants, the frame stack, and the smallest shape
/// size, which drives the prune.
pub struct Solver {
    pub board: Board,
    pub labeled_shapes: Vec<(String, Shape)>,
    pub shape_states: Vec<ShapeState>,
    pub base_variants: Vec<Vec<Vec<Point>>>,
    pub min_size: usize,
    /// Whether the reachability prune is applied. The prune never changes
    /// the set of solutions found, only how many steps reach them, so it
    /// can be switched off to compare the two configurations.
    pub prune: bool,
    /// Whether a placement of the last catalogue shape counts only when it
    /// completes the covering. On (the default), `Solved` means a full
    /// tiling: a final placement that leaves cells empty is undone at once
    /// and counts as a failed attempt. The decomposer switches it off for
    /// its prefix search, whose harvested boards are left partly uncovered on purpose.
    pub require_full: bool,
    /// Ghost record of the cell contents at the moment each live frame was
    /// created: `trail@[k]` is the board view frame `k` started from. It
    /// ties the current cells to the chain of placements the stack holds.
    pub trail: Ghost<Seq<Seq<Option<Seq<char>>>>>,
}

/// The three observable outcomes of a tick: a shape had no valid placement
/// anywhere, a shape was placed with more to come, or every shape is placed
/// and the covering is complete.
#[derive(Debug, Clone, Copy, PartialEq, Eq, Structural)]
pub enum StepEvent {
    FailedToPlace,
    Placed,
    Solved,
}

/// The smallest point count among the shapes; 0 for an empty catalogue.
pub open spec fn min_points(shapes: Seq<(String, Shape)>) -> nat
    decreases shapes.len(),
{
    if shapes.len() == 0 {
        0
    } else if shapes.len() == 1 {
        shapes[0].1.points@.len()
    } else {
        let rest = min_points(shapes.drop_last());
        let last = shapes.last().1.points@.len();
        if last < rest {
            last
        } else {
            rest
        }
    }
}

/// A frame's pending placement, related to the board views before and
/// after it. With a pending removal list, the frame's indices name the
/// variant last attempted (`variant_index - 1`) at the current anchor; the
/// list holds exactly that variant's translated cells; the placement was
/// admissible on `base`; and `next` is `base` with the placement applied.
/// Without one, `next` is `base` unchanged.
pub open spec fn links(
    all: Seq<Point>,
    vl: Vec<Vec<Point>>,
    st: ShapeState,
    base: Seq<Option<Seq<char>>>,
    next: Seq<Option<Seq<char>>>,
) -> bool {
    match st.remove {
        Some(eps) => {
            let vp = vl@[st.variant_index - 1]@;
            let anchor = st.points@[st.point_index as int];
            &&& 1 <= st.variant_index <= vl@.len()
            &&& st.point_index < st.points@.len()
            &&& vp.len() > 0
            &&& eps@.len() == vp.len()
            &&& (forall|j: int|
                0 <= j < vp.len() ==> pt_at(#[trigger] eps@[j], translated(vp[j], anchor)))
            &&& placement_ok(all, base, vp, anchor)
            &&& next == after_fill(all, base, vp, anchor, st.label@)
        },
        None => next == base,
    }
}

/// The variant tables belong to the shapes: table `k` lists exactly shape
/// `k`'s flip-and-rotation grid, in the generator's order.
pub open spec fn vtables_ok(bv: Seq<Vec<Vec<Point>>>, shapes: Seq<(String, Shape)>) -> bool {
    &&& bv.len() == shapes.len()
    &&& (forall|k: int|
        0 <= k < shapes.len() ==> (#[trigger] bv[k])@.len() == variant_count(shapes[k].1.attrs))
    &&& (forall|k: int, f: int, r: int|
        0 <= k < shapes.len() && 0 <= f < (if shapes[k].1.attrs.chiral {
            2int
        } else {
            1int
        }) && 0 <= r <= shapes[k].1.attrs.rotations
            ==> #[trigger] bv[k]@[f * (shapes[k].1.attrs.rotations + 1) + r]@ == transformed(
            shapes[k].1.points@,
            f == 1,
            r,
        ))
}

/// One of the variants the generator derives from `sh`: some flip choice
/// and some rotation of its points.
pub open spec fn is_variant_of(sh: Shape, vp: Seq<Point>) -> bool {
    exists|flipped: bool, r: int|
        #![trigger transformed(sh.points@, flipped, r)]
        (flipped ==> sh.attrs.chiral) && 0 <= r <= sh.attrs.rotations && vp == transformed(
            sh.points@,
            flipped,
            r,
        )
}

/// The board view `cv` arises from `cv0` by placing the first `k` shapes of
/// `pieces` in order, each exactly once: some variant of each shape at some
/// anchor, admissible at its turn, marked with the shape's label.
pub open spec fn prefix_placement(
    all: Seq<Point>,
    cv0: Seq<Option<Seq<char>>>,
    pieces: Seq<(String, Shape)>,
    k: int,
    cv: Seq<Option<Seq<char>>>,
) -> bool
    decreases k,
{
    if k <= 0 {
        cv == cv0
    } else {
        exists|cv1: Seq<Option<Seq<char>>>, vp: Seq<Point>, anchor: Point|
            #![trigger placement_ok(all, cv1, vp, anchor)]
            {
                &&& prefix_placement(all, cv0, pieces, k - 1, cv1)
                &&& is_variant_of(pieces[k - 1].1, vp)
                &&& vp.len() > 0
                &&& placement_ok(all, cv1, vp, anchor)
                &&& cv == after_fill(all, cv1, vp, anchor, pieces[k - 1].0@)
            }
    }
}

/// Every position in a shape's variant table decomposes into a flip choice
/// and a rotation index.
proof fn lemma_variant_index(attrs: ShapeAttrs, idx: int)
    requires
        0 <= idx < variant_count(attrs),
    ensures
        exists|f: int, r: int|
            #![trigger f * (attrs.rotations + 1) + r]
            0 <= f < (if attrs.chiral {
                2int
            } else {
                1int
            }) && 0 <= r <= attrs.rotations && idx == f * (attrs.rotations + 1) + r,
{
    let q = (attrs.rotations + 1) as int;
    let flips = if attrs.chiral {
        2int
    } else {
        1int
    };
    let f = idx / q;
    let r = idx % q;
    vstd::arithmetic::div_mod::lemma_fundamental_div_mod(idx, q);
    vstd::arithmetic::div_mod::lemma_mod_bound(idx, q);
    assert(idx < flips * q);
    assert(f < flips) by (nonlinear_arith)
        requires
            idx == q * f + r,
            0 <= r < q,
            idx < flips * q,
            q > 0,
    ;
    assert(f >= 0) by (nonlinear_arith)
        requires
            idx >= 0,
            idx == q * f + r,
            r < q,
            q > 0,
    ;
    assert(idx == f * q + r) by (nonlinear_arith)
        requires
            idx == q * f + r,
    ;
    assert(0 <= f < flips && 0 <= r <= attrs.rotations && idx == f * q + r);
}

/// The chain the stack records really is a prefix placement: the first `k`
/// frames, each holding a placement, take the initial board view to frame
/// `k`'s trail entry (to the current cells when every frame is counted).
proof fn lemma_chain_prefix(s: Solver, k: int)
    requires
        s.inv(),
        s.shape_states@.len() > 0,
        0 <= k <= s.shape_states@.len(),
        forall|j: int| 0 <= j < k ==> (#[trigger] s.shape_states@[j]).remove is Some,
    ensures
        prefix_placement(
            s.board.all@,
            s.trail@[0],
            s.labeled_shapes@,
            k,
            (if k < s.shape_states@.len() {
                s.trail@[k]
            } else {
                s.board.cells_view()
            }),
        ),
    decreases k,
{
    let m = s.shape_states@.len() as int;
    let tgt: Seq<Option<Seq<char>>> = if k < m {
        s.trail@[k]
    } else {
        s.board.cells_view()
    };
    if k > 0 {
        lemma_chain_prefix(s, k - 1);
        let st = s.shape_states@[k - 1];
        assert(links(s.board.all@, s.base_variants@[k - 1], st, s.trail@[k - 1], tgt));
        let eps = st.remove.unwrap();
        let vp = s.base_variants@[k - 1]@[st.variant_index - 1]@;
        let anchor = st.points@[st.point_index as int];
        let attrs = s.labeled_shapes@[k - 1].1.attrs;
        assert(s.base_variants@[k - 1]@.len() == variant_count(attrs));
        lemma_variant_index(attrs, st.variant_index - 1);
        let (f, r) = choose|f: int, r: int|
            #![trigger f * (attrs.rotations + 1) + r]
            0 <= f < (if attrs.chiral {
                2int
            } else {
                1int
            }) && 0 <= r <= attrs.rotations && st.variant_index - 1 == f * (attrs.rotations + 1)
                + r;
        assert(s.base_variants@[k - 1]@[f * (attrs.rotations + 1) + r]@ == transformed(
            s.labeled_shapes@[k - 1].1.points@,
            f == 1,
            r,
        ));
        assert(vp == transformed(s.labeled_shapes@[k - 1].1.points@, f == 1, r));
        assert(f == 1 ==> attrs.chiral);
        assert(is_variant_of(s.labeled_shapes@[k - 1].1, vp));
        let prev = s.trail@[k - 1];
        assert(st.label@ == s.labeled_shapes@[k - 1].0@);
        assert(placement_ok(s.board.all@, prev, vp, anchor));
        assert(tgt == after_fill(s.board.all@, prev, vp, anchor, s.labeled_shapes@[k - 1].0@));
        assert(prefix_placement(s.board.all@, s.trail@[0], s.labeled_shapes@, k - 1, prev));
    }
}

/// What a full stack with a live top placement means: the current cells are
/// a complete placement of the whole catalogue, one admissible variant per
/// shape in order, starting from the board view the search began with.
pub proof fn lemma_solved_prefix_placement(s: Solver)
    requires
        s.inv(),
        s.shape_states@.len() == s.labeled_shapes@.len(),
        s.shape_states@.len() > 0,
        s.shape_states@.last().remove is Some,
    ensures
        prefix_placement(
            s.board.all@,
            s.trail@[0],
            s.labeled_shapes@,
            s.labeled_shapes@.len() as int,
            s.board.cells_view(),
        ),
{
    let m = s.shape_states@.len() as int;
    assert forall|j: int| 0 <= j < m implies (#[trigger] s.shape_states@[j]).remove is Some by {
        if j == m - 1 {
            assert(s.shape_states@[j] == s.shape_states@.last());
        }
    }
    lemma_chain_prefix(s, m);
}

/// A prefix placement only reads the shapes' labels, point lists and
/// attributes: it transfers to any catalogue that agrees on those.
pub proof fn lemma_prefix_placement_congruent(
    all: Seq<Point>,
    cv0: Seq<Option<Seq<char>>>,
    p1: Seq<(String, Shape)>,
    p2: Seq<(String, Shape)>,
    k: int,
    cv: Seq<Option<Seq<char>>>,
)
    requires
        prefix_placement(all, cv0, p1, k, cv),
        forall|j: int|
            0 <= j < k ==> (#[trigger] p2[j]).0@ == p1[j].0@ && p2[j].1.points@ == p1[j].1.points@
                && p2[j].1.attrs == p1[j].1.attrs,
    ensures
        prefix_placement(all, cv0, p2, k, cv),
    decreases k,
{
    if k > 0 {
        let (cv1, vp, anchor): (Seq<Option<Seq<char>>>, Seq<Point>, Point) = choose|
            cv1: Seq<Option<Seq<char>>>,
            vp: Seq<Point>,
            anchor: Point,
        |
            #![trigger placement_ok(all, cv1, vp, anchor)]
            {
                &&& prefix_placement(all, cv0, p1, k - 1, cv1)
                &&& is_variant_of(p1[k - 1].1, vp)
                &&& vp.len() > 0
                &&& placement_ok(all, cv1, vp, anchor)
                &&& cv == after_fill(all, cv1, vp, anchor, p1[k - 1].0@)
            };
        lemma_prefix_placement_congruent(all, cv0, p1, p2, k - 1, cv1);
        let (flipped, r) = choose|flipped: bool, r: int|
            #![trigger transformed(p1[k - 1].1.points@, flipped, r)]
            (flipped ==> p1[k - 1].1.attrs.chiral) && 0 <= r <= p1[k - 1].1.attrs.rotations && vp
                == transformed(p1[k - 1].1.points@, flipped, r);
        assert(vp == transformed(p2[k - 1].1.points@, flipped, r));
        assert(is_variant_of(p2[k - 1].1, vp));
        assert(cv == after_fill(all, cv1, vp, anchor, p2[k - 1].0@));
        assert(prefix_placement(all, cv0, p2, k - 1, cv1));
    }
}

/// The cell contents after the undo phase of a tick: the pending placement,
/// if any, is removed; otherwise the board is untouched.
pub open spec fn undone_view(b: Board, remove: Option<Vec<Point>>) -> Seq<Option<Seq<char>>> {
    match remove {
        Some(r0) => crate::board::after_unfill(b.all@, b.cells_view(), r0@),
        None => b.cells_view(),
    }
}

/// The cell contents after one full tick of the frame `st`: the pending
/// placement is undone, and when the tick attempts the next variant at the
/// current anchor and that placement is admissible, the placement is on the
/// board; in every other case the undone contents stand. The anchor-advance
/// decision never touches the cells.
pub open spec fn stepped_view(b: Board, st: ShapeState, vl: Vec<Vec<Point>>, cover: bool) -> Seq<
    Option<Seq<char>>,
> {
    let mid = undone_view(b, st.remove);
    if st.point_index < st.points@.len() && st.variant_index < vl@.len() {
        let anchor = st.points@[st.point_index as int];
        let vp = vl@[st.variant_index as int]@;
        if vp.len() > 0 && placement_ok(b.all@, mid, vp, anchor) && (!cover || full_view(
            after_fill(b.all@, mid, vp, anchor, st.label@),
        )) {
            after_fill(b.all@, mid, vp, anchor, st.label@)
        } else {
            mid
        }
    } else {
        mid
    }
}

/// How many more placement attempts and anchor advances a frame can absorb:
/// every remaining anchor costs the variant list plus the advance itself,
/// minus the attempts already spent at the current anchor.
pub open spec fn frame_work(st: ShapeState, vlen: nat) -> nat {
    if st.point_index >= st.points@.len() {
        0
    } else {
        ((st.points@.len() - st.point_index) * (vlen + 1) - st.variant_index) as nat
    }
}

/// The digit a frame contributes to the positional measure: its remaining
/// work plus one, so that even an exhausted frame still counts until popped.
pub open spec fn entry_of(states: Seq<ShapeState>, bv: Seq<Vec<Vec<Point>>>, i: int) -> nat {
    if 0 <= i < states.len() {
        frame_work(states[i], bv[i]@.len()) + 1
    } else {
        0
    }
}

/// The largest variant-list length among the first `k` shapes.
pub open spec fn max_vlen(bv: Seq<Vec<Vec<Point>>>, k: int) -> nat
    decreases k,
{
    if k <= 0 {
        0
    } else {
        let rest = max_vlen(bv, k - 1);
        let here = bv[k - 1]@.len();
        if here > rest {
            here
        } else {
            rest
        }
    }
}

/// A strict upper bound on every digit of the measure, fixed by the board
/// domain and the variant tables, which never change during a search.
pub open spec fn entry_bound_of(all_len: nat, bv: Seq<Vec<Vec<Point>>>) -> nat {
    (all_len + 1) * (max_vlen(bv, bv.len() as int) + 2)
}

/// The positional encoding of the first `k` digits, most significant first.
pub open spec fn measure_prefix(
    states: Seq<ShapeState>,
    bv: Seq<Vec<Vec<Point>>>,
    all_len: nat,
    k: int,
) -> nat
    decreases k,
{
    if k <= 0 {
        0
    } else {
        measure_prefix(states, bv, all_len, k - 1) * entry_bound_of(all_len, bv) + entry_of(
            states,
            bv,
            k - 1,
        )
    }
}

impl Solver {
    pub open spec fn n(self) -> int {
        self.labeled_shapes@.len() as int
    }

    /// Well-formedness of one frame: indices within range, a candidate list
    /// no longer than the domain, and an undo record that names only domain
    /// cells.
    pub open spec fn frame_inv(self, i: int) -> bool {
        let st = self.shape_states@[i];
        &&& st.point_index <= st.points@.len()
        &&& st.variant_index <= self.base_variants@[i]@.len()
        &&& st.points@.len() <= self.board.all@.len()
        &&& match st.remove {
            Some(eps) => forall|j: int|
                0 <= j < eps@.len() ==> self.board.contains_pt(#[trigger] eps@[j]),
            None => true,
        }
    }

    /// Well-formedness of the whole engine: a valid board, one variant table
    /// per shape, no more frames than shapes, every frame well-formed, and
    /// the trail chaining the frames' placements to the current cells.
    pub open spec fn inv(self) -> bool {
        &&& self.board.inv()
        &&& self.base_variants@.len() == self.n()
        &&& self.shape_states@.len() <= self.n()
        &&& forall|i: int| 0 <= i < self.shape_states@.len() ==> self.frame_inv(i)
        &&& self.trail@.len() == self.shape_states@.len()
        &&& vtables_ok(self.base_variants@, self.labeled_shapes@)
        &&& self.chain_inv()
    }

    /// Every frame below the top holds a placement; each frame's placement
    /// links its trail entry to the next one (to the current cells at the
    /// top); each frame carries its shape's label; trail entries span the
    /// domain.
    pub open spec fn chain_inv(self) -> bool {
        let m = self.shape_states@.len() as int;
        &&& (forall|k: int| 0 <= k < m - 1 ==> (#[trigger] self.shape_states@[k]).remove is Some)
        &&& (forall|k: int|
            0 <= k < m - 1 ==> links(
                self.board.all@,
                self.base_variants@[k],
                #[trigger] self.shape_states@[k],
                self.trail@[k],
                self.trail@[k + 1],
            ))
        &&& (m > 0 ==> links(
            self.board.all@,
            self.base_variants@[m - 1],
            self.shape_states@[m - 1],
            self.trail@[m - 1],
            self.board.cells_view(),
        ))
        &&& (forall|k: int|
            0 <= k < m ==> (#[trigger] self.shape_states@[k]).label@
                == self.labeled_shapes@[k].0@)
        &&& (forall|k: int|
            0 <= k < self.trail@.len() ==> #[trigger] self.trail@[k].len()
                == self.board.all@.len())
    }

    /// The termination measure: the frame digits read as one number in base
    /// `entry_bound_of`. Every `step` on a non-empty stack strictly
    /// decreases it.
    pub open spec fn measure(self) -> nat {
        measure_prefix(self.shape_states@, self.base_variants@, self.board.all@.len(), self.n())
    }
}

/// Every prefix maximum dominates the entries it covers.
proof fn lemma_max_vlen_ge(bv: Seq<Vec<Vec<Point>>>, i: int, k: int)
    requires
        0 <= i < k,
    ensures
        bv[i]@.len() <= max_vlen(bv, k),
    decreases k,
{
    if i < k - 1 {
        lemma_max_vlen_ge(bv, i, k - 1);
    }
}

/// Every digit is strictly below the bound, and the bound is at least two.
proof fn lemma_entries_bounded(s: Solver)
    requires
        s.inv(),
    ensures
        forall|i: int|
            #[trigger] entry_of(s.shape_states@, s.base_variants@, i) < entry_bound_of(
                s.board.all@.len(),
                s.base_variants@,
            ),
        entry_bound_of(s.board.all@.len(), s.base_variants@) >= 2,
{
    let bv = s.base_variants@;
    let a = s.board.all@.len();
    let m = max_vlen(bv, bv.len() as int);
    assert((a + 1) * (m + 2) >= 2) by (nonlinear_arith)
        requires
            a >= 0,
            m >= 0,
    ;
    assert forall|i: int| #[trigger] entry_of(s.shape_states@, bv, i) < entry_bound_of(a, bv) by {
        if 0 <= i < s.shape_states@.len() {
            assert(s.frame_inv(i));
            let st = s.shape_states@[i];
            let v = bv[i]@.len();
            let l = st.points@.len();
            lemma_max_vlen_ge(bv, i, bv.len() as int);
            assert(frame_work(st, v) <= l * (v + 1)) by {
                if st.point_index < l {
                    assert((l - st.point_index) * (v + 1) >= v + 1) by (nonlinear_arith)
                        requires
                            l - st.point_index >= 1,
                            v >= 0,
                    ;
                    assert((l - st.point_index) * (v + 1) <= l * (v + 1)) by (nonlinear_arith)
                        requires
                            0 <= st.point_index,
                            st.point_index <= l,
                            v >= 0,
                    ;
                }
            }
            assert(l * (v + 1) + 1 < (a + 1) * (m + 2)) by (nonlinear_arith)
                requires
                    0 <= l <= a,
                    0 <= v <= m,
            ;
        }
    }
}

/// Positional prefixes agree while their digits agree.
proof fn lemma_mp_equal(
    states1: Seq<ShapeState>,
    states2: Seq<ShapeState>,
    bv: Seq<Vec<Vec<Point>>>,
    all_len: nat,
    k: int,
)
    requires
        forall|i: int| 0 <= i < k ==> entry_of(states2, bv, i) == entry_of(states1, bv, i),
    ensures
        measure_prefix(states2, bv, all_len, k) == measure_prefix(states1, bv, all_len, k),
    decreases k,
{
    if k > 0 {
        lemma_mp_equal(states1, states2, bv, all_len, k - 1);
    }
}

/// A number shrinks when one digit shrinks, whatever the less significant
/// digits do, as long as every digit stays below the base.
proof fn lemma_mp_lt(
    states1: Seq<ShapeState>,
    states2: Seq<ShapeState>,
    bv: Seq<Vec<Vec<Point>>>,
    all_len: nat,
    j: int,
    k: int,
)
    requires
        0 <= j < k,
        forall|i: int| 0 <= i < j ==> entry_of(states2, bv, i) == entry_of(states1, bv, i),
        entry_of(states2, bv, j) < entry_of(states1, bv, j),
        forall|i: int| j < i < k ==> #[trigger] entry_of(states2, bv, i) < entry_bound_of(all_len, bv),
        entry_bound_of(all_len, bv) >= 2,
    ensures
        measure_prefix(states2, bv, all_len, k) < measure_prefix(states1, bv, all_len, k),
    decreases k,
{
    let b = entry_bound_of(all_len, bv);
    if k == j + 1 {
        lemma_mp_equal(states1, states2, bv, all_len, j);
    } else {
        lemma_mp_lt(states1, states2, bv, all_len, j, k - 1);
        let m1 = measure_prefix(states1, bv, all_len, k - 1);
        let m2 = measure_prefix(states2, bv, all_len, k - 1);
        assert(m2 * b <= (m1 - 1) * b) by (nonlinear_arith)
            requires
                m2 <= m1 - 1,
                b >= 0,
        ;
        assert((m1 - 1) * b == m1 * b - b) by (nonlinear_arith);
        assert(entry_of(states2, bv, k - 1) < b);
        assert(measure_prefix(states2, bv, all_len, k) <= m1 * b - 1);
    }
}

fn new_shape_state(label: String, ps: Vec<Point>) -> (st: ShapeState)
    ensures
        st.point_index == 0,
        st.variant_index == 0,
        st.remove is None,
        st.places == 0,
        st.label == label,
        st.points == ps,
{
    ShapeState { point_index: 0, variant_index: 0, remove: None, places: 0, label, points: ps }
}

/// The last attempt of this frame placed its shape and has not been undone.
fn is_placed(st: &ShapeState) -> (r: bool)
    ensures
        r == (st.remove is Some),
{
    st.remove.is_some()
}

/// This frame never managed to place its shape anywhere.
fn never_placed(st: &ShapeState) -> (r: bool)
    ensures
        r == (st.places == 0),
{
    st.places == 0
}

/// A fresh frame for the next shape in the catalogue, seeded with the
/// board's current unfilled cells as its anchor candidates, captured once.
fn next_shape_state(solver: &Solver) -> (st: ShapeState)
    requires
        solver.board.inv(),
        solver.shape_states@.len() < solver.labeled_shapes@.len(),
    ensures
        st.point_index == 0,
        st.variant_index == 0,
        st.remove is None,
        st.places == 0,
        st.label == solver.labeled_shapes@[solver.shape_states@.len() as int].0,
        st.points@ == solver.board.unfilled_cells(),
        st.points@.len() <= solver.board.all@.len(),
{
    let i = solver.shape_states.len();
    let label = solver.labeled_shapes[i].0.clone();
    let pts = solver.board.remaining();
    new_shape_state(label, pts)
}

/// One tick of a single frame, walking the exhaustion grid over anchors and
/// variants: undo any pending placement, then either attempt
/// the next variant at the current anchor, or advance the anchor, jumping
/// past every remaining anchor when the pocket around the current one is
/// smaller than the smallest shape. Returns whether the frame has more work.
/// The frame's remaining work strictly shrinks on every tick.
fn step_state(
    st: &mut ShapeState,
    board: &mut Board,
    variants_list: &Vec<Vec<Point>>,
    min_size: usize,
    prune: bool,
    require_full: bool,
) -> (more: bool)
    requires
        old(board).inv(),
        old(st).point_index <= old(st).points@.len(),
        old(st).variant_index <= variants_list@.len(),
        match old(st).remove {
            Some(eps) => forall|j: int|
                0 <= j < eps@.len() ==> old(board).contains_pt(#[trigger] eps@[j]),
            None => true,
        },
    ensures
        final(board).inv(),
        final(board).all == old(board).all,
        final(board).dirs == old(board).dirs,
        final(st).points == old(st).points,
        final(st).label == old(st).label,
        final(st).point_index <= final(st).points@.len(),
        final(st).variant_index <= variants_list@.len(),
        match final(st).remove {
            Some(eps) => forall|j: int|
                0 <= j < eps@.len() ==> final(board).contains_pt(#[trigger] eps@[j]),
            None => true,
        },
        more == (final(st).point_index < final(st).points@.len()),
        old(st).point_index < old(st).points@.len() ==> frame_work(
            *final(st),
            variants_list@.len(),
        ) < frame_work(*old(st), variants_list@.len()),
        old(st).point_index >= old(st).points@.len() ==> !more,
        final(board).cells_view() == stepped_view(*old(board), *old(st), *variants_list, require_full),
        old(st).point_index >= old(st).points@.len() ==> final(board).cells_view() == undone_view(
            *old(board),
            old(st).remove,
        ) && *final(st) == (ShapeState { remove: None, ..*old(st) }),
        old(st).point_index < old(st).points@.len() && old(st).variant_index
            < variants_list@.len() ==> {
            let anchor = old(st).points@[old(st).point_index as int];
            let vp = variants_list@[old(st).variant_index as int]@;
            let mid = undone_view(*old(board), old(st).remove);
            &&& final(st).point_index == old(st).point_index
            &&& final(st).variant_index == old(st).variant_index + 1
            &&& if vp.len() > 0 && placement_ok(old(board).all@, mid, vp, anchor) && (!require_full
                || full_view(after_fill(old(board).all@, mid, vp, anchor, old(st).label@))) {
                &&& final(st).remove matches Some(eps) && eps@.len() == vp.len() && (forall|j: int|
                    0 <= j < vp.len() ==> pt_at(#[trigger] eps@[j], translated(vp[j], anchor)))
                &&& final(board).cells_view() == after_fill(
                    old(board).all@,
                    mid,
                    vp,
                    anchor,
                    old(st).label@,
                )
                &&& final(st).places == (if old(st).places == usize::MAX {
                    usize::MAX as int
                } else {
                    old(st).places + 1
                })
            } else {
                &&& final(st).remove is None
                &&& final(board).cells_view() == mid
                &&& final(st).places == old(st).places
            }
        },
        old(st).point_index < old(st).points@.len() && old(st).variant_index
            == variants_list@.len() ==> {
            let anchor = old(st).points@[old(st).point_index as int];
            &&& final(board).cells_view() == undone_view(*old(board), old(st).remove)
            &&& final(st).remove is None
            &&& final(st).variant_index == 0
            &&& final(st).places == old(st).places
            &&& final(st).point_index == (if prune && final(board).component_count(anchor)
                < min_size {
                old(st).points@.len() as int
            } else {
                old(st).point_index + 1
            })
        },
{
    let ghost vn = variants_list@.len();
    if st.remove.is_some() {
        let mut pending: Option<Vec<Point>> = None;
        core::mem::swap(&mut st.remove, &mut pending);
        match pending {
            Some(rem) => board.unfill(rem),
            None => (),
        }
    }
    if st.point_index >= st.points.len() {
        return false;
    }
    let ghost l = st.points@.len() as int;
    let ghost pi = st.point_index as int;
    let ghost vi = st.variant_index as int;
    if st.variant_index < variants_list.len() {
        let anchor = st.points[st.point_index];
        let vpoints = &variants_list[st.variant_index];
        if vpoints.len() == 0 {
            // A zero-point variant is treated as trivially non-placeable.
            st.remove = None;
        } else {
            let ghost mid_board = *board;
            st.remove = board.fill(vpoints, anchor, st.label.as_str());
            if require_full && st.remove.is_some() && !board.full() {
                // The last shape must complete the covering: a placement
                // that leaves cells empty is undone and counts as failed.
                let mut pending: Option<Vec<Point>> = None;
                core::mem::swap(&mut st.remove, &mut pending);
                match pending {
                    Some(rem) => {
                        proof {
                            crate::board::lemma_fill_unfill_round_trip(
                                mid_board.all@,
                                mid_board.cells_view(),
                                vpoints@,
                                anchor,
                                st.label@,
                                rem@,
                            );
                        }
                        board.unfill(rem);
                    },
                    None => (),
                }
            }
        }
        if st.remove.is_some() {
            st.places = st.places.saturating_add(1);
        }
        st.variant_index = st.variant_index + 1;
        proof {
            assert((l - pi) * (vn + 1) >= vn + 1) by (nonlinear_arith)
                requires
                    l - pi >= 1,
                    vn >= 0,
            ;
        }
        st.point_index < st.points.len()
    } else {
        let p = st.points[st.point_index];
        if prune && board.reachable(&p, min_size) < min_size {
            st.point_index = st.points.len();
        } else {
            st.point_index = st.point_index + 1;
        }
        st.variant_index = 0;
        proof {
            assert((l - pi) * (vn + 1) >= vn + 1) by (nonlinear_arith)
                requires
                    l - pi >= 1,
                    vn >= 0,
            ;
            assert((l - pi) * (vn + 1) == (l - pi - 1) * (vn + 1) + (vn + 1)) by (nonlinear_arith);
            if st.point_index < st.points.len() {
                assert((l - pi - 1) * (vn + 1) >= 0) by (nonlinear_arith)
                    requires
                        l - pi - 1 >= 0,
                        vn >= 0,
                ;
            }
        }
        st.point_index < st.points.len()
    }
}

/// Build a solver: precompute every shape's variant table, compute the
/// smallest shape size for the prune, and engage the first shape, if any,
/// with the whole unfilled board as its anchor candidates. An empty shape
/// list yields no frames, so the search terminates immediately.
pub fn create_solver(b: Board, shapes: Vec<(String, Shape)>) -> (s: Solver)
    requires
        b.inv(),
        forall|i: int| 0 <= i < shapes@.len() ==> shape_ok(#[trigger] shapes@[i].1),
    ensures
        s.inv(),
        s.board == b,
        s.labeled_shapes == shapes,
        s.min_size == min_points(shapes@),
        s.base_variants@.len() == shapes@.len(),
        vtables_ok(s.base_variants@, shapes@),
        s.prune == true,
        s.require_full == true,
        s.shape_states@.len() == (if shapes@.len() == 0 {
            0int
        } else {
            1int
        }),
        s.trail@ == (if shapes@.len() == 0 {
            Seq::<Seq<Option<Seq<char>>>>::empty()
        } else {
            seq![b.cells_view()]
        }),
        shapes@.len() > 0 ==> {
            let st = s.shape_states@[0];
            &&& st.point_index == 0
            &&& st.variant_index == 0
            &&& st.remove is None
            &&& st.places == 0
            &&& st.label == shapes@[0].0
            &&& st.points@ == b.unfilled_cells()
        },
{
    let count = shapes.len();
    let mut min_size: usize = 0;
    if count > 0 {
        min_size = shapes[0].1.points.len();
        let mut i: usize = 1;
        while i < count
            invariant
                1 <= i <= count,
                count == shapes@.len(),
                min_size == min_points(shapes@.take(i as int)),
            decreases count - i,
        {
            proof {
                let t1 = shapes@.take(i + 1);
                assert(t1.drop_last() =~= shapes@.take(i as int));
                assert(t1.last() == shapes@[i as int]);
            }
            let l = shapes[i].1.points.len();
            if l < min_size {
                min_size = l;
            }
            i = i + 1;
        }
        proof {
            assert(shapes@.take(count as int) =~= shapes@);
        }
    }
    let mut base_variants: Vec<Vec<Vec<Point>>> = Vec::new();
    let mut i: usize = 0;
    while i < count
        invariant
            count == shapes@.len(),
            i <= count,
            base_variants@.len() == i,
            forall|k: int| 0 <= k < shapes@.len() ==> shape_ok(#[trigger] shapes@[k].1),
            forall|k: int|
                0 <= k < i ==> #[trigger] base_variants@[k]@.len() == variant_count(
                    shapes@[k].1.attrs,
                ),
            forall|k: int, f: int, r: int|
                0 <= k < i && 0 <= f < (if shapes@[k].1.attrs.chiral {
                    2int
                } else {
                    1int
                }) && 0 <= r <= shapes@[k].1.attrs.rotations
                    ==> #[trigger] base_variants@[k]@[f * (shapes@[k].1.attrs.rotations + 1) + r]@
                    == transformed(shapes@[k].1.points@, f == 1, r),
        decreases count - i,
    {
        let v = variants(&shapes[i].1);
        base_variants.push(v);
        i = i + 1;
    }
    let mut solver = Solver {
        board: b,
        labeled_shapes: shapes,
        shape_states: Vec::new(),
        base_variants,
        min_size,
        prune: true,
        require_full: true,
        trail: Ghost(Seq::empty()),
    };
    if count > 0 {
        let st = next_shape_state(&solver);
        solver.shape_states.push(st);
        proof {
            solver.trail@ = seq![solver.board.cells_view()];
        }
        proof {
            assert(solver.shape_states@[0] == st);
            assert(solver.frame_inv(0));
            assert(solver.trail@[0] == solver.board.cells_view());
            assert(links(
                solver.board.all@,
                solver.base_variants@[0],
                solver.shape_states@[0],
                solver.trail@[0],
                solver.board.cells_view(),
            ));
            assert(solver.chain_inv());
        }
    }
    solver
}

/// Switch the reachability prune on or off. Everything else about the
/// solver is untouched; with the prune off, exhaustion merely takes more
/// steps and surfaces the same solutions.
pub fn set_prune(solver: &mut Solver, prune: bool)
    ensures
        *final(solver) == (Solver { prune, ..*old(solver) }),
{
    solver.prune = prune;
}

/// One tick of the overall search. Returns whether more work remains and
/// the event this tick surfaced, if any: `FailedToPlace` when a frame that
/// never placed its shape is abandoned, `Placed` when a shape went down with
/// more shapes to come, `Solved` when the last shape went down and (under
/// the full-cover rule, the default) completed the covering — a final
/// placement that leaves cells empty is undone at once and counts as a
/// failed attempt, so it surfaces no event and does not count as a
/// placement. The board carried by the solver reflects the event at return
/// time. Every tick on a non-empty stack strictly decreases the termination
/// measure, so repeated stepping reaches `false` after finitely many calls.
pub fn step(solver: &mut Solver) -> (res: (bool, Option<StepEvent>))
    requires
        old(solver).inv(),
    ensures
        final(solver).inv(),
        final(solver).labeled_shapes == old(solver).labeled_shapes,
        final(solver).base_variants == old(solver).base_variants,
        final(solver).min_size == old(solver).min_size,
        final(solver).prune == old(solver).prune,
        final(solver).require_full == old(solver).require_full,
        final(solver).board.all == old(solver).board.all,
        res.1 == Some(StepEvent::Solved) && old(solver).require_full ==> full_view(
            final(solver).board.cells_view(),
        ),
        final(solver).board.dirs == old(solver).board.dirs,
        res.0 == (final(solver).shape_states@.len() > 0),
        old(solver).shape_states@.len() == 0 ==> *final(solver) == *old(solver) && res.1 is None
            && !res.0,
        old(solver).shape_states@.len() > 0 ==> final(solver).measure() < old(solver).measure(),
        old(solver).shape_states@.len() > 0 ==> final(solver).board.cells_view() == stepped_view(
            old(solver).board,
            old(solver).shape_states@.last(),
            old(solver).base_variants@[old(solver).shape_states@.len() - 1],
            old(solver).require_full && old(solver).shape_states@.len()
                == old(solver).labeled_shapes@.len(),
        ),
        res.1 == Some(StepEvent::Solved) ==> final(solver).shape_states@.len() == final(solver).labeled_shapes@.len()
            && final(solver).shape_states@.len() > 0,
        res.1 == Some(StepEvent::FailedToPlace) ==> final(solver).shape_states@.len() == old(solver).shape_states@.len()
            - 1,
        res.1 == Some(StepEvent::Solved) ==> final(solver).shape_states@.len() == old(solver).shape_states@.len()
            && final(solver).shape_states@.last().remove is Some,
        res.1 == Some(StepEvent::Placed) ==> final(solver).shape_states@.len() == old(solver).shape_states@.len()
            + 1 && final(solver).shape_states@[old(solver).shape_states@.len() - 1].remove is Some,
        old(solver).shape_states@.len() > 0 ==> forall|k: int|
            0 <= k < old(solver).shape_states@.len() - 1
                ==> final(solver).shape_states@[k] == old(solver).shape_states@[k],
        old(solver).shape_states@.len() > 0 ==> forall|k: int|
            0 <= k < final(solver).trail@.len() && k < old(solver).trail@.len()
                ==> final(solver).trail@[k] == old(solver).trail@[k],
        old(solver).shape_states@.len() > 0 ==> {
            let m = old(solver).shape_states@.len() as int;
            let nn = old(solver).labeled_shapes@.len() as int;
            let st = old(solver).shape_states@.last();
            let vl = old(solver).base_variants@[m - 1];
            let mid = undone_view(old(solver).board, st.remove);
            // The frame's anchor list was already exhausted: the frame is
            // abandoned, reporting the dead branch when it never placed.
            &&& (st.point_index >= st.points@.len() ==> final(solver).shape_states@
                == old(solver).shape_states@.take(m - 1) && res.1 == (if st.places == 0 {
                Some(StepEvent::FailedToPlace)
            } else {
                None::<StepEvent>
            }))
            // A placement attempt: the event is owed exactly when the
            // placement is admissible, Solved exactly at full stack depth,
            // and on Placed the one new frame is seeded from the board's
            // unfilled cells, captured now.
            &&& (st.point_index < st.points@.len() && st.variant_index < vl@.len() ==> {
                let anchor = st.points@[st.point_index as int];
                let vp = vl@[st.variant_index as int]@;
                let placed_now = vp.len() > 0 && placement_ok(
                    old(solver).board.all@,
                    mid,
                    vp,
                    anchor,
                ) && (!(old(solver).require_full && m == nn) || full_view(
                    after_fill(old(solver).board.all@, mid, vp, anchor, st.label@),
                ));
                &&& res.0 == true
                &&& {
                    let st2 = final(solver).shape_states@[m - 1];
                    &&& st2.point_index == st.point_index
                    &&& st2.variant_index == st.variant_index + 1
                    &&& st2.points == st.points
                    &&& st2.label == st.label
                    &&& (st2.remove is Some) == placed_now
                    &&& st2.places == (if placed_now {
                        if st.places == usize::MAX {
                            usize::MAX as int
                        } else {
                            st.places + 1
                        }
                    } else {
                        st.places as int
                    })
                }
                &&& (placed_now && m == nn ==> res.1 == Some(StepEvent::Solved)
                    && final(solver).shape_states@.len() == m)
                &&& (placed_now && m < nn ==> {
                    let fresh = final(solver).shape_states@.last();
                    &&& res.1 == Some(StepEvent::Placed)
                    &&& final(solver).shape_states@.len() == m + 1
                    &&& fresh.point_index == 0
                    &&& fresh.variant_index == 0
                    &&& fresh.remove is None
                    &&& fresh.places == 0
                    &&& fresh.label == final(solver).labeled_shapes@[m].0
                    &&& fresh.points@ == final(solver).board.unfilled_cells()
                })
                &&& (!placed_now ==> res.1 is None && final(solver).shape_states@.len() == m)
            })
            // All variants at this anchor were tried: the anchor advances,
            // or the whole remaining anchor list is skipped when the prune
            // shows the pocket cannot hold the smallest shape; the frame is
            // abandoned exactly when no anchor is left.
            &&& (st.point_index < st.points@.len() && st.variant_index == vl@.len() ==> {
                let anchor = st.points@[st.point_index as int];
                let pruned = old(solver).prune && final(solver).board.component_count(anchor)
                    < old(solver).min_size;
                let ended = pruned || st.point_index + 1 >= st.points@.len();
                &&& res.1 == (if ended && st.places == 0 {
                    Some(StepEvent::FailedToPlace)
                } else {
                    None::<StepEvent>
                })
                &&& (ended ==> final(solver).shape_states@ == old(solver).shape_states@.take(
                    m - 1,
                ))
                &&& (!ended ==> {
                    let st2 = final(solver).shape_states@[m - 1];
                    &&& final(solver).shape_states@.len() == m
                    &&& st2.point_index == st.point_index + 1
                    &&& st2.variant_index == 0
                    &&& st2.places == st.places
                    &&& st2.points == st.points
                    &&& st2.label == st.label
                    &&& st2.remove is None
                })
            })
        },
{
    let ghost s1 = *solver;
    let n_states = solver.shape_states.len();
    if n_states == 0 {
        return (false, None);
    }
    let i = n_states - 1;
    let ghost states1 = solver.shape_states@;
    let ghost trail1 = solver.trail@;
    let mut st = match solver.shape_states.pop() {
        Some(st) => st,
        None => {
            proof {
                assert(false);
            }
            return (false, None);
        },
    };
    proof {
        assert(st == states1[i as int]);
        assert(s1.frame_inv(i as int));
        lemma_mid_is_trail(s1);
    }
    let last_shape = n_states == solver.labeled_shapes.len();
    let require_full = solver.require_full && last_shape;
    let more = step_state(
        &mut st,
        &mut solver.board,
        &solver.base_variants[i],
        solver.min_size,
        solver.prune,
        require_full,
    );
    proof {
        lemma_entries_bounded(s1);
    }
    if !more {
        let ev = if never_placed(&st) {
            Some(StepEvent::FailedToPlace)
        } else {
            None
        };
        let r = solver.shape_states.len() > 0;
        proof {
            solver.trail@ = trail1.take(i as int);
        }
        proof {
            assert(solver.shape_states@ =~= states1.take(i as int));
            assert forall|k: int| 0 <= k < solver.shape_states@.len() implies solver.frame_inv(
                k,
            ) by {
                assert(s1.frame_inv(k));
                assert(solver.shape_states@[k] == states1[k]);
            }
            assert(solver.board.cells_view() == trail1[i as int]);
            assert(solver.chain_inv()) by {
                if i > 0 {
                    assert(links(
                        s1.board.all@,
                        s1.base_variants@[i - 1],
                        s1.shape_states@[i - 1],
                        s1.trail@[i - 1],
                        s1.trail@[i as int],
                    ));
                }
            }
            assert(solver.inv());
            lemma_step_measure_decrease(s1, *solver, i as int);
        }
        return (r, ev);
    }
    let placed = is_placed(&st);
    solver.shape_states.push(st);
    proof {
        assert(solver.shape_states@ =~= states1.take(i as int).push(st));
        assert forall|k: int| 0 <= k < solver.shape_states@.len() implies solver.frame_inv(k) by {
            if k < i {
                assert(s1.frame_inv(k));
                assert(solver.shape_states@[k] == states1[k]);
            } else {
                assert(solver.shape_states@[k] == st);
            }
        }
        assert(links(
            solver.board.all@,
            solver.base_variants@[i as int],
            st,
            solver.trail@[i as int],
            solver.board.cells_view(),
        ));
        assert(solver.chain_inv());
        assert(solver.inv());
    }
    if placed {
        let solved = solver.shape_states.len() == solver.labeled_shapes.len();
        if solved {
            proof {
                lemma_step_measure_decrease(s1, *solver, i as int);
            }
            return (true, Some(StepEvent::Solved));
        }
        let nst = next_shape_state(solver);
        let ghost states_mid = solver.shape_states@;
        solver.shape_states.push(nst);
        proof {
            solver.trail@ = trail1.push(solver.board.cells_view());
        }
        proof {
            assert forall|k: int| 0 <= k < solver.shape_states@.len() implies solver.frame_inv(
                k,
            ) by {
                if k < states_mid.len() {
                    assert(solver.shape_states@[k] == states_mid[k]);
                    if k < i {
                        assert(s1.frame_inv(k));
                        assert(states_mid[k] == states1[k]);
                    } else {
                        assert(states_mid[k] == st);
                    }
                } else {
                    assert(solver.shape_states@[k] == nst);
                }
            }
            assert(solver.trail@[i + 1] == solver.board.cells_view());
            assert(links(
                solver.board.all@,
                solver.base_variants@[i as int],
                st,
                solver.trail@[i as int],
                solver.trail@[i + 1],
            ));
            assert(solver.chain_inv());
            assert(solver.inv());
            lemma_entries_bounded(*solver);
            lemma_step_measure_decrease(s1, *solver, i as int);
        }
        return (true, Some(StepEvent::Placed));
    }
    proof {
        lemma_step_measure_decrease(s1, *solver, i as int);
    }
    (true, None)
}

/// The undo phase lands the board exactly on the top frame's trail entry:
/// undoing the pending placement inverts the placement the chain records.
proof fn lemma_mid_is_trail(s: Solver)
    requires
        s.inv(),
        s.shape_states@.len() > 0,
    ensures
        undone_view(s.board, s.shape_states@.last().remove) == s.trail@[s.shape_states@.len()
            - 1],
{
    let m = s.shape_states@.len() as int;
    let st = s.shape_states@[m - 1];
    assert(links(
        s.board.all@,
        s.base_variants@[m - 1],
        st,
        s.trail@[m - 1],
        s.board.cells_view(),
    ));
    match st.remove {
        None => {},
        Some(eps) => {
            let vp = s.base_variants@[m - 1]@[st.variant_index - 1]@;
            let anchor = st.points@[st.point_index as int];
            crate::board::lemma_fill_unfill_round_trip(
                s.board.all@,
                s.trail@[m - 1],
                vp,
                anchor,
                st.label@,
                eps@,
            );
        },
    }
}

/// The board view between frame `j - 1`'s placement and frame `j`'s: frame
/// `j`'s trail entry, or the current cells once every frame is passed.
pub open spec fn view_between(s: Solver, j: int) -> Seq<Option<Seq<char>>> {
    if j < s.shape_states@.len() {
        s.trail@[j]
    } else {
        s.board.cells_view()
    }
}

/// A cell a placement chain has marked stays marked: later placements in
/// the chain land only on unfilled cells, so they never overwrite it.
proof fn lemma_chain_keeps_cell(s: Solver, j: int, i: int, lab: Seq<char>)
    requires
        s.inv(),
        0 <= j <= s.shape_states@.len(),
        0 <= i < s.board.all@.len(),
        view_between(s, j)[i] == Some(lab),
    ensures
        s.board.cells_view()[i] == Some(lab),
    decreases s.shape_states@.len() - j,
{
    let m = s.shape_states@.len() as int;
    if j < m {
        let st = s.shape_states@[j];
        let base = view_between(s, j);
        let next = view_between(s, j + 1);
        assert(links(s.board.all@, s.base_variants@[j], st, base, next));
        match st.remove {
            None => {},
            Some(eps) => {
                let vp = s.base_variants@[j]@[st.variant_index - 1]@;
                let anchor = st.points@[st.point_index as int];
                assert(next == after_fill(s.board.all@, base, vp, anchor, st.label@));
                assert(next[i] == Some(lab)) by {
                    if covers(s.board.all@, vp, anchor, i) {
                        let j2 = choose|j2: int|
                            0 <= j2 < vp.len() && pt_at(
                                s.board.all@[i],
                                translated(#[trigger] vp[j2], anchor),
                            );
                        assert(open_at(s.board.all@, base, translated(vp[j2], anchor)));
                        let i2 = choose|i2: int|
                            0 <= i2 < s.board.all@.len() && pt_at(
                                #[trigger] s.board.all@[i2],
                                translated(vp[j2], anchor),
                            ) && base[i2] is None;
                        assert(s.board.all@[i2] == s.board.all@[i]);
                        assert(i2 == i);
                        assert(false);
                    }
                }
            },
        }
        lemma_chain_keeps_cell(s, j + 1, i, lab);
    }
}

/// Each live placement owns its cells: every position in a frame's pending
/// removal list currently carries that frame's label. Together with the
/// chain this relates the filled cells to the union of the frames'
/// placements, each labeled by its frame.
pub proof fn lemma_frame_owns_cells(s: Solver, k: int)
    requires
        s.inv(),
        0 <= k < s.shape_states@.len(),
        s.shape_states@[k].remove is Some,
    ensures
        forall|i: int|
            0 <= i < s.board.all@.len() && #[trigger] hits(
                s.board.all@,
                s.shape_states@[k].remove.unwrap()@,
                i,
            ) ==> s.board.cells_view()[i] == Some(s.shape_states@[k].label@),
{
    let m = s.shape_states@.len() as int;
    let st = s.shape_states@[k];
    let eps = st.remove.unwrap();
    let base = view_between(s, k);
    let next = view_between(s, k + 1);
    assert(links(s.board.all@, s.base_variants@[k], st, base, next));
    let vp = s.base_variants@[k]@[st.variant_index - 1]@;
    let anchor = st.points@[st.point_index as int];
    assert forall|i: int|
        0 <= i < s.board.all@.len() && #[trigger] hits(s.board.all@, eps@, i) implies s.board.cells_view()[i]
        == Some(st.label@) by {
        let j2 = choose|j2: int| 0 <= j2 < eps@.len() && s.board.all@[i] == #[trigger] eps@[j2];
        assert(pt_at(eps@[j2], translated(vp[j2], anchor)));
        assert(pt_at(s.board.all@[i], translated(vp[j2], anchor)));
        assert(covers(s.board.all@, vp, anchor, i));
        assert(next[i] == Some(st.label@));
        lemma_chain_keeps_cell(s, k + 1, i, st.label@);
    }
}

/// The measure shrinks whenever the digit of the stepped frame shrinks and
/// everything deeper is untouched: the common argument behind every `step`
/// path.
proof fn lemma_step_measure_decrease(s1: Solver, s2: Solver, j: int)
    requires
        s1.inv(),
        s2.inv(),
        s2.base_variants == s1.base_variants,
        s2.board.all@.len() == s1.board.all@.len(),
        s2.labeled_shapes@.len() == s1.labeled_shapes@.len(),
        0 <= j < s1.shape_states@.len(),
        j <= s2.shape_states@.len(),
        forall|k: int| 0 <= k < j ==> s2.shape_states@[k] == s1.shape_states@[k],
        entry_of(s2.shape_states@, s2.base_variants@, j) < entry_of(
            s1.shape_states@,
            s1.base_variants@,
            j,
        ),
    ensures
        s2.measure() < s1.measure(),
{
    lemma_entries_bounded(s1);
    lemma_entries_bounded(s2);
    assert forall|k: int| 0 <= k < j implies entry_of(s2.shape_states@, s2.base_variants@, k)
        == entry_of(s1.shape_states@, s1.base_variants@, k) by {
        assert(s2.shape_states@[k] == s1.shape_states@[k]);
    }
    lemma_mp_lt(
        s1.shape_states@,
        s2.shape_states@,
        s1.base_variants@,
        s1.board.all@.len(),
        j,
        s1.n(),
    );
}

} // verus!
