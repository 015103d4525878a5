//! The board: a fixed, ordered domain of fillable cells together with the
//! filled/unfilled partition, placement and removal of translated shapes,
//! marker lookup, enumeration of the unfilled cells in domain order, and a
//! bounded flood-fill connectivity query used by the solver's prune.
//!
//! The domain `all` is immutable after construction and duplicate-free. A
//! cell is either unfilled or holds the label of the piece occupying it;
//! `cells` records this per domain index. Placement translates shape offsets
//! by an anchor; a translation whose coordinates leave the `i16` range can
//! match no domain cell, so such a placement simply fails.

use crate::geometry::Point;
use vstd::prelude::*;
use vstd::seq_lib::*;

verus! {

/// The coordinates of `p` translated by the offset `off`, as unbounded
/// integers, so that translations that overflow `i16` are still spoken of.
pub open spec fn translated(p: Point, off: Point) -> (int, int) {
    (p.x + off.x, p.y + off.y)
}

/// `p` sits exactly at integer coordinates `c`.
pub open spec fn pt_at(p: Point, c: (int, int)) -> bool {
    p.x == c.0 && p.y == c.1
}

/// Some cell of the domain sits at coordinates `c` and is unfilled.
pub open spec fn open_at(all: Seq<Point>, cv: Seq<Option<Seq<char>>>, c: (int, int)) -> bool {
    exists|i: int| 0 <= i < all.len() && pt_at(#[trigger] all[i], c) && cv[i] is None
}

/// The domain cell `p` exists and is unfilled, in the board state whose
/// domain is `all` and whose cell contents are `cv`.
pub open spec fn open_cell(all: Seq<Point>, cv: Seq<Option<Seq<char>>>, p: Point) -> bool {
    exists|i: int| 0 <= i < all.len() && #[trigger] all[i] == p && cv[i] is None
}

/// Every offset of `ps`, translated by `off`, lands on an unfilled cell:
/// the condition under which a placement succeeds.
pub open spec fn placement_ok(
    all: Seq<Point>,
    cv: Seq<Option<Seq<char>>>,
    ps: Seq<Point>,
    off: Point,
) -> bool {
    forall|j: int| 0 <= j < ps.len() ==> open_at(all, cv, translated(#[trigger] ps[j], off))
}

/// Domain index `i` is one of the cells a placement of `ps` at `off` covers.
pub open spec fn covers(all: Seq<Point>, ps: Seq<Point>, off: Point, i: int) -> bool {
    exists|j: int| 0 <= j < ps.len() && pt_at(all[i], translated(#[trigger] ps[j], off))
}

/// The cell contents after a successful placement: every covered cell holds
/// the marker, every other cell is unchanged.
pub open spec fn after_fill(
    all: Seq<Point>,
    cv: Seq<Option<Seq<char>>>,
    ps: Seq<Point>,
    off: Point,
    marker: Seq<char>,
) -> Seq<Option<Seq<char>>> {
    Seq::new(cv.len(), |i: int| if covers(all, ps, off, i) { Some(marker) } else { cv[i] })
}

/// Domain index `i` holds one of the positions listed in `eps`.
pub open spec fn hits(all: Seq<Point>, eps: Seq<Point>, i: int) -> bool {
    exists|j: int| 0 <= j < eps.len() && all[i] == #[trigger] eps[j]
}

/// Every cell of the given contents is occupied: a complete covering.
pub open spec fn full_view(cv: Seq<Option<Seq<char>>>) -> bool {
    forall|i: int| 0 <= i < cv.len() ==> (#[trigger] cv[i]) is Some
}

/// The cell contents after removal: every listed position becomes unfilled,
/// every other cell is unchanged.
pub open spec fn after_unfill(
    all: Seq<Point>,
    cv: Seq<Option<Seq<char>>>,
    eps: Seq<Point>,
) -> Seq<Option<Seq<char>>> {
    Seq::new(cv.len(), |i: int| if hits(all, eps, i) { None } else { cv[i] })
}

pub struct Board {
    /// The ordered, immutable universe of fillable positions.
    pub all: Vec<Point>,
    /// Per domain index: `None` when unfilled, or the occupying label.
    pub cells: Vec<Option<String>>,
    /// Adjacency offsets for connectivity queries.
    pub dirs: Vec<Point>,
}

impl Board {
    /// Well-formedness: one cell per domain position, and the domain is a
    /// set, listed without repetition.
    pub open spec fn inv(self) -> bool {
        &&& self.cells@.len() == self.all@.len()
        &&& self.all@.no_duplicates()
    }

    /// The cell contents with markers abstracted to character sequences.
    pub open spec fn cells_view(self) -> Seq<Option<Seq<char>>> {
        self.cells@.map_values(
            |c: Option<String>|
                match c {
                    Some(s) => Some(s@),
                    None => None,
                },
        )
    }

    pub open spec fn contains_pt(self, p: Point) -> bool {
        self.all@.contains(p)
    }

    pub open spec fn idx_of(self, p: Point) -> int {
        self.all@.index_of(p)
    }

    /// `p` is a domain cell that is currently empty.
    pub open spec fn is_unfilled(self, p: Point) -> bool {
        self.contains_pt(p) && self.cells@[self.idx_of(p)] is None
    }

    /// The unfilled positions, in domain order: what `remaining` returns
    /// and what a fresh search frame is seeded with.
    pub open spec fn unfilled_cells(self) -> Seq<Point> {
        self.all@.filter(|q: Point| self.is_unfilled(q))
    }

    /// The marker occupying `p`, or `None` when `p` is unfilled or outside
    /// the domain.
    pub open spec fn marker_at(self, p: Point) -> Option<String> {
        if self.contains_pt(p) {
            self.cells@[self.idx_of(p)]
        } else {
            None
        }
    }

    /// Construct a board whose whole domain is unfilled.
    pub fn new(ps: Vec<Point>, dirs: Vec<Point>) -> (b: Board)
        requires
            ps@.no_duplicates(),
        ensures
            b.inv(),
            b.all == ps,
            b.dirs == dirs,
            forall|i: int| 0 <= i < ps@.len() ==> b.cells@[i] is None,
    {
        let mut cells: Vec<Option<String>> = Vec::new();
        let mut i: usize = 0;
        while i < ps.len()
            invariant
                i <= ps@.len(),
                cells@.len() == i,
                forall|k: int| 0 <= k < i ==> cells@[k] is None,
            decreases ps@.len() - i,
        {
            cells.push(None);
            i = i + 1;
        }
        Board { all: ps, cells, dirs }
    }

    /// The index of `p` in the domain, or `None` when `p` is not a domain
    /// cell.
    fn find_index(&self, p: Point) -> (r: Option<usize>)
        requires
            self.inv(),
        ensures
            match r {
                Some(i) => i < self.all@.len() && self.all@[i as int] == p && self.idx_of(p) == i
                    && self.contains_pt(p),
                None => !self.contains_pt(p),
            },
    {
        let mut i: usize = 0;
        while i < self.all.len()
            invariant
                self.inv(),
                i <= self.all@.len(),
                forall|k: int| 0 <= k < i ==> self.all@[k] != p,
            decreases self.all@.len() - i,
        {
            if self.all[i] == p {
                proof {
                    lemma_index_of_unique(self.all@, i as int);
                }
                return Some(i);
            }
            i = i + 1;
        }
        None
    }

    /// Whether `p` is an unfilled domain cell, decided by scanning.
    fn unfilled_ex(&self, p: Point) -> (r: bool)
        requires
            self.inv(),
        ensures
            r == self.is_unfilled(p),
    {
        match self.find_index(p) {
            Some(i) => self.cells[i].is_none(),
            None => false,
        }
    }

    /// `open_at` at a representable coordinate pair, `open_cell`, and
    /// `is_unfilled` of the point there all agree.
    proof fn lemma_open_at_point(self, p: Point)
        requires
            self.inv(),
        ensures
            open_at(self.all@, self.cells_view(), (p.x as int, p.y as int)) == self.is_unfilled(p),
            open_cell(self.all@, self.cells_view(), p) == self.is_unfilled(p),
    {
        let all = self.all@;
        let cv = self.cells_view();
        if open_at(all, cv, (p.x as int, p.y as int)) {
            let i = choose|i: int|
                0 <= i < all.len() && pt_at(#[trigger] all[i], (p.x as int, p.y as int))
                    && cv[i] is None;
            assert(all[i] == p);
            assert(all.contains(p));
            lemma_index_of_unique(all, i);
            assert(self.is_unfilled(p));
        }
        if open_cell(all, cv, p) {
            let i = choose|i: int| 0 <= i < all.len() && #[trigger] all[i] == p && cv[i] is None;
            assert(all.contains(p));
            lemma_index_of_unique(all, i);
            assert(self.is_unfilled(p));
        }
        if self.is_unfilled(p) {
            assert(all.contains(p));
            let i = self.idx_of(p);
            lemma_index_of_props(all, p);
            assert(0 <= i < all.len() && all[i] == p);
            assert(pt_at(all[i], (p.x as int, p.y as int)));
            assert(open_at(all, cv, (p.x as int, p.y as int)));
            assert(open_cell(all, cv, p));
        }
    }

    /// Place a piece: translate each offset in `ps` by `anchor`; when every
    /// translated position is an unfilled domain cell, mark them all with
    /// `marker` and return them; otherwise change nothing and return `None`.
    pub fn fill(&mut self, ps: &Vec<Point>, anchor: Point, marker: &str) -> (r: Option<Vec<Point>>)
        requires
            old(self).inv(),
        ensures
            final(self).inv(),
            final(self).all == old(self).all,
            final(self).dirs == old(self).dirs,
            (r is Some) == placement_ok(old(self).all@, old(self).cells_view(), ps@, anchor),
            r is None ==> *final(self) == *old(self),
            r matches Some(eps) ==> {
                &&& eps@.len() == ps@.len()
                &&& eps@ == translated_pts(ps@, anchor)
                &&& forall|j: int|
                    0 <= j < ps@.len() ==> pt_at(#[trigger] eps@[j], translated(ps@[j], anchor))
                        && old(self).is_unfilled(eps@[j])
                &&& final(self).cells_view() == after_fill(
                    old(self).all@,
                    old(self).cells_view(),
                    ps@,
                    anchor,
                    marker@,
                )
            },
    {
        let ghost all0 = self.all@;
        let ghost cv0 = self.cells_view();
        let mut eps: Vec<Point> = Vec::new();
        let mut j: usize = 0;
        while j < ps.len()
            invariant
                self.inv(),
                *self == *old(self),
                all0 == self.all@,
                cv0 == self.cells_view(),
                j <= ps@.len(),
                eps@.len() == j,
                forall|k: int|
                    0 <= k < j ==> pt_at(#[trigger] eps@[k], translated(ps@[k], anchor))
                        && open_cell(all0, cv0, eps@[k]),
            decreases ps@.len() - j,
        {
            let p = ps[j];
            let tx: i32 = p.x as i32 + anchor.x as i32;
            let ty: i32 = p.y as i32 + anchor.y as i32;
            if tx < i16::MIN as i32 || tx > i16::MAX as i32 || ty < i16::MIN as i32 || ty
                > i16::MAX as i32 {
                proof {
                    assert(!open_at(all0, cv0, translated(ps@[j as int], anchor)));
                    assert(!placement_ok(all0, cv0, ps@, anchor));
                }
                return None;
            }
            let op = Point { x: tx as i16, y: ty as i16 };
            proof {
                self.lemma_open_at_point(op);
                assert((op.x as int, op.y as int) == translated(ps@[j as int], anchor));
            }
            if !self.unfilled_ex(op) {
                proof {
                    assert(!open_at(all0, cv0, translated(ps@[j as int], anchor)));
                    assert(!placement_ok(all0, cv0, ps@, anchor));
                }
                return None;
            }
            eps.push(op);
            j = j + 1;
        }
        let ghost epsv = eps@;
        let mut k: usize = 0;
        while k < eps.len()
            invariant
                self.inv(),
                self.all == old(self).all,
                self.dirs == old(self).dirs,
                all0 == self.all@,
                cv0.len() == all0.len(),
                eps@ == epsv,
                epsv.len() == ps@.len(),
                k <= eps@.len(),
                forall|j2: int|
                    0 <= j2 < ps@.len() ==> pt_at(#[trigger] epsv[j2], translated(ps@[j2], anchor))
                        && open_cell(all0, cv0, epsv[j2]),
                forall|i: int|
                    0 <= i < all0.len() ==> #[trigger] self.cells_view()[i] == (if hits(
                        all0,
                        epsv.take(k as int),
                        i,
                    ) {
                        Some(marker@)
                    } else {
                        cv0[i]
                    }),
            decreases eps@.len() - k,
        {
            let ep = eps[k];
            let idx = match self.find_index(ep) {
                Some(i) => i,
                None => {
                    proof {
                        let i = choose|i: int|
                            0 <= i < all0.len() && #[trigger] all0[i] == epsv[k as int]
                                && cv0[i] is None;
                        assert(all0.contains(ep));
                        assert(false);
                    }
                    return None;
                },
            };
            let ghost cv_before = self.cells_view();
            self.cells[idx] = Some(marker.to_owned());
            proof {
                assert(self.cells_view() =~= cv_before.update(idx as int, Some(marker@)));
                lemma_hits_take_step(all0, epsv, k as int, idx as int);
            }
            k = k + 1;
        }
        proof {
            assert(epsv.take(eps@.len() as int) =~= epsv);
            assert forall|i: int| 0 <= i < all0.len() implies hits(all0, epsv, i) == covers(
                all0,
                ps@,
                anchor,
                i,
            ) by {
                if hits(all0, epsv, i) {
                    let j2 = choose|j2: int| 0 <= j2 < epsv.len() && all0[i] == #[trigger] epsv[j2];
                    assert(pt_at(epsv[j2], translated(ps@[j2], anchor)));
                    assert(covers(all0, ps@, anchor, i));
                }
                if covers(all0, ps@, anchor, i) {
                    let j2 = choose|j2: int|
                        0 <= j2 < ps@.len() && pt_at(
                            all0[i],
                            translated(#[trigger] ps@[j2], anchor),
                        );
                    assert(pt_at(epsv[j2], translated(ps@[j2], anchor)));
                    assert(all0[i] == epsv[j2]);
                    assert(hits(all0, epsv, i));
                }
            }
            assert(self.cells_view() =~= after_fill(all0, cv0, ps@, anchor, marker@));
            assert forall|j2: int| 0 <= j2 < ps@.len() implies open_at(
                all0,
                cv0,
                translated(#[trigger] ps@[j2], anchor),
            ) && old(self).is_unfilled(epsv[j2]) by {
                old(self).lemma_open_at_point(epsv[j2]);
                assert((epsv[j2].x as int, epsv[j2].y as int) == translated(ps@[j2], anchor));
            }
            assert(placement_ok(all0, cv0, ps@, anchor));
        }
        Some(eps)
    }

    /// Remove a previously placed piece: every listed position becomes
    /// unfilled again. The list must come from a successful `fill`; what the
    /// contract needs of it is that each position is a domain cell.
    pub fn unfill(&mut self, eps: Vec<Point>)
        requires
            old(self).inv(),
            forall|j: int| 0 <= j < eps@.len() ==> old(self).contains_pt(#[trigger] eps@[j]),
        ensures
            final(self).inv(),
            final(self).all == old(self).all,
            final(self).dirs == old(self).dirs,
            final(self).cells_view() == after_unfill(old(self).all@, old(self).cells_view(), eps@),
    {
        let ghost all0 = self.all@;
        let ghost cv0 = self.cells_view();
        let ghost epsv = eps@;
        let mut k: usize = 0;
        while k < eps.len()
            invariant
                self.inv(),
                self.all == old(self).all,
                self.dirs == old(self).dirs,
                all0 == self.all@,
                cv0.len() == all0.len(),
                eps@ == epsv,
                k <= eps@.len(),
                forall|j: int| 0 <= j < eps@.len() ==> all0.contains(#[trigger] eps@[j]),
                forall|i: int|
                    0 <= i < all0.len() ==> #[trigger] self.cells_view()[i] == (if hits(
                        all0,
                        epsv.take(k as int),
                        i,
                    ) {
                        None
                    } else {
                        cv0[i]
                    }),
            decreases eps@.len() - k,
        {
            let ep = eps[k];
            let idx = match self.find_index(ep) {
                Some(i) => i,
                None => {
                    proof {
                        assert(all0.contains(eps@[k as int]));
                        assert(false);
                    }
                    return ;
                },
            };
            let ghost cv_before = self.cells_view();
            self.cells[idx] = None;
            proof {
                assert(self.cells_view() =~= cv_before.update(idx as int, None));
                lemma_hits_take_step(all0, epsv, k as int, idx as int);
            }
            k = k + 1;
        }
        proof {
            assert(epsv.take(eps@.len() as int) =~= epsv);
            assert(self.cells_view() =~= after_unfill(all0, cv0, epsv));
        }
    }

    /// The unfilled positions, in the same relative order as `all`. This
    /// ordering determinism is load-bearing: it makes the solver's candidate
    /// lists, and with them the whole search, reproducible.
    pub fn remaining(&self) -> (r: Vec<Point>)
        requires
            self.inv(),
        ensures
            r@ == self.unfilled_cells(),
            forall|j: int| 0 <= j < r@.len() ==> self.is_unfilled(#[trigger] r@[j]),
            r@.len() <= self.all@.len(),
    {
        let mut r: Vec<Point> = Vec::new();
        let mut i: usize = 0;
        while i < self.all.len()
            invariant
                self.inv(),
                i <= self.all@.len(),
                r@ == self.all@.take(i as int).filter(|q: Point| self.is_unfilled(q)),
            decreases self.all@.len() - i,
        {
            proof {
                lemma_index_of_unique(self.all@, i as int);
                reveal(Seq::filter);
                let t1 = self.all@.take(i + 1);
                assert(t1.drop_last() =~= self.all@.take(i as int));
                assert(t1.last() == self.all@[i as int]);
            }
            if self.cells[i].is_none() {
                r.push(self.all[i]);
                proof {
                    assert(self.is_unfilled(self.all@[i as int]));
                    assert(self.all@.take(i + 1).filter(|q: Point| self.is_unfilled(q))
                        =~= self.all@.take(i as int).filter(|q: Point| self.is_unfilled(q)).push(
                        self.all@[i as int],
                    ));
                }
            } else {
                proof {
                    assert(!self.is_unfilled(self.all@[i as int]));
                    assert(self.all@.take(i + 1).filter(|q: Point| self.is_unfilled(q))
                        =~= self.all@.take(i as int).filter(|q: Point| self.is_unfilled(q)));
                }
            }
            i = i + 1;
        }
        proof {
            assert(self.all@.take(self.all@.len() as int) =~= self.all@);
            self.all@.lemma_filter_len(|q: Point| self.is_unfilled(q));
            self.all@.filter_lemma(|q: Point| self.is_unfilled(q));
        }
        r
    }

    /// Every cell on the path is unfilled and each consecutive pair is one
    /// adjacency step apart: a walk through the open-cell graph.
    pub open spec fn is_open_path(self, path: Seq<Point>) -> bool {
        &&& forall|i: int| 0 <= i < path.len() ==> self.is_unfilled(#[trigger] path[i])
        &&& forall|i: int| 1 <= i < path.len() ==> step_to(self.dirs@, path[i - 1], #[trigger] path[i])
    }

    /// `q` can be reached from `p` through unfilled cells along the board's
    /// adjacency offsets.
    pub open spec fn connected(self, p: Point, q: Point) -> bool {
        exists|path: Seq<Point>|
            path.len() > 0 && path[0] == p && path[path.len() - 1] == q && self.is_open_path(path)
    }

    pub open spec fn connected_from(self, p: Point) -> spec_fn(Point) -> bool {
        |q: Point| self.connected(p, q)
    }

    /// The number of domain cells connected to `p` through unfilled cells:
    /// the size of the empty pocket around `p`.
    pub open spec fn component_count(self, p: Point) -> nat {
        self.all@.filter(self.connected_from(p)).len()
    }

    /// `visited` is closed under open steps: no unfilled neighbour of a
    /// member is missing.
    pub open spec fn closed_under_steps(self, visited: Seq<Point>) -> bool {
        forall|v: Point, w: Point|
            #![trigger visited.contains(v), step_to(self.dirs@, v, w)]
            visited.contains(v) && step_to(self.dirs@, v, w) && self.is_unfilled(w)
                ==> visited.contains(w)
    }

    /// `visited` is closed under open steps except possibly at the members
    /// still waiting in `queue`.
    pub open spec fn closed_except(self, visited: Seq<Point>, queue: Seq<Point>) -> bool {
        forall|v: Point, w: Point|
            #![trigger visited.contains(v), step_to(self.dirs@, v, w)]
            visited.contains(v) && !queue.contains(v) && step_to(self.dirs@, v, w)
                && self.is_unfilled(w) ==> visited.contains(w)
    }

    /// A connection extends along one more open step.
    proof fn lemma_connected_step(self, p: Point, q: Point, w: Point)
        requires
            self.connected(p, q),
            step_to(self.dirs@, q, w),
            self.is_unfilled(w),
        ensures
            self.connected(p, w),
    {
        let path = choose|path: Seq<Point>|
            path.len() > 0 && path[0] == p && path[path.len() - 1] == q && self.is_open_path(path);
        let path2 = path.push(w);
        assert(path2[0] == p);
        assert(path2[path2.len() - 1] == w);
        assert forall|i: int| 0 <= i < path2.len() implies self.is_unfilled(#[trigger] path2[i]) by {
            if i < path.len() {
                assert(path2[i] == path[i]);
            } else {
                assert(path2[i] == w);
            }
        }
        assert forall|i: int| 1 <= i < path2.len() implies step_to(
            self.dirs@,
            path2[i - 1],
            #[trigger] path2[i],
        ) by {
            if i < path.len() {
                assert(path2[i] == path[i] && path2[i - 1] == path[i - 1]);
            } else {
                assert(path2[i] == w && path2[i - 1] == path[path.len() - 1]);
            }
        }
        assert(self.is_open_path(path2));
    }

    /// An unfilled cell is connected to itself by the one-point path.
    proof fn lemma_connected_self(self, p: Point)
        requires
            self.is_unfilled(p),
        ensures
            self.connected(p, p),
    {
        let path: Seq<Point> = seq![p];
        assert(path[0] == p && path[path.len() - 1] == p);
        assert(self.is_open_path(path));
    }

    /// Whatever a path can reach from inside a step-closed set stays inside
    /// the set.
    proof fn lemma_closed_contains_path(self, visited: Seq<Point>, path: Seq<Point>)
        requires
            path.len() > 0,
            visited.contains(path[0]),
            self.is_open_path(path),
            self.closed_under_steps(visited),
        ensures
            visited.contains(path[path.len() - 1]),
        decreases path.len(),
    {
        if path.len() > 1 {
            let pre = path.drop_last();
            assert(pre.len() == path.len() - 1);
            assert forall|i: int| 0 <= i < pre.len() implies self.is_unfilled(#[trigger] pre[i]) by {
                assert(pre[i] == path[i]);
            }
            assert forall|i: int| 1 <= i < pre.len() implies step_to(
                self.dirs@,
                pre[i - 1],
                #[trigger] pre[i],
            ) by {
                assert(pre[i] == path[i] && pre[i - 1] == path[i - 1]);
            }
            self.lemma_closed_contains_path(visited, pre);
            assert(visited.contains(path[path.len() - 2]));
            assert(step_to(self.dirs@, path[path.len() - 2], path[path.len() - 1]));
            assert(self.is_unfilled(path[path.len() - 1]));
        }
    }

    /// Bounded flood fill: the number of unfilled cells connected to `p`,
    /// capped at `limit`. The traversal stops as soon as `limit` cells are
    /// found; a filled or out-of-domain start reaches nothing.
    pub fn reachable(&self, p: &Point, limit: usize) -> (r: usize)
        requires
            self.inv(),
        ensures
            r <= limit,
            r <= self.component_count(*p),
            r == limit || r == self.component_count(*p),
            !self.is_unfilled(*p) ==> r == 0,
    {
        let ghost pred = self.connected_from(*p);
        if limit == 0 {
            return 0;
        }
        if !self.unfilled_ex(*p) {
            proof {
                let f = self.all@.filter(pred);
                self.all@.filter_lemma(pred);
                if f.len() > 0 {
                    assert(pred(f[0]));
                    assert(self.connected(*p, f[0]));
                    let path = choose|path: Seq<Point>|
                        path.len() > 0 && path[0] == *p && path[path.len() - 1] == f[0]
                            && self.is_open_path(path);
                    assert(self.is_unfilled(path[0]));
                    assert(false);
                }
            }
            return 0;
        }
        let mut visited: Vec<Point> = Vec::new();
        let mut queue: Vec<Point> = Vec::new();
        visited.push(*p);
        queue.push(*p);
        proof {
            self.lemma_connected_self(*p);
            assert(visited@ =~= seq![*p]);
            assert(forall|j: int| 0 <= j < visited@.len() ==> visited@[j] == *p);
            assert(visited@[0] == *p);
            assert(visited@.contains(*p));
            lemma_distinct_members_card(visited@, self.all@);
        }
        if visited.len() == limit {
            proof {
                self.lemma_count_sound(*p, visited@);
            }
            return limit;
        }
        while queue.len() > 0
            invariant
                self.inv(),
                visited@.no_duplicates(),
                forall|j: int|
                    0 <= j < visited@.len() ==> self.is_unfilled(#[trigger] visited@[j])
                        && self.connected(*p, visited@[j]),
                visited@.contains(*p),
                forall|j: int| 0 <= j < queue@.len() ==> visited@.contains(#[trigger] queue@[j]),
                self.closed_except(visited@, queue@),
                visited@.len() < limit,
                visited@.len() <= self.all@.len(),
            decreases self.all@.len() - visited@.len() + queue@.len(),
        {
            let ghost queue0 = queue@;
            let q = match queue.pop() {
                Some(q) => q,
                None => {
                    proof {
                        assert(false);
                    }
                    return 0;
                },
            };
            proof {
                assert(queue0 =~= queue@.push(q));
                assert(visited@.contains(q));
            }
            let ghost v0: int = visited@.len() as int;
            let ghost q0: int = queue@.len() as int;
            let mut d: usize = 0;
            while d < self.dirs.len()
                invariant
                    self.inv(),
                    visited@.no_duplicates(),
                    forall|j: int|
                        0 <= j < visited@.len() ==> self.is_unfilled(#[trigger] visited@[j])
                            && self.connected(*p, visited@[j]),
                    visited@.contains(*p),
                    visited@.contains(q),
                    forall|j: int| 0 <= j < queue@.len() ==> visited@.contains(#[trigger] queue@[j]),
                    self.closed_except(visited@, queue@.push(q)),
                    visited@.len() < limit,
                    visited@.len() <= self.all@.len(),
                    visited@.len() >= v0,
                    queue@.len() - q0 == visited@.len() - v0,
                    d <= self.dirs@.len(),
                    forall|w: Point, k: int|
                        #![trigger self.dirs@[k], self.is_unfilled(w)]
                        0 <= k < d && w.x == q.x + self.dirs@[k].x && w.y == q.y + self.dirs@[k].y
                            && self.is_unfilled(w) ==> visited@.contains(w),
                decreases self.dirs@.len() - d,
            {
                let dir = self.dirs[d];
                let nx: i32 = q.x as i32 + dir.x as i32;
                let ny: i32 = q.y as i32 + dir.y as i32;
                if nx >= i16::MIN as i32 && nx <= i16::MAX as i32 && ny >= i16::MIN as i32 && ny
                    <= i16::MAX as i32 {
                    let w = Point { x: nx as i16, y: ny as i16 };
                    if self.unfilled_ex(w) && !vec_contains(&visited, w) {
                        proof {
                            assert(forall|j: int| 0 <= j < visited@.len() ==> visited@[j] != w);
                            assert(step_to(self.dirs@, q, w));
                            self.lemma_connected_step(*p, q, w);
                        }
                        let ghost v_before = visited@;
                        let ghost q_before = queue@;
                        visited.push(w);
                        queue.push(w);
                        proof {
                            assert(visited@ == v_before.push(w));
                            assert(queue@ == q_before.push(w));
                            assert(visited@[visited@.len() - 1] == w);
                            assert(visited@.contains(w));
                            assert forall|w2: Point|
                                v_before.contains(w2) implies visited@.contains(w2) by {
                                let jj = choose|jj: int|
                                    0 <= jj < v_before.len() && v_before[jj] == w2;
                                assert(visited@[jj] == w2);
                            }
                            assert forall|j: int|
                                0 <= j < queue@.len() implies visited@.contains(
                                #[trigger] queue@[j],
                            ) by {
                                if j < q_before.len() {
                                    assert(queue@[j] == q_before[j]);
                                    let jj = choose|jj: int|
                                        0 <= jj < v_before.len() && v_before[jj] == q_before[j];
                                    assert(visited@[jj] == q_before[j]);
                                } else {
                                    assert(queue@[j] == w);
                                }
                            }
                            assert forall|v: Point, w2: Point|
                                #![trigger visited@.contains(v), step_to(self.dirs@, v, w2)]
                                visited@.contains(v) && !queue@.push(q).contains(v) && step_to(
                                    self.dirs@,
                                    v,
                                    w2,
                                ) && self.is_unfilled(w2) implies visited@.contains(w2) by {
                                assert(queue@.push(q)[q_before.len() as int] == w);
                                assert(queue@.push(q).contains(w));
                                assert(v != w);
                                let jv = choose|jv: int|
                                    0 <= jv < visited@.len() && visited@[jv] == v;
                                assert(jv < v_before.len());
                                assert(v_before[jv] == v);
                                assert(v_before.contains(v));
                                assert(!q_before.push(q).contains(v)) by {
                                    if q_before.push(q).contains(v) {
                                        let jq = choose|jq: int|
                                            0 <= jq < q_before.push(q).len() && q_before.push(q)[jq]
                                                == v;
                                        assert(queue@.push(q).len() == q_before.push(q).len() + 1);
                                        if jq < q_before.len() {
                                            assert(queue@.push(q)[jq] == q_before[jq]);
                                        } else {
                                            assert(queue@.push(q)[queue@.len() as int] == q);
                                        }
                                        assert(queue@.push(q).contains(v));
                                        assert(false);
                                    }
                                }
                                assert(v_before.contains(w2));
                                let jw = choose|jw: int|
                                    0 <= jw < v_before.len() && v_before[jw] == w2;
                                assert(visited@[jw] == w2);
                            }
                            assert(visited@.contains(*p)) by {
                                let j = choose|j: int|
                                    0 <= j < v_before.len() && v_before[j] == *p;
                                assert(visited@[j] == *p);
                            }
                            assert(visited@.contains(q)) by {
                                let j = choose|j: int| 0 <= j < v_before.len() && v_before[j] == q;
                                assert(visited@[j] == q);
                            }
                            lemma_distinct_members_card(visited@, self.all@);
                        }
                        if visited.len() == limit {
                            proof {
                                self.lemma_count_sound(*p, visited@);
                            }
                            return limit;
                        }
                    }
                }
                d = d + 1;
            }
            proof {
                assert forall|v: Point, w: Point|
                    #![trigger visited@.contains(v), step_to(self.dirs@, v, w)]
                    visited@.contains(v) && !queue@.contains(v) && step_to(self.dirs@, v, w)
                        && self.is_unfilled(w) implies visited@.contains(w) by {
                    if v == q {
                        let k = choose|k: int|
                            0 <= k < self.dirs@.len() && w.x == v.x + #[trigger] self.dirs@[k].x
                                && w.y == v.y + self.dirs@[k].y;
                        assert(visited@.contains(w));
                    } else {
                        assert(!queue@.push(q).contains(v));
                    }
                }
            }
        }
        proof {
            assert forall|q2: Point| #[trigger] pred(q2) implies visited@.contains(q2) by {
                assert(self.connected(*p, q2));
                let path = choose|path: Seq<Point>|
                    path.len() > 0 && path[0] == *p && path[path.len() - 1] == q2
                        && self.is_open_path(path);
                assert(self.closed_under_steps(visited@));
                self.lemma_closed_contains_path(visited@, path);
            }
            self.lemma_count_exact(*p, visited@);
        }
        visited.len()
    }

    /// A duplicate-free list of cells, each connected to `p`, cannot exceed
    /// the component count.
    proof fn lemma_count_sound(self, p: Point, visited: Seq<Point>)
        requires
            self.inv(),
            visited.no_duplicates(),
            forall|j: int|
                0 <= j < visited.len() ==> self.is_unfilled(#[trigger] visited[j]) && self.connected(
                    p,
                    visited[j],
                ),
        ensures
            visited.len() <= self.component_count(p),
    {
        broadcast use vstd::seq_lib::group_seq_properties;

        let pred = self.connected_from(p);
        let f = self.all@.filter(pred);
        visited.unique_seq_to_set();
        f.lemma_cardinality_of_set();
        assert forall|x: Point| visited.to_set().contains(x) implies f.to_set().contains(x) by {
            assert(visited.contains(x));
            let j = choose|j: int| 0 <= j < visited.len() && visited[j] == x;
            assert(self.is_unfilled(x) && self.connected(p, x));
            assert(self.all@.contains(x));
            let i = choose|i: int| 0 <= i < self.all@.len() && self.all@[i] == x;
            assert(pred(self.all@[i]));
            self.all@.lemma_filter_contains(pred, i);
            assert(f.contains(x));
        }
        assert(visited.to_set().subset_of(f.to_set()));
        vstd::set_lib::lemma_len_subset(visited.to_set(), f.to_set());
    }

    /// A duplicate-free list of cells connected to `p` that already holds
    /// every cell connected to `p` has exactly the component count.
    proof fn lemma_count_exact(self, p: Point, visited: Seq<Point>)
        requires
            self.inv(),
            visited.no_duplicates(),
            forall|j: int|
                0 <= j < visited.len() ==> self.is_unfilled(#[trigger] visited[j]) && self.connected(
                    p,
                    visited[j],
                ),
            forall|q2: Point| #[trigger] self.connected_from(p)(q2) ==> visited.contains(q2),
        ensures
            visited.len() == self.component_count(p),
    {
        broadcast use vstd::seq_lib::group_seq_properties;

        let pred = self.connected_from(p);
        let f = self.all@.filter(pred);
        self.lemma_count_sound(p, visited);
        lemma_filter_members(self.all@, pred);
        visited.unique_seq_to_set();
        f.unique_seq_to_set();
        assert forall|x: Point| f.to_set().contains(x) implies visited.to_set().contains(x) by {
            assert(f.contains(x));
            let i = choose|i: int| 0 <= i < f.len() && f[i] == x;
            self.all@.filter_lemma(pred);
            assert(pred(f[i]));
            assert(visited.contains(x));
        }
        vstd::set_lib::lemma_len_subset(f.to_set(), visited.to_set());
    }

    /// Whether every domain cell is occupied: the board is a complete
    /// covering.
    pub fn full(&self) -> (r: bool)
        ensures
            r == full_view(self.cells_view()),
    {
        let mut i: usize = 0;
        while i < self.cells.len()
            invariant
                i <= self.cells@.len(),
                forall|k: int| 0 <= k < i ==> (#[trigger] self.cells_view()[k]) is Some,
            decreases self.cells@.len() - i,
        {
            if self.cells[i].is_none() {
                proof {
                    assert(self.cells_view()[i as int] is None);
                    assert(!full_view(self.cells_view()));
                }
                return false;
            }
            i = i + 1;
        }
        true
    }

    /// The marker at `p`: `None` when `p` is unfilled or outside the domain,
    /// otherwise the occupying label.
    pub fn at(&self, p: &Point) -> (r: Option<String>)
        requires
            self.inv(),
        ensures
            r == self.marker_at(*p),
    {
        match self.find_index(*p) {
            Some(i) => {
                match &self.cells[i] {
                    Some(s) => Some(s.clone()),
                    None => None,
                }
            },
            None => None,
        }
    }
}

/// One of the adjacency offsets in `dirs` leads from `p` to `q`.
pub open spec fn step_to(dirs: Seq<Point>, p: Point, q: Point) -> bool {
    exists|k: int|
        0 <= k < dirs.len() && q.x == p.x + #[trigger] dirs[k].x && q.y == p.y + dirs[k].y
}

/// Whether `v` lists the point `p`, decided by scanning.
fn vec_contains(v: &Vec<Point>, p: Point) -> (r: bool)
    ensures
        r == v@.contains(p),
{
    let mut i: usize = 0;
    while i < v.len()
        invariant
            i <= v@.len(),
            forall|k: int| 0 <= k < i ==> v@[k] != p,
        decreases v@.len() - i,
    {
        if v[i] == p {
            return true;
        }
        i = i + 1;
    }
    false
}

/// A duplicate-free sequence of members of `all` is no longer than `all`.
proof fn lemma_distinct_members_card(s: Seq<Point>, all: Seq<Point>)
    requires
        s.no_duplicates(),
        forall|j: int| 0 <= j < s.len() ==> all.contains(#[trigger] s[j]),
    ensures
        s.len() <= all.len(),
{
    broadcast use vstd::seq_lib::group_seq_properties;

    s.unique_seq_to_set();
    all.lemma_cardinality_of_set();
    assert forall|x: Point| s.to_set().contains(x) implies all.to_set().contains(x) by {
        assert(s.contains(x));
        let j = choose|j: int| 0 <= j < s.len() && s[j] == x;
        assert(all.contains(s[j]));
    }
    assert(s.to_set().subset_of(all.to_set()));
    vstd::set_lib::lemma_len_subset(s.to_set(), all.to_set());
}

/// Filtering keeps a duplicate-free sequence duplicate-free, and invents no
/// members.
proof fn lemma_filter_members(s: Seq<Point>, pred: spec_fn(Point) -> bool)
    requires
        s.no_duplicates(),
    ensures
        s.filter(pred).no_duplicates(),
        forall|x: Point| s.filter(pred).contains(x) ==> s.contains(x),
    decreases s.len(),
{
    reveal(Seq::filter);
    if s.len() == 0 {
    } else {
        let pre = s.drop_last();
        assert(forall|i: int| 0 <= i < pre.len() ==> pre[i] == s[i]);
        lemma_filter_members(pre, pred);
        assert forall|x: Point| s.filter(pred).contains(x) implies s.contains(x) by {
            let i = choose|i: int| 0 <= i < s.filter(pred).len() && s.filter(pred)[i] == x;
            if pred(s.last()) {
                assert(s.filter(pred) == pre.filter(pred).push(s.last()));
                if i < pre.filter(pred).len() {
                    assert(pre.filter(pred).contains(pre.filter(pred)[i]));
                    assert(pre.contains(x));
                    let j = choose|j: int| 0 <= j < pre.len() && pre[j] == x;
                    assert(s[j] == x);
                } else {
                    assert(x == s.last());
                    assert(s[s.len() - 1] == x);
                }
            } else {
                assert(s.filter(pred) == pre.filter(pred));
                assert(pre.contains(x));
                let j = choose|j: int| 0 <= j < pre.len() && pre[j] == x;
                assert(s[j] == x);
            }
        }
        if pred(s.last()) {
            assert(s.filter(pred) == pre.filter(pred).push(s.last()));
            assert(!pre.filter(pred).contains(s.last())) by {
                if pre.filter(pred).contains(s.last()) {
                    assert(pre.contains(s.last()));
                    let j = choose|j: int| 0 <= j < pre.len() && pre[j] == s.last();
                    assert(s[j] == s[s.len() - 1]);
                    assert(false);
                }
            }
            let f = pre.filter(pred);
            let g = f.push(s.last());
            assert forall|i: int, j: int|
                0 <= i < g.len() && 0 <= j < g.len() && i != j implies g[i] != g[j] by {
                if i < f.len() && j < f.len() {
                    assert(f[i] == g[i] && f[j] == g[j]);
                } else if i < f.len() && j == f.len() {
                    assert(f.contains(f[i]));
                } else if j < f.len() && i == f.len() {
                    assert(f.contains(f[j]));
                }
            }
            assert(g.no_duplicates());
        } else {
            assert(s.filter(pred) == pre.filter(pred));
        }
    }
}

/// Component-wise vector addition of two grid points.
pub fn add(a: &Point, b: &Point) -> (r: Point)
    requires
        i16::MIN <= a.x + b.x <= i16::MAX,
        i16::MIN <= a.y + b.y <= i16::MAX,
    ensures
        r.x == a.x + b.x,
        r.y == a.y + b.y,
{
    Point { x: a.x + b.x, y: a.y + b.y }
}

/// A board over the given domain with the four orthogonal unit offsets as
/// its adjacency directions.
pub fn make_point_board(points: Vec<Point>) -> (b: Board)
    requires
        points@.no_duplicates(),
    ensures
        b.inv(),
        b.all == points,
        forall|i: int| 0 <= i < points@.len() ==> b.cells@[i] is None,
        b.dirs@ =~= seq![
            Point { x: 0i16, y: -1i16 },
            Point { x: 0i16, y: 1i16 },
            Point { x: -1i16, y: 0i16 },
            Point { x: 1i16, y: 0i16 },
        ],
{
    let mut dirs: Vec<Point> = Vec::new();
    dirs.push(Point { x: 0, y: -1 });
    dirs.push(Point { x: 0, y: 1 });
    dirs.push(Point { x: -1, y: 0 });
    dirs.push(Point { x: 1, y: 0 });
    Board::new(points, dirs)
}

/// In a duplicate-free sequence, the index found for an element is the place
/// it was seen at.
pub proof fn lemma_index_of_unique(s: Seq<Point>, i: int)
    requires
        s.no_duplicates(),
        0 <= i < s.len(),
    ensures
        s.contains(s[i]),
        s.index_of(s[i]) == i,
{
    assert(s.contains(s[i]));
    let j = s.index_of(s[i]);
    assert(0 <= j < s.len() && s[j] == s[i]) by {
        assert(exists|k: int| 0 <= k < s.len() && s[k] == s[i]);
    }
}

/// When a sequence contains `p`, `index_of` really finds it.
pub proof fn lemma_index_of_props(s: Seq<Point>, p: Point)
    requires
        s.contains(p),
    ensures
        0 <= s.index_of(p) < s.len(),
        s[s.index_of(p)] == p,
{
    assert(exists|k: int| 0 <= k < s.len() && s[k] == p);
}

/// Extending the handled prefix of a removal or placement list by the
/// element found at domain index `idx` marks exactly that one more index.
proof fn lemma_hits_take_step(all: Seq<Point>, eps: Seq<Point>, k: int, idx: int)
    requires
        all.no_duplicates(),
        0 <= k < eps.len(),
        0 <= idx < all.len(),
        all[idx] == eps[k],
    ensures
        forall|i: int|
            0 <= i < all.len() ==> #[trigger] hits(all, eps.take(k + 1), i) == (i == idx || hits(
                all,
                eps.take(k),
                i,
            )),
{
    let t1 = eps.take(k + 1);
    let t0 = eps.take(k);
    assert(t1 =~= t0.push(eps[k]));
    assert forall|i: int| 0 <= i < all.len() implies #[trigger] hits(all, t1, i) == (i == idx
        || hits(all, t0, i)) by {
        if i == idx {
            assert(t1[k] == eps[k]);
            assert(all[i] == t1[k]);
            assert(hits(all, t1, i));
        }
        if hits(all, t0, i) {
            let j = choose|j: int| 0 <= j < t0.len() && all[i] == #[trigger] t0[j];
            assert(t1[j] == t0[j]);
            assert(hits(all, t1, i));
        }
        if hits(all, t1, i) && i != idx {
            let j = choose|j: int| 0 <= j < t1.len() && all[i] == #[trigger] t1[j];
            if j == k {
                assert(all[i] == all[idx]);
                assert(false);
            } else {
                assert(t0[j] == t1[j]);
                assert(hits(all, t0, i));
            }
        }
    }
}

/// The reachable-count law: `reachable` returns exactly the component size
/// capped at the limit, so for one board and start, a result under a larger
/// limit is never smaller than one under a smaller limit, and neither ever
/// exceeds the true component size. `r1` and `r2` stand for the results of
/// two calls whose contracts gave the facts required here.
pub proof fn lemma_reachable_monotone(b: Board, p: Point, r1: nat, l1: nat, r2: nat, l2: nat)
    requires
        l1 <= l2,
        r1 <= l1,
        r1 <= b.component_count(p),
        r1 == l1 || r1 == b.component_count(p),
        r2 <= l2,
        r2 <= b.component_count(p),
        r2 == l2 || r2 == b.component_count(p),
    ensures
        r1 <= r2,
        r2 <= b.component_count(p),
{
}

/// The fill/unfill round trip on boards: when `b1` came from a successful
/// placement on `b0` (as `fill`'s contract states) and `b2` from removing
/// that placement's returned positions (as `unfill`'s contract states),
/// every cell of `b2` reads as it did on `b0`; in particular the unfilled
/// cells are the same set again.
pub proof fn lemma_board_round_trip(
    b0: Board,
    b1: Board,
    b2: Board,
    ps: Seq<Point>,
    anchor: Point,
    marker: Seq<char>,
    eps: Seq<Point>,
)
    requires
        b0.inv(),
        placement_ok(b0.all@, b0.cells_view(), ps, anchor),
        eps.len() == ps.len(),
        forall|j: int| 0 <= j < ps.len() ==> pt_at(#[trigger] eps[j], translated(ps[j], anchor)),
        b1.all@ == b0.all@,
        b1.cells_view() == after_fill(b0.all@, b0.cells_view(), ps, anchor, marker),
        b2.all@ == b1.all@,
        b2.cells_view() == after_unfill(b1.all@, b1.cells_view(), eps),
    ensures
        b2.cells_view() == b0.cells_view(),
        forall|p: Point| b2.is_unfilled(p) == b0.is_unfilled(p),
{
    lemma_fill_unfill_round_trip(b0.all@, b0.cells_view(), ps, anchor, marker, eps);
    assert forall|p: Point| b2.is_unfilled(p) == b0.is_unfilled(p) by {
        b0.lemma_open_at_point(p);
        b2.lemma_open_at_point(p);
        assert(open_cell(b2.all@, b2.cells_view(), p) == open_cell(b0.all@, b0.cells_view(), p));
    }
}

/// The point at the translated coordinates, for a translation that stays
/// in range.
pub open spec fn translated_pt(p: Point, off: Point) -> Point {
    Point { x: (p.x + off.x) as i16, y: (p.y + off.y) as i16 }
}

/// Every offset translated by the anchor, as points.
pub open spec fn translated_pts(ps: Seq<Point>, off: Point) -> Seq<Point> {
    ps.map_values(|p: Point| translated_pt(p, off))
}

/// `cv` arises from `cv0` by the successful placements in `steps` — each an
/// (offsets, anchor, marker) triple — applied in order, each admissible at
/// its turn.
pub open spec fn fill_chain(
    all: Seq<Point>,
    cv0: Seq<Option<Seq<char>>>,
    steps: Seq<(Seq<Point>, Point, Seq<char>)>,
    cv: Seq<Option<Seq<char>>>,
) -> bool
    decreases steps.len(),
{
    if steps.len() == 0 {
        cv == cv0
    } else {
        exists|cv1: Seq<Option<Seq<char>>>|
            #![trigger placement_ok(all, cv1, steps.last().0, steps.last().1)]
            {
                &&& fill_chain(all, cv0, steps.drop_last(), cv1)
                &&& placement_ok(all, cv1, steps.last().0, steps.last().1)
                &&& cv == after_fill(all, cv1, steps.last().0, steps.last().1, steps.last().2)
            }
    }
}

/// The steps' placements removed again, newest first.
pub open spec fn unfill_chain(
    all: Seq<Point>,
    cv: Seq<Option<Seq<char>>>,
    steps: Seq<(Seq<Point>, Point, Seq<char>)>,
) -> Seq<Option<Seq<char>>>
    decreases steps.len(),
{
    if steps.len() == 0 {
        cv
    } else {
        unfill_chain(
            all,
            after_unfill(all, cv, translated_pts(steps.last().0, steps.last().1)),
            steps.drop_last(),
        )
    }
}

/// A placement chain never changes the number of cells.
proof fn lemma_fill_chain_len(
    all: Seq<Point>,
    cv0: Seq<Option<Seq<char>>>,
    steps: Seq<(Seq<Point>, Point, Seq<char>)>,
    cv: Seq<Option<Seq<char>>>,
)
    requires
        fill_chain(all, cv0, steps, cv),
    ensures
        cv.len() == cv0.len(),
    decreases steps.len(),
{
    if steps.len() > 0 {
        let cv1 = choose|cv1: Seq<Option<Seq<char>>>|
            #![trigger placement_ok(all, cv1, steps.last().0, steps.last().1)]
            {
                &&& fill_chain(all, cv0, steps.drop_last(), cv1)
                &&& placement_ok(all, cv1, steps.last().0, steps.last().1)
                &&& cv == after_fill(all, cv1, steps.last().0, steps.last().1, steps.last().2)
            };
        lemma_fill_chain_len(all, cv0, steps.drop_last(), cv1);
    }
}

/// The sequence round trip: any chain of successful placements, undone
/// newest-first through their translated cells, restores every cell of the
/// starting board — and with it the unfilled set.
pub proof fn lemma_fill_sequence_round_trip(
    all: Seq<Point>,
    cv0: Seq<Option<Seq<char>>>,
    steps: Seq<(Seq<Point>, Point, Seq<char>)>,
    cv: Seq<Option<Seq<char>>>,
)
    requires
        all.no_duplicates(),
        cv0.len() == all.len(),
        fill_chain(all, cv0, steps, cv),
    ensures
        unfill_chain(all, cv, steps) == cv0,
    decreases steps.len(),
{
    if steps.len() > 0 {
        let ps = steps.last().0;
        let anchor = steps.last().1;
        let marker = steps.last().2;
        let cv1 = choose|cv1: Seq<Option<Seq<char>>>|
            #![trigger placement_ok(all, cv1, steps.last().0, steps.last().1)]
            {
                &&& fill_chain(all, cv0, steps.drop_last(), cv1)
                &&& placement_ok(all, cv1, steps.last().0, steps.last().1)
                &&& cv == after_fill(all, cv1, steps.last().0, steps.last().1, steps.last().2)
            };
        let eps = translated_pts(ps, anchor);
        assert forall|j: int| 0 <= j < ps.len() implies pt_at(
            #[trigger] eps[j],
            translated(ps[j], anchor),
        ) by {
            assert(open_at(all, cv1, translated(ps[j], anchor)));
            let i = choose|i: int|
                0 <= i < all.len() && pt_at(#[trigger] all[i], translated(ps[j], anchor))
                    && cv1[i] is None;
            assert(eps[j] == translated_pt(ps[j], anchor));
        }
        lemma_fill_chain_len(all, cv0, steps.drop_last(), cv1);
        lemma_fill_unfill_round_trip(all, cv1, ps, anchor, marker, eps);
        lemma_fill_sequence_round_trip(all, cv0, steps.drop_last(), cv1);
        assert(after_unfill(all, cv, eps) == cv1);
    }
}

/// Undoing a placement restores every cell: removing exactly the positions a
/// successful placement covered yields the cell contents from before it.
pub proof fn lemma_fill_unfill_round_trip(
    all: Seq<Point>,
    cv: Seq<Option<Seq<char>>>,
    ps: Seq<Point>,
    anchor: Point,
    marker: Seq<char>,
    eps: Seq<Point>,
)
    requires
        all.no_duplicates(),
        cv.len() == all.len(),
        placement_ok(all, cv, ps, anchor),
        eps.len() == ps.len(),
        forall|j: int| 0 <= j < ps.len() ==> pt_at(#[trigger] eps[j], translated(ps[j], anchor)),
    ensures
        after_unfill(all, after_fill(all, cv, ps, anchor, marker), eps) == cv,
{
    let cv1 = after_fill(all, cv, ps, anchor, marker);
    let cv2 = after_unfill(all, cv1, eps);
    assert forall|i: int| 0 <= i < cv.len() implies cv2[i] == cv[i] by {
        if hits(all, eps, i) {
            let j = choose|j: int| 0 <= j < eps.len() && all[i] == #[trigger] eps[j];
            assert(pt_at(eps[j], translated(ps[j], anchor)));
            assert(open_at(all, cv, translated(ps[j], anchor)));
            let i2 = choose|i2: int|
                0 <= i2 < all.len() && pt_at(#[trigger] all[i2], translated(ps[j], anchor))
                    && cv[i2] is None;
            assert(all[i2] == all[i]);
            assert(i2 == i);
            assert(cv[i] is None);
            assert(cv2[i] is None);
        } else {
            assert(!covers(all, ps, anchor, i)) by {
                if covers(all, ps, anchor, i) {
                    let j = choose|j: int|
                        0 <= j < ps.len() && pt_at(all[i], translated(#[trigger] ps[j], anchor));
                    assert(pt_at(eps[j], translated(ps[j], anchor)));
                    assert(all[i] == eps[j]);
                    assert(hits(all, eps, i));
                }
            }
            assert(cv2[i] == cv1[i]);
            assert(cv1[i] == cv[i]);
        }
    }
    assert(cv2 =~= cv);
}

} // verus!
