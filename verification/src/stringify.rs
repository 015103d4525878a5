//! Conversions between ASCII-art text and coordinate sets: reading a drawn
//! shape into points, reading a labeled grid into labeled points, computing
//! the bounding box of a point set, and rendering a point set back to rows
//! of text through a caller-supplied colouring function.

use crate::geometry::LabeledPoint;
use crate::geometry::Point;
use crate::geometry::Shape;
use crate::geometry::VisualShape;
use vstd::prelude::*;

verus! {

broadcast use vstd::seq_lib::group_seq_properties;

/// `blank` is exactly the one-character string holding `c`: the test under
/// which a drawn cell counts as empty.
pub open spec fn is_blank(c: char, blank: Seq<char>) -> bool {
    blank.len() == 1 && blank[0] == c
}

/// Row `y`, column `x` of the drawing holds a non-blank character.
pub open spec fn cell_marked(lines: Seq<String>, blank: Seq<char>, x: int, y: int) -> bool {
    &&& 0 <= y < lines.len()
    &&& 0 <= x < lines[y]@.len()
    &&& !is_blank(lines[y]@[x], blank)
}

/// `a` comes strictly before `b` in row-major order: on an earlier row, or
/// further left on the same row.
pub open spec fn row_major_lt(a: Point, b: Point) -> bool {
    a.y < b.y || (a.y == b.y && a.x < b.x)
}

/// Relies on `String`'s `FromIterator` over characters: collecting yields
/// the string of exactly those characters, in order.
#[verifier::external_body]
fn chars_to_string(cs: &Vec<char>) -> (s: String)
    ensures
        s@ == cs@,
{
    cs.iter().collect()
}

/// Read a drawn shape: every non-blank character becomes the point of its
/// column and row. Points come out row by row, left to right, so the list
/// is duplicate-free.
pub fn convert_to_points(shape: &Vec<String>, blank: &str) -> (r: Vec<Point>)
    requires
        shape@.len() <= i16::MAX,
        forall|y: int| 0 <= y < shape@.len() ==> (#[trigger] shape@[y])@.len() <= i16::MAX,
    ensures
        forall|k: int|
            0 <= k < r@.len() ==> cell_marked(
                shape@,
                blank@,
                (#[trigger] r@[k]).x as int,
                r@[k].y as int,
            ),
        forall|x: int, y: int|
            cell_marked(shape@, blank@, x, y) ==> r@.contains(
                Point { x: x as i16, y: y as i16 },
            ),
        forall|k1: int, k2: int|
            0 <= k1 < k2 < r@.len() ==> row_major_lt(#[trigger] r@[k1], #[trigger] r@[k2]),
        r@.no_duplicates(),
{
    let blank_len = blank.unicode_len();
    let blank_char: char = if blank_len == 1 {
        blank.get_char(0)
    } else {
        ' '
    };
    let mut r: Vec<Point> = Vec::new();
    let mut y: usize = 0;
    while y < shape.len()
        invariant
            shape@.len() <= i16::MAX,
            forall|yy: int| 0 <= yy < shape@.len() ==> (#[trigger] shape@[yy])@.len() <= i16::MAX,
            blank_len == blank@.len(),
            blank@.len() == 1 ==> blank_char == blank@[0],
            y <= shape@.len(),
            forall|k: int|
                0 <= k < r@.len() ==> cell_marked(
                    shape@,
                    blank@,
                    (#[trigger] r@[k]).x as int,
                    r@[k].y as int,
                ) && r@[k].y < y,
            forall|xx: int, yy: int|
                0 <= yy < y && cell_marked(shape@, blank@, xx, yy) ==> r@.contains(
                    Point { x: xx as i16, y: yy as i16 },
                ),
            forall|k1: int, k2: int|
                0 <= k1 < k2 < r@.len() ==> row_major_lt(#[trigger] r@[k1], #[trigger] r@[k2]),
            r@.no_duplicates(),
        decreases shape@.len() - y,
    {
        let line = &shape[y];
        let m = line.as_str().unicode_len();
        let mut x: usize = 0;
        while x < m
            invariant
                shape@.len() <= i16::MAX,
                forall|yy: int| 0 <= yy < shape@.len() ==> (#[trigger] shape@[yy])@.len()
                    <= i16::MAX,
                blank_len == blank@.len(),
                blank@.len() == 1 ==> blank_char == blank@[0],
                y < shape@.len(),
                line == shape@[y as int],
                m == line@.len(),
                x <= m,
                forall|k: int|
                    0 <= k < r@.len() ==> cell_marked(
                        shape@,
                        blank@,
                        (#[trigger] r@[k]).x as int,
                        r@[k].y as int,
                    ) && (r@[k].y < y || (r@[k].y == y && r@[k].x < x)),
                forall|xx: int, yy: int|
                    0 <= yy < y && cell_marked(shape@, blank@, xx, yy) ==> r@.contains(
                        Point { x: xx as i16, y: yy as i16 },
                    ),
                forall|xx: int|
                    0 <= xx < x && cell_marked(shape@, blank@, xx, y as int) ==> r@.contains(
                        Point { x: xx as i16, y: y as i16 },
                    ),
                forall|k1: int, k2: int|
                    0 <= k1 < k2 < r@.len() ==> row_major_lt(#[trigger] r@[k1], #[trigger] r@[k2]),
                r@.no_duplicates(),
            decreases m - x,
        {
            let c = line.as_str().get_char(x);
            let marked = !(blank_len == 1 && c == blank_char);
            proof {
                assert(marked == !is_blank(shape@[y as int]@[x as int], blank@));
            }
            if marked {
                let p = Point { x: x as i16, y: y as i16 };
                proof {
                    assert(forall|k: int| 0 <= k < r@.len() ==> r@[k] != p);
                    assert(!r@.contains(p));
                }
                r.push(p);
            }
            x = x + 1;
        }
        y = y + 1;
    }
    r
}

/// The leading run of spaces removed.
pub open spec fn trim_front(s: Seq<char>) -> Seq<char>
    decreases s.len(),
{
    if s.len() == 0 {
        s
    } else if s[0] == ' ' {
        trim_front(s.drop_first())
    } else {
        s
    }
}

/// The trailing run of spaces removed.
pub open spec fn trim_back(s: Seq<char>) -> Seq<char>
    decreases s.len(),
{
    if s.len() == 0 {
        s
    } else if s.last() == ' ' {
        trim_back(s.drop_last())
    } else {
        s
    }
}

/// Both surrounding runs of spaces removed.
pub open spec fn trimmed(s: Seq<char>) -> Seq<char> {
    trim_back(trim_front(s))
}

/// A run of leading spaces up to `a` drops to the suffix from `a`.
proof fn lemma_trim_front_at(s: Seq<char>, a: int)
    requires
        0 <= a <= s.len(),
        forall|i: int| 0 <= i < a ==> s[i] == ' ',
        a < s.len() ==> s[a] != ' ',
    ensures
        trim_front(s) == s.subrange(a, s.len() as int),
    decreases a,
{
    if a == 0 {
        if s.len() == 0 {
            assert(trim_front(s) =~= s.subrange(0, s.len() as int));
        } else {
            assert(s[0] != ' ');
            assert(trim_front(s) =~= s.subrange(0, s.len() as int));
        }
    } else {
        assert(s[0] == ' ');
        let t = s.drop_first();
        assert(forall|i: int| 0 <= i < a - 1 ==> t[i] == s[i + 1]);
        lemma_trim_front_at(t, a - 1);
        assert(t.subrange(a - 1, t.len() as int) =~= s.subrange(a, s.len() as int));
    }
}

/// A run of trailing spaces from `b` on drops to the prefix up to `b`.
proof fn lemma_trim_back_at(s: Seq<char>, b: int)
    requires
        0 <= b <= s.len(),
        forall|i: int| b <= i < s.len() ==> s[i] == ' ',
        b > 0 ==> s[b - 1] != ' ',
    ensures
        trim_back(s) == s.subrange(0, b),
    decreases s.len() - b,
{
    if b == s.len() {
        if s.len() == 0 {
            assert(trim_back(s) =~= s.subrange(0, b));
        } else if s.last() == ' ' {
            assert(s[b - 1] != ' ' && s[s.len() - 1] == ' ');
            assert(false);
        } else {
            assert(trim_back(s) =~= s.subrange(0, b));
        }
    } else {
        assert(s.last() == ' ');
        let t = s.drop_last();
        lemma_trim_back_at(t, b);
        assert(t.subrange(0, b) =~= s.subrange(0, b));
    }
}

/// Remove leading and trailing spaces; the result is exactly `trimmed` of
/// the input.
fn trim_spaces(s: &str) -> (r: String)
    ensures
        r@ == trimmed(s@),
{
    let n = s.unicode_len();
    let mut a: usize = 0;
    while a < n && s.get_char(a) == ' '
        invariant
            n == s@.len(),
            a <= n,
            forall|i: int| 0 <= i < a ==> s@[i] == ' ',
        decreases n - a,
    {
        a = a + 1;
    }
    proof {
        lemma_trim_front_at(s@, a as int);
    }
    let ghost tf = trim_front(s@);
    if a == n {
        proof {
            assert(tf =~= Seq::<char>::empty());
            assert(trim_back(tf) =~= Seq::<char>::empty());
        }
        return String::new();
    }
    let mut b: usize = n;
    while b > a && s.get_char(b - 1) == ' '
        invariant
            n == s@.len(),
            a < n,
            a <= b <= n,
            forall|i: int| b <= i < n ==> s@[i] == ' ',
        decreases b,
    {
        b = b - 1;
    }
    proof {
        assert(s@[a as int] != ' ');
        assert(b > a);
        assert(tf == s@.subrange(a as int, n as int));
        assert(forall|i: int| b - a <= i < tf.len() ==> tf[i] == s@[i + a] && tf[i] == ' ');
        assert(tf[b - a - 1] == s@[b - 1]);
        lemma_trim_back_at(tf, b - a);
        assert(trim_back(tf) =~= s@.subrange(a as int, b as int));
    }
    let sub = s.substring_char(a, b);
    sub.to_owned()
}

/// The least x coordinate in the set, folded from the extreme.
pub open spec fn lo_x(ps: Seq<Point>) -> int
    decreases ps.len(),
{
    if ps.len() == 0 {
        i16::MAX as int
    } else {
        let rest = lo_x(ps.drop_last());
        if ps.last().x < rest {
            ps.last().x as int
        } else {
            rest
        }
    }
}

/// The greatest x coordinate in the set, folded from the extreme.
pub open spec fn hi_x(ps: Seq<Point>) -> int
    decreases ps.len(),
{
    if ps.len() == 0 {
        i16::MIN as int
    } else {
        let rest = hi_x(ps.drop_last());
        if ps.last().x > rest {
            ps.last().x as int
        } else {
            rest
        }
    }
}

/// The least y coordinate in the set, folded from the extreme.
pub open spec fn lo_y(ps: Seq<Point>) -> int
    decreases ps.len(),
{
    if ps.len() == 0 {
        i16::MAX as int
    } else {
        let rest = lo_y(ps.drop_last());
        if ps.last().y < rest {
            ps.last().y as int
        } else {
            rest
        }
    }
}

/// The greatest y coordinate in the set, folded from the extreme.
pub open spec fn hi_y(ps: Seq<Point>) -> int
    decreases ps.len(),
{
    if ps.len() == 0 {
        i16::MIN as int
    } else {
        let rest = hi_y(ps.drop_last());
        if ps.last().y > rest {
            ps.last().y as int
        } else {
            rest
        }
    }
}

/// Some listed point sits at integer coordinates `(cx, cy)`.
pub open spec fn occupied(ps: Seq<Point>, cx: int, cy: int) -> bool {
    exists|k: int| 0 <= k < ps.len() && (#[trigger] ps[k]).x == cx && ps[k].y == cy
}

/// `k` is the latest listed point at `(cx, cy)`: it sits there and nothing
/// after it does.
pub open spec fn latest_at(ps: Seq<Point>, cx: int, cy: int, k: int) -> bool {
    &&& 0 <= k < ps.len()
    &&& ps[k].x == cx
    &&& ps[k].y == cy
    &&& forall|k2: int| k < k2 < ps.len() ==> !((#[trigger] ps[k2]).x == cx && ps[k2].y == cy)
}

/// What a rendered cell at integer coordinates `(cx, cy)` holds: the
/// colouring function's character for the latest listed point there, or a
/// space when no listed point sits there.
pub open spec fn rendered_cell<F: Fn(Point) -> char>(
    ps: Seq<Point>,
    to_char: F,
    cx: int,
    cy: int,
    ch: char,
) -> bool {
    &&& (occupied(ps, cx, cy) ==> exists|k: int|
        #[trigger] latest_at(ps, cx, cy, k) && call_ensures(to_char, (ps[k],), ch))
    &&& (!occupied(ps, cx, cy) ==> ch == ' ')
}

/// The bounding box of a point set: the least and greatest coordinates in
/// each axis, as the lower-left and upper-right corners. An empty set gives
/// the inverted extreme box.
pub fn bounds(ps: &Vec<Point>) -> (r: (Point, Point))
    ensures
        forall|k: int|
            0 <= k < ps@.len() ==> r.0.x <= (#[trigger] ps@[k]).x && r.0.y <= ps@[k].y && ps@[k].x
                <= r.1.x && ps@[k].y <= r.1.y,
        ps@.len() == 0 ==> r.0 == (Point { x: i16::MAX, y: i16::MAX }) && r.1 == (Point {
            x: i16::MIN,
            y: i16::MIN,
        }),
        ps@.len() > 0 ==> (exists|k: int| 0 <= k < ps@.len() && (#[trigger] ps@[k]).x == r.0.x)
            && (exists|k: int| 0 <= k < ps@.len() && (#[trigger] ps@[k]).y == r.0.y) && (exists|
            k: int,
        | 0 <= k < ps@.len() && (#[trigger] ps@[k]).x == r.1.x) && (exists|k: int|
            0 <= k < ps@.len() && (#[trigger] ps@[k]).y == r.1.y),
        r.0.x == lo_x(ps@),
        r.0.y == lo_y(ps@),
        r.1.x == hi_x(ps@),
        r.1.y == hi_y(ps@),
{
    let mut min_x: i16 = i16::MAX;
    let mut max_x: i16 = i16::MIN;
    let mut min_y: i16 = i16::MAX;
    let mut max_y: i16 = i16::MIN;
    let mut k: usize = 0;
    while k < ps.len()
        invariant
            k <= ps@.len(),
            forall|j: int|
                0 <= j < k ==> min_x <= (#[trigger] ps@[j]).x && min_y <= ps@[j].y && ps@[j].x
                    <= max_x && ps@[j].y <= max_y,
            k == 0 ==> min_x == i16::MAX && min_y == i16::MAX && max_x == i16::MIN && max_y
                == i16::MIN,
            k > 0 ==> (exists|j: int| 0 <= j < k && (#[trigger] ps@[j]).x == min_x) && (exists|
                j: int,
            | 0 <= j < k && (#[trigger] ps@[j]).y == min_y) && (exists|j: int|
                0 <= j < k && (#[trigger] ps@[j]).x == max_x) && (exists|j: int|
                0 <= j < k && (#[trigger] ps@[j]).y == max_y),
            min_x == lo_x(ps@.take(k as int)),
            min_y == lo_y(ps@.take(k as int)),
            max_x == hi_x(ps@.take(k as int)),
            max_y == hi_y(ps@.take(k as int)),
        decreases ps@.len() - k,
    {
        proof {
            let t1 = ps@.take(k + 1);
            assert(t1.drop_last() =~= ps@.take(k as int));
            assert(t1.last() == ps@[k as int]);
        }
        let p = ps[k];
        if p.x < min_x || k == 0 {
            min_x = p.x;
        }
        if p.x > max_x || k == 0 {
            max_x = p.x;
        }
        if p.y < min_y || k == 0 {
            min_y = p.y;
        }
        if p.y > max_y || k == 0 {
            max_y = p.y;
        }
        k = k + 1;
    }
    proof {
        assert(ps@.take(ps@.len() as int) =~= ps@);
    }
    (Point { x: min_x, y: min_y }, Point { x: max_x, y: max_y })
}

/// Render a point set to text rows: one row per grid line of the bounding
/// box and one character per cell, the colouring function's character of
/// the latest listed point where one sits, a space elsewhere.
pub fn convert_to_strings<F: Fn(Point) -> char>(ps: &Vec<Point>, to_char: F) -> (r: Vec<String>)
    requires
        ps@.len() > 0,
        forall|p: Point| call_requires(to_char, (p,)),
    ensures
        r@.len() == hi_y(ps@) - lo_y(ps@) + 1,
        forall|yy: int| 0 <= yy < r@.len() ==> (#[trigger] r@[yy])@.len() == hi_x(ps@) - lo_x(ps@)
            + 1,
        forall|yy: int, xx: int|
            #![trigger r@[yy]@[xx]]
            0 <= yy < r@.len() && 0 <= xx < hi_x(ps@) - lo_x(ps@) + 1 ==> rendered_cell(
                ps@,
                to_char,
                lo_x(ps@) + xx,
                lo_y(ps@) + yy,
                r@[yy]@[xx],
            ),
{
    let (minp, maxp) = bounds(ps);
    proof {
        assert(ps@[0].x >= minp.x && ps@[0].x <= maxp.x);
        assert(ps@[0].y >= minp.y && ps@[0].y <= maxp.y);
    }
    let width: usize = (maxp.x as i32 - minp.x as i32 + 1) as usize;
    let height: usize = (maxp.y as i32 - minp.y as i32 + 1) as usize;
    let mut rows: Vec<String> = Vec::new();
    let mut yy: usize = 0;
    while yy < height
        invariant
            width >= 1,
            height >= 1,
            yy <= height,
            rows@.len() == yy,
            minp.x == lo_x(ps@),
            minp.y == lo_y(ps@),
            width as int == hi_x(ps@) - lo_x(ps@) + 1,
            height as int == hi_y(ps@) - lo_y(ps@) + 1,
            forall|j: int| 0 <= j < yy ==> (#[trigger] rows@[j])@.len() == width,
            forall|j: int, xx2: int|
                #![trigger rows@[j]@[xx2]]
                0 <= j < yy && 0 <= xx2 < width ==> rendered_cell(
                    ps@,
                    to_char,
                    lo_x(ps@) + xx2,
                    lo_y(ps@) + j,
                    rows@[j]@[xx2],
                ),
            forall|p: Point| call_requires(to_char, (p,)),
            minp.y as int + height - 1 <= i16::MAX,
            minp.x as int + width - 1 <= i16::MAX,
        decreases height - yy,
    {
        let mut row: Vec<char> = Vec::new();
        let mut xx: usize = 0;
        while xx < width
            invariant
                width >= 1,
                yy < height,
                xx <= width,
                row@.len() == xx,
                minp.x == lo_x(ps@),
                minp.y == lo_y(ps@),
                forall|xx2: int|
                    #![trigger row@[xx2]]
                    0 <= xx2 < xx ==> rendered_cell(
                        ps@,
                        to_char,
                        lo_x(ps@) + xx2,
                        lo_y(ps@) + yy,
                        row@[xx2],
                    ),
                forall|p: Point| call_requires(to_char, (p,)),
                minp.y as int + yy <= i16::MAX,
                minp.x as int + width - 1 <= i16::MAX,
            decreases width - xx,
        {
            let cx: i16 = ((minp.x as i32) + (xx as i32)) as i16;
            let cy: i16 = ((minp.y as i32) + (yy as i32)) as i16;
            let mut c: char = ' ';
            let mut k: usize = ps.len();
            let mut found = false;
            while k > 0 && !found
                invariant
                    k <= ps@.len(),
                    cx as int == lo_x(ps@) + xx,
                    cy as int == lo_y(ps@) + yy,
                    !found ==> c == ' ' && (forall|k2: int|
                        k <= k2 < ps@.len() ==> !((#[trigger] ps@[k2]).x == cx && ps@[k2].y
                            == cy)),
                    found ==> exists|kk: int|
                        #[trigger] latest_at(ps@, cx as int, cy as int, kk) && call_ensures(
                            to_char,
                            (ps@[kk],),
                            c,
                        ),
                    forall|p: Point| call_requires(to_char, (p,)),
                decreases k + (if found {
                    0int
                } else {
                    1int
                }),
            {
                k = k - 1;
                let p = ps[k];
                if p.x == cx && p.y == cy {
                    c = to_char(p);
                    found = true;
                    proof {
                        assert(latest_at(ps@, cx as int, cy as int, k as int));
                    }
                }
            }
            proof {
                if !found {
                    assert(!occupied(ps@, cx as int, cy as int));
                }
                assert(rendered_cell(ps@, to_char, cx as int, cy as int, c));
            }
            let ghost row0 = row@;
            row.push(c);
            proof {
                assert(row@ == row0.push(c));
                assert(row@[xx as int] == c);
                assert forall|xx2: int|
                    0 <= xx2 < xx + 1 implies rendered_cell(
                    ps@,
                    to_char,
                    lo_x(ps@) + xx2,
                    lo_y(ps@) + yy,
                    row@[xx2],
                ) by {
                    if xx2 < xx {
                        assert(row@[xx2] == row0[xx2]);
                    } else {
                        assert(row@[xx2] == c);
                    }
                }
            }
            xx = xx + 1;
        }
        let rs = chars_to_string(&row);
        let ghost rows0 = rows@;
        rows.push(rs);
        proof {
            assert(rows@ == rows0.push(rs));
            assert(rows@[yy as int]@ == row@);
            assert forall|j: int, xx2: int|
                0 <= j < yy + 1 && 0 <= xx2 < width implies rendered_cell(
                ps@,
                to_char,
                lo_x(ps@) + xx2,
                lo_y(ps@) + j,
                rows@[j]@[xx2],
            ) by {
                if j < yy {
                    assert(rows@[j] == rows0[j]);
                    assert(rows@[j]@[xx2] == rows0[j]@[xx2]);
                } else {
                    assert(rows@[j]@[xx2] == row@[xx2]);
                }
            }
        }
        yy = yy + 1;
    }
    rows
}

/// Read a labeled grid: each row is cut into fields of `width` characters;
/// a field whose space-trimmed text is non-empty yields that text as the
/// label of the point at its field index and row.
pub fn convert_to_labeled_points(shape: &Vec<String>, width: usize) -> (r: Vec<LabeledPoint>)
    requires
        width > 0,
        shape@.len() <= i16::MAX,
        forall|y: int| 0 <= y < shape@.len() ==> (#[trigger] shape@[y])@.len() <= i16::MAX,
    ensures
        forall|k: int|
            0 <= k < r@.len() ==> {
                let lp = #[trigger] r@[k];
                &&& 0 <= lp.point.y < shape@.len()
                &&& 0 <= lp.point.x
                &&& (lp.point.x + 1) * width <= shape@[lp.point.y as int]@.len()
                &&& lp.label@ == trimmed(
                    shape@[lp.point.y as int]@.subrange(
                        lp.point.x * width,
                        (lp.point.x + 1) * width,
                    ),
                )
                &&& lp.label@.len() > 0
            },
        forall|k1: int, k2: int|
            0 <= k1 < k2 < r@.len() ==> row_major_lt(
                (#[trigger] r@[k1]).point,
                (#[trigger] r@[k2]).point,
            ),
        forall|x: int, y: int|
            #![trigger shape@[y]@.subrange(x * width, (x + 1) * width)]
            0 <= y < shape@.len() && 0 <= x && (x + 1) * width <= shape@[y]@.len() && trimmed(
                shape@[y]@.subrange(x * width, (x + 1) * width),
            ).len() > 0 ==> exists|k: int|
                0 <= k < r@.len() && (#[trigger] r@[k]).point == (Point {
                    x: x as i16,
                    y: y as i16,
                }),
{
    let mut r: Vec<LabeledPoint> = Vec::new();
    let mut y: usize = 0;
    while y < shape.len()
        invariant
            width > 0,
            shape@.len() <= i16::MAX,
            forall|yy: int| 0 <= yy < shape@.len() ==> (#[trigger] shape@[yy])@.len() <= i16::MAX,
            y <= shape@.len(),
            forall|k: int|
                0 <= k < r@.len() ==> {
                    let lp = #[trigger] r@[k];
                    &&& 0 <= lp.point.y < y
                    &&& 0 <= lp.point.x
                    &&& (lp.point.x + 1) * width <= shape@[lp.point.y as int]@.len()
                    &&& lp.label@ == trimmed(
                        shape@[lp.point.y as int]@.subrange(
                            lp.point.x * width,
                            (lp.point.x + 1) * width,
                        ),
                    )
                    &&& lp.label@.len() > 0
                },
            forall|k1: int, k2: int|
                0 <= k1 < k2 < r@.len() ==> row_major_lt(
                    (#[trigger] r@[k1]).point,
                    (#[trigger] r@[k2]).point,
                ),
            forall|xx: int, yy: int|
                #![trigger shape@[yy]@.subrange(xx * width, (xx + 1) * width)]
                0 <= yy < y && 0 <= xx && (xx + 1) * width <= shape@[yy]@.len() && trimmed(
                    shape@[yy]@.subrange(xx * width, (xx + 1) * width),
                ).len() > 0 ==> exists|k: int|
                    0 <= k < r@.len() && (#[trigger] r@[k]).point == (Point {
                        x: xx as i16,
                        y: yy as i16,
                    }),
        decreases shape@.len() - y,
    {
        let line = &shape[y];
        let n = line.as_str().unicode_len();
        let row = n / width;
        let mut x: usize = 0;
        while x < row
            invariant
                width > 0,
                shape@.len() <= i16::MAX,
                forall|yy: int| 0 <= yy < shape@.len() ==> (#[trigger] shape@[yy])@.len()
                    <= i16::MAX,
                y < shape@.len(),
                line == shape@[y as int],
                n == line@.len(),
                row == n / width,
                x <= row,
                forall|k: int|
                    0 <= k < r@.len() ==> {
                        let lp = #[trigger] r@[k];
                        &&& 0 <= lp.point.y <= y
                        &&& 0 <= lp.point.x
                        &&& (lp.point.y < y || lp.point.x < x)
                        &&& (lp.point.x + 1) * width <= shape@[lp.point.y as int]@.len()
                        &&& lp.label@ == trimmed(
                            shape@[lp.point.y as int]@.subrange(
                                lp.point.x * width,
                                (lp.point.x + 1) * width,
                            ),
                        )
                        &&& lp.label@.len() > 0
                    },
                forall|k1: int, k2: int|
                    0 <= k1 < k2 < r@.len() ==> row_major_lt(
                        (#[trigger] r@[k1]).point,
                        (#[trigger] r@[k2]).point,
                    ),
                forall|xx: int, yy: int|
                    #![trigger shape@[yy]@.subrange(xx * width, (xx + 1) * width)]
                    0 <= yy < y && 0 <= xx && (xx + 1) * width <= shape@[yy]@.len() && trimmed(
                        shape@[yy]@.subrange(xx * width, (xx + 1) * width),
                    ).len() > 0 ==> exists|k: int|
                        0 <= k < r@.len() && (#[trigger] r@[k]).point == (Point {
                            x: xx as i16,
                            y: yy as i16,
                        }),
                forall|xx: int|
                    #![trigger shape@[y as int]@.subrange(xx * width, (xx + 1) * width)]
                    0 <= xx < x && (xx + 1) * width <= shape@[y as int]@.len() && trimmed(
                        shape@[y as int]@.subrange(xx * width, (xx + 1) * width),
                    ).len() > 0 ==> exists|k: int|
                        0 <= k < r@.len() && (#[trigger] r@[k]).point == (Point {
                            x: xx as i16,
                            y: y as i16,
                        }),
            decreases row - x,
        {
            proof {
                let ni = n as int;
                let wi = width as int;
                let xi = x as int;
                vstd::arithmetic::div_mod::lemma_fundamental_div_mod(ni, wi);
                vstd::arithmetic::div_mod::lemma_mod_bound(ni, wi);
                assert((xi + 1) * wi <= (ni / wi) * wi) by (nonlinear_arith)
                    requires
                        xi + 1 <= ni / wi,
                        wi >= 0,
                ;
                assert((ni / wi) * wi <= ni) by (nonlinear_arith)
                    requires
                        ni == wi * (ni / wi) + ni % wi,
                        ni % wi >= 0,
                ;
                assert(xi + 1 <= (xi + 1) * wi) by (nonlinear_arith)
                    requires
                        wi >= 1,
                        xi >= 0,
                ;
                assert(0 <= xi * wi <= (xi + 1) * wi) by (nonlinear_arith)
                    requires
                        wi >= 0,
                        xi >= 0,
                ;
            }
            let start = x * width;
            let end = (x + 1) * width;
            let chunk = line.as_str().substring_char(start, end);
            let label = trim_spaces(chunk);
            if !label.as_str().is_empty() {
                let point = Point { x: x as i16, y: y as i16 };
                let ghost r0 = r@;
                r.push(LabeledPoint { label, point });
                proof {
                    assert(r@[r@.len() - 1].point == point);
                    assert(forall|k: int| 0 <= k < r0.len() ==> r@[k] == r0[k]);
                }
            }
            x = x + 1;
        }
        proof {
            assert forall|xx: int|
                #![trigger shape@[y as int]@.subrange(xx * width, (xx + 1) * width)]
                0 <= xx && (xx + 1) * width <= shape@[y as int]@.len() && trimmed(
                    shape@[y as int]@.subrange(xx * width, (xx + 1) * width),
                ).len() > 0 implies exists|k: int|
                0 <= k < r@.len() && (#[trigger] r@[k]).point == (Point {
                    x: xx as i16,
                    y: y as i16,
                }) by {
                let ni = n as int;
                let wi = width as int;
                vstd::arithmetic::div_mod::lemma_fundamental_div_mod(ni, wi);
                vstd::arithmetic::div_mod::lemma_mod_bound(ni, wi);
                assert(xx + 1 <= ni / wi) by (nonlinear_arith)
                    requires
                        (xx + 1) * wi <= ni,
                        ni == wi * (ni / wi) + ni % wi,
                        0 <= ni % wi < wi,
                        wi >= 1,
                        xx >= 0,
                ;
                assert(xx < row);
            }
        }
        y = y + 1;
    }
    r
}

/// Read a drawn shape (spaces blank) and normalize it so that its first
/// point is the origin: every drawn cell becomes its row-major point minus
/// the first one, keeping anchors aligned with the first drawn cell. The
/// drawing must contain at least one non-space cell.
pub fn convert_to_shape(vs: &VisualShape) -> (s: Shape)
    requires
        vs.points@.len() <= i16::MAX,
        forall|y: int| 0 <= y < vs.points@.len() ==> (#[trigger] vs.points@[y])@.len() <= i16::MAX,
        exists|x: int, y: int| cell_marked(vs.points@, seq![' '], x, y),
    ensures
        s.attrs == vs.attrs,
        s.points@.len() > 0,
        s.points@[0] == (Point { x: 0i16, y: 0i16 }),
        exists|raw: Seq<Point>|
            #![trigger raw.len()]
            {
                &&& raw.len() == s.points@.len()
                &&& (forall|k: int|
                    0 <= k < raw.len() ==> cell_marked(
                        vs.points@,
                        seq![' '],
                        (#[trigger] raw[k]).x as int,
                        raw[k].y as int,
                    ))
                &&& (forall|x: int, y: int|
                    cell_marked(vs.points@, seq![' '], x, y) ==> raw.contains(
                        Point { x: x as i16, y: y as i16 },
                    ))
                &&& (forall|k1: int, k2: int|
                    0 <= k1 < k2 < raw.len() ==> row_major_lt(
                        #[trigger] raw[k1],
                        #[trigger] raw[k2],
                    ))
                &&& (forall|k: int|
                    0 <= k < raw.len() ==> (#[trigger] s.points@[k]).x == raw[k].x - raw[0].x
                        && s.points@[k].y == raw[k].y - raw[0].y)
            },
{
    proof {
        reveal_strlit(" ");
        assert(" "@ =~= seq![' ']);
    }
    let raw = convert_to_points(&vs.points, " ");
    proof {
        let (x, y) = choose|x: int, y: int| cell_marked(vs.points@, seq![' '], x, y);
        assert(raw@.contains(Point { x: x as i16, y: y as i16 }));
        assert(raw@.len() > 0);
    }
    let first = raw[0];
    let mut pts: Vec<Point> = Vec::new();
    let mut k: usize = 0;
    while k < raw.len()
        invariant
            k <= raw@.len(),
            raw@.len() > 0,
            first == raw@[0],
            pts@.len() == k,
            forall|j: int|
                0 <= j < raw@.len() ==> cell_marked(
                    vs.points@,
                    seq![' '],
                    (#[trigger] raw@[j]).x as int,
                    raw@[j].y as int,
                ),
            forall|j: int|
                0 <= j < k ==> (#[trigger] pts@[j]).x == raw@[j].x - first.x && pts@[j].y
                    == raw@[j].y - first.y,
        decreases raw@.len() - k,
    {
        let p = raw[k];
        proof {
            assert(cell_marked(vs.points@, seq![' '], p.x as int, p.y as int));
            assert(cell_marked(vs.points@, seq![' '], first.x as int, first.y as int));
        }
        pts.push(Point { x: p.x - first.x, y: p.y - first.y });
        k = k + 1;
    }
    Shape { points: pts, attrs: vs.attrs }
}

} // verus!
