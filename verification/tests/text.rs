use polytile::board::make_point_board;
use polytile::geometry::Point;
use polytile::geometry::Shape;
use polytile::geometry::ShapeAttrs;
use polytile::geometry::variants;
use polytile::geometry::VisualShape;
use polytile::stringify::bounds;
use polytile::stringify::convert_to_labeled_points;
use polytile::stringify::convert_to_points;
use polytile::stringify::convert_to_shape;
use polytile::stringify::convert_to_strings;

fn pt(x: i16, y: i16) -> Point {
    Point { x, y }
}

#[test]
fn convert_to_points_reads_marked_cells() {
    let drawing = vec!["**".to_string(), " *".to_string()];
    let ps = convert_to_points(&drawing, " ");
    assert_eq!(ps, vec![pt(0, 0), pt(1, 0), pt(1, 1)]);
}

#[test]
fn convert_to_points_with_empty_blank_takes_every_cell() {
    let drawing = vec!["a b".to_string()];
    let ps = convert_to_points(&drawing, "");
    assert_eq!(ps, vec![pt(0, 0), pt(1, 0), pt(2, 0)]);
}

#[test]
fn bounds_finds_the_extremes() {
    let ps = vec![pt(2, -1), pt(-3, 4), pt(0, 0)];
    let (lo, hi) = bounds(&ps);
    assert_eq!(lo, pt(-3, -1));
    assert_eq!(hi, pt(2, 4));
}

#[test]
fn bounds_of_nothing_is_the_inverted_box() {
    let (lo, hi) = bounds(&vec![]);
    assert_eq!(lo, pt(i16::MAX, i16::MAX));
    assert_eq!(hi, pt(i16::MIN, i16::MIN));
}

#[test]
fn convert_to_labeled_points_cuts_fields_and_trims() {
    let grid = vec!["Jan Feb ".to_string(), "  1   2 ".to_string()];
    let lps = convert_to_labeled_points(&grid, 4);
    let got: Vec<(String, Point)> = lps.iter().map(|lp| (lp.label.clone(), lp.point)).collect();
    assert_eq!(
        got,
        vec![
            ("Jan".to_string(), pt(0, 0)),
            ("Feb".to_string(), pt(1, 0)),
            ("1".to_string(), pt(0, 1)),
            ("2".to_string(), pt(1, 1)),
        ]
    );
}

#[test]
fn convert_to_labeled_points_skips_blank_fields() {
    let grid = vec!["  a    ".to_string()];
    let lps = convert_to_labeled_points(&grid, 3);
    assert_eq!(lps.len(), 1);
    assert_eq!(lps[0].label, "a".to_string());
    assert_eq!(lps[0].point, pt(0, 0));
}

#[test]
fn convert_to_labeled_points_trims_inner_fields_only_at_the_edges() {
    let grid = vec!["a b    ".to_string()];
    let lps = convert_to_labeled_points(&grid, 5);
    assert_eq!(lps.len(), 1);
    assert_eq!(lps[0].label, "a b".to_string());
}

#[test]
fn convert_to_strings_renders_the_bounding_box() {
    let ps = vec![pt(0, 0), pt(1, 0), pt(0, 1)];
    let rows = convert_to_strings(&ps, |_p| '*');
    assert_eq!(rows, vec!["**".to_string(), "* ".to_string()]);
}

#[test]
fn convert_to_strings_uses_the_colouring_function() {
    let ps = vec![pt(0, 0), pt(1, 1)];
    let rows = convert_to_strings(&ps, |p| if p.x == 0 { 'a' } else { 'b' });
    assert_eq!(rows, vec!["a ".to_string(), " b".to_string()]);
}

#[test]
fn convert_to_strings_is_offset_independent() {
    let ps = vec![pt(10, 10), pt(11, 10)];
    let rows = convert_to_strings(&ps, |_p| '#');
    assert_eq!(rows, vec!["##".to_string()]);
}

#[test]
fn variants_counts_flips_times_rotations() {
    let l = Shape {
        points: vec![pt(0, 0), pt(1, 0), pt(0, 1)],
        attrs: ShapeAttrs { chiral: false, rotations: 0 },
    };
    assert_eq!(variants(&l).len(), 1);
    let l2 = Shape { attrs: ShapeAttrs { chiral: true, rotations: 3 }, ..l.clone() };
    assert_eq!(variants(&l2).len(), 8);
    let l3 = Shape { attrs: ShapeAttrs { chiral: false, rotations: 1 }, ..l };
    assert_eq!(variants(&l3).len(), 2);
}

#[test]
fn variants_apply_the_rotation_formulas() {
    let l = Shape {
        points: vec![pt(0, 0), pt(1, 0), pt(0, 1)],
        attrs: ShapeAttrs { chiral: false, rotations: 3 },
    };
    let vs = variants(&l);
    assert_eq!(vs[0], vec![pt(0, 0), pt(1, 0), pt(0, 1)]);
    assert_eq!(vs[1], vec![pt(0, 0), pt(0, 1), pt(-1, 0)]);
    assert_eq!(vs[2], vec![pt(0, 0), pt(-1, 0), pt(0, -1)]);
    assert_eq!(vs[3], vec![pt(0, 0), pt(0, -1), pt(1, 0)]);
}

#[test]
fn variants_mirror_then_rotate_for_chiral_shapes() {
    let s = Shape {
        points: vec![pt(0, 0), pt(1, 0), pt(0, 1)],
        attrs: ShapeAttrs { chiral: true, rotations: 1 },
    };
    let vs = variants(&s);
    assert_eq!(vs.len(), 4);
    assert_eq!(vs[0], vec![pt(0, 0), pt(1, 0), pt(0, 1)]);
    assert_eq!(vs[1], vec![pt(0, 0), pt(0, 1), pt(-1, 0)]);
    // The mirrored copy negates x, then runs through the same rotations.
    assert_eq!(vs[2], vec![pt(0, 0), pt(-1, 0), pt(0, 1)]);
    assert_eq!(vs[3], vec![pt(0, 0), pt(0, -1), pt(-1, 0)]);
}

#[test]
fn convert_to_labeled_points_ignores_a_short_line() {
    let grid = vec!["ab".to_string()];
    let lps = convert_to_labeled_points(&grid, 4);
    assert!(lps.is_empty());
}

#[test]
fn board_markers_render_through_the_colouring_function() {
    let mut b = make_point_board(vec![pt(0, 0), pt(1, 0), pt(0, 1), pt(1, 1)]);
    b.fill(&vec![pt(0, 0), pt(1, 0)], pt(0, 0), "A").unwrap();
    let rows = convert_to_strings(&b.all, |p| match b.at(&p) {
        Some(m) => m.chars().next().unwrap_or(' '),
        None => '-',
    });
    assert_eq!(rows, vec!["AA".to_string(), "--".to_string()]);
}

#[test]
fn convert_to_shape_normalizes_to_the_first_drawn_cell() {
    // The drawing starts away from the origin; the first drawn cell becomes
    // (0,0) and every other point is its offset from there, so placing the
    // shape at a boundary anchor has no off-by-offset error.
    let vs = VisualShape {
        points: vec![" **".to_string(), "  *".to_string()],
        attrs: ShapeAttrs { chiral: false, rotations: 0 },
    };
    let s = convert_to_shape(&vs);
    assert_eq!(s.points, vec![pt(0, 0), pt(1, 0), pt(1, 1)]);
    assert!(!s.attrs.chiral);
    assert_eq!(s.attrs.rotations, 0);
}

#[test]
fn convert_to_shape_keeps_attributes() {
    let vs = VisualShape {
        points: vec!["***".to_string(), "*".to_string()],
        attrs: ShapeAttrs { chiral: true, rotations: 3 },
    };
    let s = convert_to_shape(&vs);
    assert_eq!(s.points, vec![pt(0, 0), pt(1, 0), pt(2, 0), pt(0, 1)]);
    assert!(s.attrs.chiral);
    assert_eq!(s.attrs.rotations, 3);
}

#[test]
fn symmetric_shape_variants_are_not_deduplicated() {
    // A 1x2 bar is symmetric under 180 degrees: its 0- and 180-degree
    // variants cover the same cells, yet both are kept.
    let bar = Shape {
        points: vec![pt(0, 0), pt(1, 0)],
        attrs: ShapeAttrs { chiral: false, rotations: 3 },
    };
    let vs = variants(&bar);
    assert_eq!(vs.len(), 4);
    assert_eq!(vs[0], vec![pt(0, 0), pt(1, 0)]);
    assert_eq!(vs[2], vec![pt(0, 0), pt(-1, 0)]);
}
