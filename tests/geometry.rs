use pcb_routing::astar::{cost_less, octile_distance, AStarModel};
use pcb_routing::trace_path::{
    polyline_length, rebuild_segments, recompose_anchors, Direction, PathLength, TracePath,
    TraceSegment,
};
use pcb_routing::vec2::{is_odd, FixedVec2};

fn p(x: i32, y: i32) -> FixedVec2 {
    FixedVec2::new(x, y)
}

fn model(start: FixedVec2, end: FixedVec2) -> AStarModel {
    AStarModel { width: 5120, height: 5120, start, end, trace_width: 128, trace_clearance: 13 }
}

#[test]
fn opposite_reverses_each_direction() {
    for d in Direction::all_directions() {
        let (dx, dy) = d.to_int_vec2();
        let (ox, oy) = d.opposite().to_int_vec2();
        assert_eq!((ox, oy), (-dx, -dy));
        assert_eq!(d.opposite().opposite(), d);
    }
}

#[test]
fn turns_follow_the_compass() {
    assert_eq!(Direction::Up.left_90_dir(), Direction::Left);
    assert_eq!(Direction::Up.right_90_dir(), Direction::Right);
    assert_eq!(Direction::Up.left_45_dir(), Direction::TopLeft);
    assert_eq!(Direction::Up.right_45_dir(), Direction::TopRight);
    assert_eq!(Direction::BottomLeft.right_90_dir(), Direction::TopLeft);
    assert_eq!(Direction::TopLeft.right_45_dir(), Direction::Up);
    for i in 0..8 {
        let d = Direction::int_to_direction(i);
        assert_eq!(d.direction_to_int(), i);
        assert_eq!(d.left_45_dir().right_45_dir(), d);
        assert_eq!(d.left_90_dir().right_90_dir(), d);
    }
}

#[test]
fn diagonal_directions() {
    let diagonals: Vec<Direction> =
        Direction::all_directions().into_iter().filter(|d| d.is_diagonal()).collect();
    assert_eq!(
        diagonals,
        vec![Direction::TopRight, Direction::TopLeft, Direction::BottomRight, Direction::BottomLeft]
    );
    assert_eq!(Direction::all_directions().len(), 8);
}

#[test]
fn from_points_reads_the_eight_directions() {
    let o = p(10, 10);
    assert_eq!(Direction::from_points(o, p(10, 20)), Ok(Direction::Up));
    assert_eq!(Direction::from_points(o, p(10, 0)), Ok(Direction::Down));
    assert_eq!(Direction::from_points(o, p(0, 10)), Ok(Direction::Left));
    assert_eq!(Direction::from_points(o, p(30, 10)), Ok(Direction::Right));
    assert_eq!(Direction::from_points(o, p(15, 15)), Ok(Direction::TopRight));
    assert_eq!(Direction::from_points(o, p(5, 15)), Ok(Direction::TopLeft));
    assert_eq!(Direction::from_points(o, p(15, 5)), Ok(Direction::BottomRight));
    assert_eq!(Direction::from_points(o, p(5, 5)), Ok(Direction::BottomLeft));
}

#[test]
fn from_points_rejects_unaligned_and_zero_segments() {
    let e = Direction::from_points(p(0, 0), p(3, 1)).unwrap_err();
    assert_eq!((e.dx, e.dy), (3, 1));
    assert!(Direction::from_points(p(4, 4), p(4, 4)).is_err());
    assert!(!Direction::is_two_points_valid_direction(p(0, 0), p(2, 5)));
    assert!(Direction::is_two_points_valid_direction(p(0, 0), p(-7, 7)));
}

#[test]
fn to_fixed_vec2_scales_the_unit_step() {
    assert_eq!(Direction::BottomLeft.to_fixed_vec2(7), p(-7, -7));
    assert_eq!(Direction::Up.to_fixed_vec2(326), p(0, 326));
}

#[test]
fn parity_predicates() {
    assert!(p(3, 5).is_x_odd_y_odd());
    assert!(!p(3, 4).is_x_odd_y_odd());
    assert!(p(-3, -5).is_x_odd_y_odd());
    assert!(p(3, 5).is_sum_even());
    assert!(!p(-3, 4).is_sum_even());
    assert!(is_odd(-1));
    assert!(!is_odd(-2));
}

#[test]
fn octile_distance_is_exact() {
    let d = octile_distance(&p(0, 0), &p(300, -100));
    assert_eq!(d, PathLength { axis: 200, diagonal: 100 });
    let d = octile_distance(&p(5, 5), &p(5, 5));
    assert_eq!(d, PathLength { axis: 0, diagonal: 0 });
}

#[test]
fn cost_order_uses_sqrt_two() {
    // 3 < 1 + 2*sqrt(2) (about 3.83)
    assert!(cost_less(PathLength { axis: 3, diagonal: 0 }, PathLength { axis: 1, diagonal: 2 }));
    // 2*sqrt(2) (about 2.83) < 3
    assert!(cost_less(PathLength { axis: 0, diagonal: 2 }, PathLength { axis: 3, diagonal: 0 }));
    assert!(!cost_less(PathLength { axis: 3, diagonal: 0 }, PathLength { axis: 0, diagonal: 2 }));
    assert!(!cost_less(PathLength { axis: 4, diagonal: 1 }, PathLength { axis: 4, diagonal: 1 }));
}

#[test]
fn segments_round_trip_to_anchors() {
    let anchors = vec![p(0, 0), p(0, 100), p(50, 150), p(150, 150)];
    let segments = rebuild_segments(&anchors, 128, 13);
    assert_eq!(segments.len(), 3);
    assert_eq!(segments[1], TraceSegment { start: p(0, 100), end: p(50, 150), width: 128, clearance: 13 });
    assert_eq!(recompose_anchors(&segments), anchors);
}

#[test]
fn path_length_counts_axis_and_diagonal_steps() {
    let anchors = vec![p(0, 0), p(0, 100), p(50, 150), p(150, 150)];
    assert_eq!(polyline_length(&anchors), PathLength { axis: 200, diagonal: 50 });
    let path = TracePath::from_anchors(anchors.clone(), 128, 13);
    assert_eq!(path.anchors.0, anchors);
    assert_eq!(path.length, PathLength { axis: 200, diagonal: 50 });
}

fn boxes_overlap(a: &TraceSegment, b: &TraceSegment) -> bool {
    let ra = a.width / 2 + a.clearance;
    let rb = b.width / 2 + b.clearance;
    let (ax0, ax1) = (a.start.x.min(a.end.x) - ra, a.start.x.max(a.end.x) + ra);
    let (ay0, ay1) = (a.start.y.min(a.end.y) - ra, a.start.y.max(a.end.y) + ra);
    let (bx0, bx1) = (b.start.x.min(b.end.x) - rb, b.start.x.max(b.end.x) + rb);
    let (by0, by1) = (b.start.y.min(b.end.y) - rb, b.start.y.max(b.end.y) + rb);
    ax0 < bx1 && bx0 < ax1 && ay0 < by1 && by0 < ay1
}

#[test]
fn path_collision_is_symmetric() {
    let a = TracePath::from_anchors(vec![p(0, 0), p(1000, 0)], 128, 13);
    let b = TracePath::from_anchors(vec![p(500, -500), p(500, 500)], 128, 13);
    let c = TracePath::from_anchors(vec![p(0, 2000), p(1000, 2000)], 128, 13);
    let f = |s: TraceSegment, t: TraceSegment| boxes_overlap(&s, &t);
    assert!(a.collides_with(&b, &f));
    assert!(b.collides_with(&a, &f));
    assert!(!a.collides_with(&c, &f));
    assert!(!c.collides_with(&a, &f));
}

#[test]
fn grid_points_of_a_lattice_vertex() {
    let m = model(p(0, 0), p(0, 1280));
    let g = m.directions_to_grid_points(p(0, 0));
    assert_eq!(g.len(), 8);
    assert!(g.contains(&(Direction::Left, p(-326, 0))));
    assert!(g.contains(&(Direction::Right, p(326, 0))));
    assert!(g.contains(&(Direction::Up, p(0, 326))));
    assert!(g.contains(&(Direction::TopLeft, p(-326, 326))));
    assert!(g.contains(&(Direction::BottomLeft, p(-326, -326))));
}

#[test]
fn grid_points_off_lattice() {
    let m = model(p(0, 0), p(0, 1280));
    // on a lattice row only
    let g = m.directions_to_grid_points(p(100, 326));
    assert_eq!(g, vec![(Direction::Left, p(0, 326)), (Direction::Right, p(326, 326))]);
    // on no lattice line
    assert!(m.directions_to_grid_points(p(100, 50)).is_empty());
}

#[test]
fn nearest_one_step_points() {
    let m = model(p(0, 0), p(0, 1280));
    assert_eq!(m.to_nearest_one_step_point(&p(100, 50), Direction::Up), p(100, 326));
    assert_eq!(m.to_nearest_one_step_point(&p(100, 50), Direction::Left), p(0, 50));
    // diagonal moves keep x + y or x - y and land on a lattice diagonal
    assert_eq!(m.to_nearest_one_step_point(&p(100, 50), Direction::TopRight), p(188, 138));
    assert_eq!(m.to_nearest_one_step_point(&p(100, 50), Direction::BottomLeft), p(25, -25));
}

#[test]
fn alignment_with_the_goal() {
    let m = model(p(0, 0), p(100, 100));
    assert_eq!(m.is_aligned_with_end(p(0, 0)), Some(Direction::TopRight));
    assert_eq!(m.is_aligned_with_end(p(100, 0)), Some(Direction::Up));
    assert_eq!(m.is_aligned_with_end(p(200, 0)), Some(Direction::TopLeft));
    assert_eq!(m.is_aligned_with_end(p(10, 0)), None);
}

#[test]
fn intersection_with_goal_alignment_lines() {
    let m = model(p(0, 0), p(300, 100));
    // moving right from the origin meets the goal's diagonal y - x = -200 at x = 200
    assert_eq!(m.get_intersection_with_end_alignments(p(0, 0), p(1000, 0)), Some(p(200, 0)));
    // a segment too short to reach either line
    assert_eq!(m.get_intersection_with_end_alignments(p(0, 0), p(100, 0)), None);
}

#[test]
fn binary_approach_returns_a_single_delta_step() {
    let m = model(p(1, 1), p(2000, 2000));
    let blocked = |a: FixedVec2, b: FixedVec2| (b.x - a.x).abs().max((b.y - a.y).abs()) > 1;
    assert_eq!(m.binary_approach_to_obstacles(p(1, 1), p(101, 101), &blocked), Some(p(2, 2)));
}

#[test]
fn binary_approach_backs_off_for_parity() {
    let m = model(p(0, 0), p(2000, 2000));
    let blocked = |a: FixedVec2, b: FixedVec2| (b.x - a.x).abs().max((b.y - a.y).abs()) > 1;
    // one step right from an even point is sum-odd, so nothing is left
    assert_eq!(m.binary_approach_to_obstacles(p(0, 0), p(100, 0), &blocked), None);
    let blocked = |a: FixedVec2, b: FixedVec2| (b.x - a.x).abs().max((b.y - a.y).abs()) > 37;
    assert_eq!(m.binary_approach_to_obstacles(p(0, 0), p(100, 0), &blocked), Some(p(36, 0)));
}

#[test]
fn clamp_by_collision_keeps_a_free_segment() {
    let m = model(p(0, 0), p(2000, 2000));
    let free = |_a: FixedVec2, _b: FixedVec2| false;
    assert_eq!(m.clamp_by_collision(p(0, 0), p(0, 326), &free), Some(p(0, 326)));
}

#[test]
fn radial_directions_hug_a_wall() {
    let m = model(p(0, 0), p(2000, 2000));
    // everything with y > 0 is blocked: a wall just above
    let blocked = |_a: FixedVec2, b: FixedVec2| b.y > 0;
    let r = m.radial_directions_wrt_obstacles(&p(0, 0), &blocked);
    assert_eq!(r, vec![Direction::Left, Direction::Right]);
}
