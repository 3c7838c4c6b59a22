use pcb_routing::astar::{shift_parallel, tighten_corner, AStarError, AStarModel};
use pcb_routing::hyperparameters::ASTAR_STRIDE;
use pcb_routing::pcb_problem::{
    normalized_prior, num_traces, remaining_probability, BinaryHeapItem, Color, ConnectionID,
    FixedTrace, IterationNum, NetID, Node, Pad, PadShape, PcbProblem, ProbaModel, ProbaTrace,
    ProbaTraceID, SolveError, StepOutcome, last_updated_node_index, run_schedule,
};
use pcb_routing::trace_path::{Direction, PathLength, TracePath, TraceSegment};
use pcb_routing::vec2::FixedVec2;

const MM: i32 = 256;

fn p(x: i32, y: i32) -> FixedVec2 {
    FixedVec2::new(x, y)
}

/// An axis-aligned forbidden box, in bit units, already inflated by the
/// clearances involved.
#[derive(Clone, Copy)]
struct Obstacle {
    x0: i32,
    y0: i32,
    x1: i32,
    y1: i32,
}

/// A collision oracle for tests: the segment's body (half-width `r`) may not
/// leave the board nor enter any obstacle; checked point by point.
fn segment_blocked(a: FixedVec2, b: FixedVec2, half_w: i32, half_h: i32, r: i32, obstacles: &[Obstacle]) -> bool {
    let dx = (b.x - a.x).signum();
    let dy = (b.y - a.y).signum();
    let n = (b.x - a.x).abs().max((b.y - a.y).abs());
    for k in 0..=n {
        let x = a.x + dx * k;
        let y = a.y + dy * k;
        if x - r <= -half_w || x + r >= half_w || y - r <= -half_h || y + r >= half_h {
            return true;
        }
        for o in obstacles {
            if x + r > o.x0 && x - r < o.x1 && y + r > o.y0 && y - r < o.y1 {
                return true;
            }
        }
    }
    false
}

fn boxes_overlap(a: &TraceSegment, b: &TraceSegment) -> bool {
    let ra = a.width / 2 + a.clearance;
    let rb = b.width / 2;
    let (ax0, ax1) = (a.start.x.min(a.end.x) - ra, a.start.x.max(a.end.x) + ra);
    let (ay0, ay1) = (a.start.y.min(a.end.y) - ra, a.start.y.max(a.end.y) + ra);
    let (bx0, bx1) = (b.start.x.min(b.end.x) - rb, b.start.x.max(b.end.x) + rb);
    let (by0, by1) = (b.start.y.min(b.end.y) - rb, b.start.y.max(b.end.y) + rb);
    ax0 < bx1 && bx0 < ax1 && ay0 < by1 && by0 < ay1
}

fn segments_collide(a: TraceSegment, b: TraceSegment) -> bool {
    boxes_overlap(&a, &b) || boxes_overlap(&b, &a)
}

fn circle_pad(x: i32, y: i32, diameter: i32) -> Pad {
    Pad { position: p(x, y), shape: PadShape::Circle { diameter }, rotation: 0, clearance: 13 }
}

fn pad_box(pad: &Pad, margin: i32) -> Obstacle {
    let half = match pad.shape {
        PadShape::Circle { diameter } => diameter / 2,
        PadShape::Square { side_length } => side_length / 2,
        PadShape::Rectangle { width, height } => width.max(height) / 2,
    } + pad.clearance + margin;
    Obstacle { x0: pad.position.x - half, y0: pad.position.y - half, x1: pad.position.x + half, y1: pad.position.y + half }
}

/// Solves the probabilistic model the simple way: one A* candidate per open
/// connection, against the board, the pads of other nets and the fixed
/// traces; keys rank shorter paths first.
fn resolve_with(problem: &PcbProblem, fixed: &Vec<FixedTrace>) -> Vec<BinaryHeapItem<u64, ProbaTrace>> {
    let mut out = Vec::new();
    for c in &problem.connections {
        if fixed.iter().any(|f| f.connection_id == c.connection_id) {
            continue;
        }
        let r = c.trace_width / 2 + c.trace_clearance;
        let mut obstacles: Vec<Obstacle> = Vec::new();
        for other in &problem.connections {
            if other.net_id != c.net_id {
                obstacles.push(pad_box(&other.source, r));
                obstacles.push(pad_box(&other.sink, r));
            }
        }
        for f in fixed {
            for s in &f.trace_path.segments {
                let m = s.width / 2 + r;
                obstacles.push(Obstacle {
                    x0: s.start.x.min(s.end.x) - m,
                    y0: s.start.y.min(s.end.y) - m,
                    x1: s.start.x.max(s.end.x) + m,
                    y1: s.start.y.max(s.end.y) + m,
                });
            }
        }
        let (hw, hh) = (problem.width / 2, problem.height / 2);
        let model = AStarModel {
            width: problem.width,
            height: problem.height,
            start: c.source.position,
            end: c.sink.position,
            trace_width: c.trace_width,
            trace_clearance: c.trace_clearance,
        };
        let blocked = |a: FixedVec2, b: FixedVec2| segment_blocked(a, b, hw, hh, c.trace_width / 2, &obstacles);
        if let Ok(res) = model.run(&blocked) {
            let length = res.trace_path.length.axis + res.trace_path.length.diagonal * 3 / 2;
            out.push(BinaryHeapItem {
                key: u64::MAX - length as u64,
                value: ProbaTrace {
                    net_id: c.net_id,
                    connection_id: c.connection_id,
                    proba_trace_id: ProbaTraceID(out.len()),
                    trace_path: res.trace_path,
                    iteration: IterationNum(1),
                },
            });
        }
    }
    out
}

fn solve(problem: &PcbProblem) -> Result<Vec<FixedTrace>, SolveError> {
    let resolve = |fixed: Vec<FixedTrace>| resolve_with(problem, &fixed);
    problem.solve(&resolve, &segments_collide, 10_000).map(|s| s.determined_traces)
}

fn direction_of(path: &TracePath, i: usize) -> Direction {
    Direction::from_points(path.anchors.0[i], path.anchors.0[i + 1]).unwrap()
}

#[test]
fn single_connection_clear_board() {
    // 15 x 15: on a board 10 mm high the sink at y = 5 mm would sit on the
    // border, which every trace must keep clear of
    let mut problem = PcbProblem::new(15 * MM, 15 * MM);
    let net = problem.add_net(Color { r: 255, g: 0, b: 0 });
    problem.add_connection(net, circle_pad(0, 0, 307), circle_pad(0, 5 * MM, 256), 128, 13);
    let traces = solve(&problem).unwrap();
    assert_eq!(traces.len(), 1);
    let path = &traces[0].trace_path;
    assert_eq!(path.anchors.0, vec![p(0, 0), p(0, 5 * MM)]);
    assert_eq!(direction_of(path, 0), Direction::Up);
    assert_eq!(path.length, PathLength { axis: 5 * MM as i64, diagonal: 0 });
}

#[test]
fn two_connections_orthogonal() {
    let mut problem = PcbProblem::new(20 * MM, 20 * MM);
    let red = problem.add_net(Color { r: 255, g: 0, b: 0 });
    let green = problem.add_net(Color { r: 0, g: 255, b: 0 });
    problem.add_connection(red, circle_pad(-6 * MM, 3 * MM, 256), circle_pad(6 * MM, 3 * MM, 256), 128, 13);
    problem.add_connection(green, circle_pad(-6 * MM, -3 * MM, 256), circle_pad(6 * MM, -3 * MM, 256), 128, 13);
    let traces = solve(&problem).unwrap();
    assert_eq!(traces.len(), 2);
    let a = &traces[0].trace_path;
    let b = &traces[1].trace_path;
    assert!(!a.collides_with(b, &segments_collide));
    assert!(!b.collides_with(a, &segments_collide));
}

#[test]
fn forced_detour_around_a_pad() {
    let mut problem = PcbProblem::new(20 * MM, 20 * MM);
    let blue = problem.add_net(Color { r: 0, g: 0, b: 255 });
    let grey = problem.add_net(Color { r: 128, g: 128, b: 128 });
    problem.add_connection(blue, circle_pad(-3 * MM, 6 * MM, 256), circle_pad(-3 * MM, -6 * MM, 256), 128, 13);
    let big = Pad { position: p(-3 * MM, 0), shape: PadShape::Square { side_length: 2 * MM }, rotation: 0, clearance: 13 };
    problem.add_connection(grey, big, Pad { position: p(6 * MM, 0), ..big }, 128, 13);
    let fixed: Vec<FixedTrace> = Vec::new();
    let candidates = resolve_with(&problem, &fixed);
    let blue_path = candidates
        .iter()
        .find(|c| c.value.connection_id == ConnectionID(0))
        .map(|c| &c.value.trace_path)
        .unwrap();
    let anchors = &blue_path.anchors.0;
    assert!(anchors.len() >= 4);
    assert_eq!(anchors[0], p(-3 * MM, 6 * MM));
    assert_eq!(anchors[anchors.len() - 1], p(-3 * MM, -6 * MM));
    assert!(anchors.iter().any(|a| a.x != -3 * MM));
}

#[test]
fn interleaved_nets_have_no_solution() {
    let mut problem = PcbProblem::new(12 * MM, 12 * MM);
    let a = problem.add_net(Color { r: 255, g: 0, b: 0 });
    let b = problem.add_net(Color { r: 0, g: 0, b: 255 });
    let square = |x: i32, y: i32| Pad { position: p(x, y), shape: PadShape::Square { side_length: 2 * MM }, rotation: 0, clearance: 13 };
    problem.add_connection(a, square(-5 * MM, 0), square(5 * MM, 0), 128, 13);
    problem.add_connection(b, square(0, -5 * MM), square(0, 5 * MM), 128, 13);
    assert_eq!(solve(&problem).map(|t| t.len()), Err(SolveError::NoSolution));
}

#[test]
fn smoothing_shortens_the_middle_of_a_corner() {
    let anchors = vec![p(0, 0), p(0, 1000), p(500, 1500), p(1500, 1500)];
    let path = TracePath::from_anchors(anchors, 128, 13);
    let model = AStarModel { width: 20 * MM, height: 20 * MM, start: p(0, 0), end: p(1500, 1500), trace_width: 128, trace_clearance: 13 };
    let free = |_a: FixedVec2, _b: FixedVec2| false;
    let smoothed = model.optimize_path(&path, &free);
    let before = 500;
    let a = &smoothed.anchors.0;
    let after = (a[2].x - a[1].x).abs().max((a[2].y - a[1].y).abs());
    assert!(after <= before - 1);
    assert_eq!(a[0], p(0, 0));
    assert_eq!(a[3], p(1500, 1500));
    assert_eq!(direction_of(&smoothed, 1), Direction::TopRight);
}

#[test]
fn smoothing_slides_a_joining_segment() {
    let anchors = vec![p(0, 0), p(0, 100), p(200, 100), p(200, 300)];
    let path = TracePath::from_anchors(anchors, 128, 13);
    let model = AStarModel { width: 20 * MM, height: 20 * MM, start: p(0, 0), end: p(200, 300), trace_width: 128, trace_clearance: 13 };
    let free = |_a: FixedVec2, _b: FixedVec2| false;
    let smoothed = model.optimize_path(&path, &free);
    assert_eq!(smoothed.anchors.0, vec![p(0, 0), p(200, 0), p(200, 100), p(200, 300)]);
}

#[test]
fn solving_twice_gives_the_same_traces() {
    let mut problem = PcbProblem::new(20 * MM, 20 * MM);
    let red = problem.add_net(Color { r: 255, g: 0, b: 0 });
    let green = problem.add_net(Color { r: 0, g: 255, b: 0 });
    problem.add_connection(red, circle_pad(-6 * MM, 3 * MM, 256), circle_pad(6 * MM, 3 * MM, 256), 128, 13);
    problem.add_connection(green, circle_pad(-6 * MM, -3 * MM, 256), circle_pad(5 * MM, -5 * MM, 256), 128, 13);
    let first = solve(&problem).unwrap();
    let second = solve(&problem).unwrap();
    assert_eq!(first.len(), second.len());
    for (a, b) in first.iter().zip(second.iter()) {
        assert_eq!(a.connection_id, b.connection_id);
        assert_eq!(a.trace_path.anchors, b.trace_path.anchors);
    }
}

#[test]
fn aligned_and_free_gives_two_anchors() {
    let model = AStarModel { width: 20 * MM, height: 20 * MM, start: p(0, 0), end: p(652, 652), trace_width: 128, trace_clearance: 13 };
    let free = |_a: FixedVec2, _b: FixedVec2| false;
    let res = model.run(&free).ok().unwrap();
    assert_eq!(res.trace_path.anchors.0, vec![p(0, 0), p(652, 652)]);
    assert_eq!(res.trace_path.length, PathLength { axis: 0, diagonal: 652 });
}

#[test]
fn anchors_are_sum_even_and_steps_valid() {
    let model = AStarModel { width: 20 * MM, height: 20 * MM, start: p(-3 * MM, 6 * MM), end: p(-3 * MM + 4, -6 * MM), trace_width: 128, trace_clearance: 13 };
    let obstacles = [Obstacle { x0: -5 * MM, y0: -MM, x1: -MM, y1: MM }];
    let blocked = |a: FixedVec2, b: FixedVec2| segment_blocked(a, b, 10 * MM, 10 * MM, 64, &obstacles);
    let res = model.run(&blocked).ok().unwrap();
    let a = &res.trace_path.anchors.0;
    for w in a.windows(2) {
        assert!(Direction::is_two_points_valid_direction(w[0], w[1]));
    }
    for q in a {
        assert!(q.is_sum_even());
        assert_eq!((q.x - q.y).rem_euclid(2), 0);
    }
}

#[test]
fn blocked_everywhere_exhausts_the_search() {
    let model = AStarModel { width: 20 * MM, height: 20 * MM, start: p(0, 0), end: p(0, 652), trace_width: 128, trace_clearance: 13 };
    let blocked = |_a: FixedVec2, _b: FixedVec2| true;
    let failure = model.run(&blocked).err().unwrap();
    assert_eq!(failure.error, AStarError::NoPath);
    assert_eq!(failure.expanded, vec![p(0, 0)]);
    assert_eq!(failure.reached, vec![p(0, 0)]);
}

#[test]
fn normalized_priors_per_round() {
    assert_eq!(normalized_prior(1), (1, 2));
    assert_eq!(normalized_prior(2), (1, 12));
    assert_eq!(normalized_prior(3), (1, 32));
    assert_eq!(normalized_prior(4), (1, 32));
    assert_eq!((num_traces(1), num_traces(2), num_traces(3), num_traces(4)), (1, 3, 4, 2));
    assert_eq!(remaining_probability(1), (1, 1));
    assert_eq!(remaining_probability(3), (1, 4));
    assert_eq!(remaining_probability(5), (1, 16));
}

#[test]
fn problem_hands_out_ids_in_order() {
    let mut problem = PcbProblem::new(10 * MM, 10 * MM);
    let a = problem.add_net(Color { r: 1, g: 2, b: 3 });
    let b = problem.add_net(Color { r: 3, g: 2, b: 1 });
    assert_eq!((a, b), (NetID(0), NetID(1)));
    assert!(problem.has_color(Color { r: 1, g: 2, b: 3 }));
    assert!(!problem.has_color(Color { r: 9, g: 9, b: 9 }));
    let c0 = problem.add_connection(b, circle_pad(0, 0, 256), circle_pad(MM, 0, 256), 128, 13);
    let c1 = problem.add_connection(a, circle_pad(0, MM, 256), circle_pad(MM, MM, 256), 128, 13);
    assert_eq!((c0, c1), (ConnectionID(0), ConnectionID(1)));
    assert_eq!(problem.connections[1].net_id, a);
}

fn candidate(id: usize, conn: usize, net: usize, anchors: Vec<FixedVec2>) -> ProbaTrace {
    ProbaTrace {
        net_id: NetID(net),
        connection_id: ConnectionID(conn),
        proba_trace_id: ProbaTraceID(id),
        trace_path: TracePath::from_anchors(anchors, 128, 13),
        iteration: IterationNum(1),
    }
}

#[test]
fn node_fixes_the_best_candidate_and_drops_its_rivals() {
    let pool = vec![
        candidate(0, 0, 0, vec![p(0, 0), p(1000, 0)]),
        candidate(1, 0, 0, vec![p(0, 0), p(0, 1000)]),
        candidate(2, 1, 1, vec![p(0, 2000), p(1000, 2000)]),
    ];
    let mut node = Node::from_candidates(
        Vec::new(),
        vec![
            BinaryHeapItem { key: 5, value: 0 },
            BinaryHeapItem { key: 9, value: 1 },
            BinaryHeapItem { key: 7, value: 2 },
        ],
    );
    let next = node.try_fix_top_ranked_trace(&pool, &segments_collide).unwrap();
    assert_eq!(next.fixed_traces, vec![1]);
    assert!(!next.prob_up_to_date);
    let left: Vec<usize> = next.remaining_trace_candidates.iter().map(|c| c.value).collect();
    assert_eq!(left, vec![2]);
    assert_eq!(node.remaining_trace_candidates.len(), 2);
    assert!(node.prob_up_to_date);
}

#[test]
fn node_discards_a_colliding_candidate() {
    let pool = vec![
        candidate(0, 0, 0, vec![p(0, 0), p(1000, 0)]),
        candidate(1, 1, 1, vec![p(500, -500), p(500, 500)]),
    ];
    let mut node = Node::from_candidates(vec![0], vec![BinaryHeapItem { key: 3, value: 1 }]);
    assert!(node.try_fix_top_ranked_trace(&pool, &segments_collide).is_none());
    assert!(node.remaining_trace_candidates.is_empty());
    let mut problem = PcbProblem::new(10 * MM, 10 * MM);
    let n = problem.add_net(Color { r: 1, g: 1, b: 1 });
    problem.add_connection(n, circle_pad(0, 0, 256), circle_pad(MM, 0, 256), 128, 13);
    assert!(node.is_solution(&problem, &pool));
    problem.add_connection(n, circle_pad(0, 0, 256), circle_pad(MM, MM, 256), 128, 13);
    assert!(!node.is_solution(&problem, &pool));
}

#[test]
fn sampling_round_adds_distinct_candidates_and_adjacency() {
    let mut problem = PcbProblem::new(20 * MM, 20 * MM);
    let red = problem.add_net(Color { r: 255, g: 0, b: 0 });
    let blue = problem.add_net(Color { r: 0, g: 0, b: 255 });
    problem.add_connection(red, circle_pad(0, 0, 256), circle_pad(1000, 0, 256), 128, 13);
    problem.add_connection(blue, circle_pad(500, -500, 256), circle_pad(500, 500, 256), 128, 13);
    let mut model = ProbaModel::new(&problem, &Vec::new());
    assert_eq!(model.next_iteration, 1);
    // the router always finds the straight path: one distinct candidate each
    let route = |_net: NetID, _attempt: usize, c: ConnectionID| {
        let conn = &problem.connections[c.0];
        Some(TracePath::from_anchors(vec![conn.source.position, conn.sink.position], 128, 13))
    };
    model.sample_new_traces(&problem, &route, &segments_collide);
    assert_eq!(model.next_iteration, 2);
    assert_eq!(model.traces.len(), 2);
    assert_eq!(model.traces[0].proba_trace_id, ProbaTraceID(0));
    assert_eq!(model.traces[1].iteration, IterationNum(1));
    assert_eq!(model.collision_adjacency[0], vec![ProbaTraceID(1)]);
    assert_eq!(model.collision_adjacency[1], vec![ProbaTraceID(0)]);
    // a second round finds nothing new
    model.sample_new_traces(&problem, &route, &segments_collide);
    assert_eq!(model.traces.len(), 2);
    assert_eq!(model.next_iteration, 3);
}

#[test]
fn model_keeps_fixed_connections() {
    let mut problem = PcbProblem::new(20 * MM, 20 * MM);
    let red = problem.add_net(Color { r: 255, g: 0, b: 0 });
    problem.add_connection(red, circle_pad(0, 0, 256), circle_pad(1000, 0, 256), 128, 13);
    problem.add_connection(red, circle_pad(0, 0, 256), circle_pad(0, 1000, 256), 128, 13);
    let fixed = vec![FixedTrace {
        net_id: red,
        connection_id: ConnectionID(1),
        trace_path: TracePath::from_anchors(vec![p(0, 0), p(0, 1000)], 128, 13),
    }];
    let model = ProbaModel::new(&problem, &fixed);
    assert!(model.fixed[0].is_none());
    assert!(model.fixed[1].is_some());
    assert_eq!(ASTAR_STRIDE % 2, 0);
}

#[test]
fn any_trace_skips_colliding_candidates() {
    let pool = vec![
        candidate(0, 0, 0, vec![p(0, 0), p(1000, 0)]),
        candidate(1, 1, 1, vec![p(500, -500), p(500, 500)]),
        candidate(2, 1, 1, vec![p(0, 3000), p(1000, 3000)]),
    ];
    let mut node = Node::from_candidates(
        vec![0],
        vec![BinaryHeapItem { key: 8, value: 1 }, BinaryHeapItem { key: 4, value: 2 }],
    );
    let next = node.try_fix_any_trace(&pool, &segments_collide).unwrap();
    assert_eq!(next.fixed_traces, vec![0, 2]);
    assert!(node.remaining_trace_candidates.is_empty());
    let mut empty = Node::from_candidates(vec![0], Vec::new());
    assert!(empty.try_fix_any_trace(&pool, &segments_collide).is_none());
}

#[test]
fn pop_top_takes_the_largest_key_first() {
    let mut node = Node::from_candidates(
        Vec::new(),
        vec![
            BinaryHeapItem { key: 2, value: 10 },
            BinaryHeapItem { key: 6, value: 11 },
            BinaryHeapItem { key: 6, value: 12 },
        ],
    );
    let copy = node.copy();
    assert_eq!(node.pop_top().map(|c| c.value), Some(11));
    assert_eq!(node.pop_top().map(|c| c.value), Some(12));
    assert_eq!(node.pop_top().map(|c| c.value), Some(10));
    assert!(node.pop_top().is_none());
    assert_eq!(copy.remaining_trace_candidates.len(), 3);
}

#[test]
fn adjacency_links_only_colliding_traces_of_different_nets() {
    let mut problem = PcbProblem::new(20 * MM, 20 * MM);
    let red = problem.add_net(Color { r: 255, g: 0, b: 0 });
    let blue = problem.add_net(Color { r: 0, g: 0, b: 255 });
    problem.add_connection(red, circle_pad(0, 0, 256), circle_pad(1000, 0, 256), 128, 13);
    problem.add_connection(red, circle_pad(0, 0, 256), circle_pad(0, 1000, 256), 128, 13);
    problem.add_connection(blue, circle_pad(3000, 0, 256), circle_pad(3000, 1000, 256), 128, 13);
    let mut model = ProbaModel::new(&problem, &Vec::new());
    model.traces = vec![
        candidate(0, 0, 0, vec![p(0, 0), p(1000, 0)]),
        candidate(1, 1, 0, vec![p(0, 0), p(0, 1000)]),
        candidate(2, 2, 1, vec![p(3000, 0), p(3000, 1000)]),
        candidate(3, 2, 1, vec![p(3000, 0), p(500, 0)]),
    ];
    model.update_collision_adjacency(&segments_collide);
    assert_eq!(model.collision_adjacency[0], vec![ProbaTraceID(3)]);
    // the vertical red trace stays clear of the shortened blue one
    assert!(model.collision_adjacency[1].is_empty());
    assert!(model.collision_adjacency[2].is_empty());
    assert_eq!(model.collision_adjacency[3], vec![ProbaTraceID(0)]);
}

#[test]
fn unreachable_goal_exhausts_the_expansion_budget() {
    let end = p(0, 652);
    let model = AStarModel { width: 20 * MM, height: 20 * MM, start: p(0, 0), end, trace_width: 128, trace_clearance: 13 };
    // everything near the goal is walled off; the rest of a wide board is free
    let blocked = |_a: FixedVec2, b: FixedVec2| {
        (b.x - end.x).abs().max((b.y - end.y).abs()) < 200 || b.x.abs() > 40 * MM || b.y.abs() > 40 * MM
    };
    let failure = model.run(&blocked).err().unwrap();
    assert_eq!(failure.error, AStarError::ExceededTrials);
    assert_eq!(failure.expanded.len(), 200);
    assert!(failure.reached.iter().any(|q| !failure.expanded.contains(q)));
}

#[test]
fn solver_stops_when_its_step_budget_runs_out() {
    let mut problem = PcbProblem::new(15 * MM, 15 * MM);
    let net = problem.add_net(Color { r: 255, g: 0, b: 0 });
    problem.add_connection(net, circle_pad(0, 0, 307), circle_pad(0, 5 * MM, 256), 128, 13);
    let resolve = |fixed: Vec<FixedTrace>| resolve_with(&problem, &fixed);
    let r = problem.solve(&resolve, &segments_collide, 1);
    assert_eq!(r.err(), Some(SolveError::BudgetExhausted));
}

#[test]
fn connections_of_a_net_share_the_source() {
    let mut problem = PcbProblem::new(10 * MM, 10 * MM);
    let a = problem.add_net(Color { r: 1, g: 2, b: 3 });
    let b = problem.add_net(Color { r: 4, g: 5, b: 6 });
    assert!(problem.source_matches(a, circle_pad(0, 0, 256)));
    problem.add_connection(a, circle_pad(0, 0, 256), circle_pad(MM, 0, 256), 128, 13);
    assert!(problem.source_matches(a, circle_pad(0, 0, 256)));
    assert!(!problem.source_matches(a, circle_pad(2 * MM, 0, 256)));
    assert!(problem.source_matches(b, circle_pad(2 * MM, 0, 256)));
}

#[test]
fn empty_problem_is_solved_at_once() {
    let problem = PcbProblem::new(10 * MM, 10 * MM);
    assert_eq!(solve(&problem).map(|t| t.len()), Ok(0));
}

#[test]
fn model_update_only_for_out_of_date_nodes() {
    let mut pool: Vec<ProbaTrace> = vec![candidate(0, 0, 0, vec![p(0, 0), p(1000, 0)])];
    let resolve = |fixed: Vec<FixedTrace>| {
        assert_eq!(fixed.len(), 1);
        assert_eq!(fixed[0].trace_path.anchors.0, vec![p(0, 0), p(1000, 0)]);
        vec![BinaryHeapItem { key: 1, value: candidate(7, 1, 1, vec![p(0, 500), p(1000, 500)]) }]
    };
    let mut problem = PcbProblem::new(20 * MM, 20 * MM);
    let red = problem.add_net(Color { r: 255, g: 0, b: 0 });
    let blue = problem.add_net(Color { r: 0, g: 0, b: 255 });
    problem.add_connection(red, circle_pad(0, 0, 256), circle_pad(1000, 0, 256), 128, 13);
    problem.add_connection(blue, circle_pad(0, 500, 256), circle_pad(1000, 500, 256), 128, 13);
    let fresh = Node::from_fixed_traces(&problem, vec![0], &mut pool, &resolve);
    assert!(fresh.prob_up_to_date);
    assert_eq!(pool.len(), 2);
    assert_eq!(fresh.remaining_trace_candidates[0].value, 1);
    assert!(fresh.try_update_proba_model(&problem, &mut pool, &resolve).is_none());
    let stale = Node { remaining_trace_candidates: Vec::new(), fixed_traces: vec![0], prob_up_to_date: false };
    let updated = stale.try_update_proba_model(&problem, &mut pool, &resolve).unwrap();
    assert_eq!(updated.fixed_traces, vec![0]);
    assert_eq!(pool.len(), 3);
}

#[test]
fn candidates_off_their_pads_are_dropped() {
    let mut problem = PcbProblem::new(20 * MM, 20 * MM);
    let red = problem.add_net(Color { r: 255, g: 0, b: 0 });
    problem.add_connection(red, circle_pad(0, 0, 256), circle_pad(1000, 0, 256), 128, 13);
    let mut pool: Vec<ProbaTrace> = Vec::new();
    // one candidate ends at the wrong point, one carries the wrong net
    let resolve = |_fixed: Vec<FixedTrace>| {
        vec![
            BinaryHeapItem { key: 1, value: candidate(0, 0, 0, vec![p(0, 0), p(900, 0)]) },
            BinaryHeapItem { key: 2, value: candidate(1, 0, 1, vec![p(0, 0), p(1000, 0)]) },
            BinaryHeapItem { key: 3, value: candidate(2, 0, 0, vec![p(0, 0), p(1000, 0)]) },
        ]
    };
    let node = Node::from_fixed_traces(&problem, Vec::new(), &mut pool, &resolve);
    assert_eq!(pool.len(), 1);
    assert_eq!(node.remaining_trace_candidates.len(), 1);
    assert_eq!(node.remaining_trace_candidates[0].key, 3);
    assert!(pool[0].fits(&problem));
}

#[test]
fn backtrack_step_reports_an_empty_stack() {
    let problem = PcbProblem::new(10 * MM, 10 * MM);
    let mut stack: Vec<Node> = Vec::new();
    let mut pool: Vec<ProbaTrace> = Vec::new();
    let resolve = |_fixed: Vec<FixedTrace>| Vec::new();
    let r = problem.backtrack_step(&mut stack, &mut pool, &resolve, &segments_collide);
    assert_eq!(r, StepOutcome::Exhausted);
    stack.push(Node::from_candidates(Vec::new(), Vec::new()));
    let r = problem.backtrack_step(&mut stack, &mut pool, &resolve, &segments_collide);
    assert_eq!(r, StepOutcome::Solved);
    assert_eq!(stack.len(), 1);
}

#[test]
fn discard_pops_when_the_target_is_up_to_date() {
    let mut problem = PcbProblem::new(20 * MM, 20 * MM);
    let red = problem.add_net(Color { r: 255, g: 0, b: 0 });
    let blue = problem.add_net(Color { r: 0, g: 0, b: 255 });
    problem.add_connection(red, circle_pad(0, 0, 256), circle_pad(1000, 0, 256), 128, 13);
    problem.add_connection(blue, circle_pad(500, -500, 256), circle_pad(500, 500, 256), 128, 13);
    let mut pool = vec![
        candidate(0, 0, 0, vec![p(0, 0), p(1000, 0)]),
        candidate(1, 1, 1, vec![p(500, -500), p(500, 500)]),
    ];
    let resolve = |_fixed: Vec<FixedTrace>| Vec::new();
    // the only candidate collides with the fixed trace; the top is up to date
    let mut stack = vec![Node::from_candidates(vec![0], vec![BinaryHeapItem { key: 1, value: 1 }])];
    assert_eq!(last_updated_node_index(&stack), 0);
    let r = problem.backtrack_step(&mut stack, &mut pool, &resolve, &segments_collide);
    assert_eq!(r, StepOutcome::Advanced);
    assert!(stack.is_empty());
}

#[test]
fn tighten_corner_slides_the_middle_inward() {
    let mut anchors = vec![p(0, 0), p(0, 1000), p(500, 1500), p(1500, 1500)];
    let free = |_a: FixedVec2, _b: FixedVec2| false;
    assert!(tighten_corner(&mut anchors, 1, &free));
    // one step is sum-odd, so the first accepted slide is two steps
    assert_eq!(anchors, vec![p(0, 0), p(0, 1002), p(498, 1500), p(1500, 1500)]);
    let mut straight = vec![p(0, 0), p(0, 1000), p(0, 2000), p(0, 3000)];
    assert!(!tighten_corner(&mut straight, 1, &free));
}

#[test]
fn admit_candidate_takes_only_new_pad_to_pad_paths() {
    let mut problem = PcbProblem::new(20 * MM, 20 * MM);
    let red = problem.add_net(Color { r: 255, g: 0, b: 0 });
    problem.add_connection(red, circle_pad(0, 0, 256), circle_pad(1000, 0, 256), 128, 13);
    let model = ProbaModel::new(&problem, &Vec::new());
    let conn = problem.connections[0];
    let mut pending: Vec<ProbaTrace> = Vec::new();
    let path = || TracePath::from_anchors(vec![p(0, 0), p(1000, 0)], 128, 13);
    assert!(model.admit_candidate(&mut pending, &conn, ProbaTraceID(0), path(), IterationNum(1)));
    assert_eq!(pending.len(), 1);
    assert_eq!(pending[0].net_id, red);
    // the same anchors again, and a path ending off the sink pad
    assert!(!model.admit_candidate(&mut pending, &conn, ProbaTraceID(1), path(), IterationNum(1)));
    let short = TracePath::from_anchors(vec![p(0, 0), p(900, 0)], 128, 13);
    assert!(!model.admit_candidate(&mut pending, &conn, ProbaTraceID(1), short, IterationNum(1)));
    assert_eq!(pending.len(), 1);
}

#[test]
fn schedule_runs_rounds_then_updates() {
    let log = std::cell::RefCell::new(Vec::new());
    let sample = |k: usize| log.borrow_mut().push((k, 0));
    let update = |k: usize, j: usize| log.borrow_mut().push((k, j));
    let calls = run_schedule(&sample, &update);
    assert_eq!(calls.len(), 44);
    assert_eq!(calls[0], (1, 0));
    assert_eq!(calls[1], (1, 1));
    assert_eq!(calls[11], (2, 0));
    assert_eq!(calls[43], (4, 10));
    assert_eq!(*log.borrow(), calls);
}

#[test]
fn shift_parallel_folds_a_joining_segment() {
    let mut anchors = vec![p(0, 0), p(0, 100), p(200, 100), p(200, 300)];
    let free = |_a: FixedVec2, _b: FixedVec2| false;
    assert!(shift_parallel(&mut anchors, 0, &free));
    assert_eq!(anchors, vec![p(0, 0), p(200, 0), p(200, 100), p(200, 300)]);
    let mut corner = vec![p(0, 0), p(0, 100), p(100, 200), p(300, 200)];
    assert!(!shift_parallel(&mut corner, 0, &free));
}
