use vstd::prelude::*;

use crate::hyperparameters::{MAX_GENERATION_ATTEMPTS, MAX_ITERATION, POSTERIOR_UPDATES_PER_ROUND};
use crate::trace_path::{functional, paths_clear, segments_collide_somewhere, TracePath, TraceSegment};
use crate::vec2::FixedVec2;

verus! {

/// The colour of a net.
#[derive(Debug, Clone, Copy, PartialEq, Eq, Structural, Hash)]
pub struct Color {
    pub r: u8,
    pub g: u8,
    pub b: u8,
}

#[derive(Debug, Clone, Copy, PartialEq, Eq, Structural, Hash)]
pub struct NetID(pub usize);

#[derive(Debug, Clone, Copy, PartialEq, Eq, Structural, Hash)]
pub struct ConnectionID(pub usize);

#[derive(Debug, Clone, Copy, PartialEq, Eq, Structural, Hash)]
pub struct ProbaTraceID(pub usize);

/// The sampling round (from one) that produced a candidate trace.
#[derive(Debug, Clone, Copy, PartialEq, Eq, Structural, Hash)]
pub struct IterationNum(pub usize);

/// The outline of a pad, in bit units.
#[derive(Debug, Clone, Copy, PartialEq, Eq, Structural)]
pub enum PadShape {
    Circle { diameter: i32 },
    Square { side_length: i32 },
    Rectangle { width: i32, height: i32 },
}

/// A copper landing area: its centre, outline, rotation (whole degrees,
/// counter-clockwise) and the clearance it keeps, in bit units.
#[derive(Debug, Clone, Copy, PartialEq, Eq, Structural)]
pub struct Pad {
    pub position: FixedVec2,
    pub shape: PadShape,
    pub rotation: i32,
    pub clearance: i32,
}

/// Two pads of one net to be joined by a trace of the given width and
/// clearance.
#[derive(Debug, Clone, Copy, PartialEq, Eq, Structural)]
pub struct Connection {
    pub net_id: NetID,
    pub connection_id: ConnectionID,
    pub source: Pad,
    pub sink: Pad,
    pub trace_width: i32,
    pub trace_clearance: i32,
}

#[derive(Debug, Clone, Copy, PartialEq, Eq, Structural)]
pub struct NetInfo {
    pub net_id: NetID,
    pub color: Color,
}

/// A board centred on the origin, its nets and their connections. Net and
/// connection identifiers are handed out in order, so each is its own
/// index.
pub struct PcbProblem {
    pub width: i32,
    pub height: i32,
    pub nets: Vec<NetInfo>,
    pub connections: Vec<Connection>,
}

impl PcbProblem {
    pub open spec fn wf(&self) -> bool {
        &&& forall|i: int| 0 <= i < self.nets@.len() ==> (#[trigger] self.nets@[i]).net_id.0 == i
        &&& forall|i: int|
            0 <= i < self.connections@.len() ==> (#[trigger] self.connections@[i]).connection_id.0
                == i && self.connections@[i].net_id.0 < self.nets@.len()
        &&& forall|i: int, j: int|
            0 <= i < j < self.nets@.len() ==> self.nets@[i].color != self.nets@[j].color
        &&& forall|i: int, j: int|
            0 <= i < self.connections@.len() && 0 <= j < self.connections@.len()
                && self.connections@[i].net_id == self.connections@[j].net_id
                ==> self.connections@[i].source == self.connections@[j].source
    }

    /// Every connection of net `net_id` so far starts at `source`.
    pub open spec fn source_fits(&self, net_id: NetID, source: Pad) -> bool {
        forall|i: int|
            0 <= i < self.connections@.len() && (#[trigger] self.connections@[i]).net_id == net_id
                ==> self.connections@[i].source == source
    }

    /// Whether a new connection of net `net_id` may start at `source`: the
    /// connections of a net share their source pad.
    pub fn source_matches(&self, net_id: NetID, source: Pad) -> (r: bool)
        ensures
            r == self.source_fits(net_id, source),
    {
        let mut i: usize = 0;
        while i < self.connections.len()
            invariant
                0 <= i <= self.connections@.len(),
                forall|k: int|
                    0 <= k < i && (#[trigger] self.connections@[k]).net_id == net_id
                        ==> self.connections@[k].source == source,
            decreases self.connections@.len() - i,
        {
            if self.connections[i].net_id == net_id && self.connections[i].source != source {
                return false;
            }
            i += 1;
        }
        true
    }

    pub open spec fn color_used(&self, color: Color) -> bool {
        exists|i: int| 0 <= i < self.nets@.len() && #[trigger] self.nets@[i].color == color
    }

    pub fn new(width: i32, height: i32) -> (r: PcbProblem)
        ensures
            r.wf(),
            r.width == width,
            r.height == height,
            r.nets@.len() == 0,
            r.connections@.len() == 0,
    {
        PcbProblem { width, height, nets: Vec::new(), connections: Vec::new() }
    }

    /// Whether some net already has `color`.
    pub fn has_color(&self, color: Color) -> (r: bool)
        ensures
            r == self.color_used(color),
    {
        let mut i: usize = 0;
        while i < self.nets.len()
            invariant
                0 <= i <= self.nets@.len(),
                forall|k: int| 0 <= k < i ==> self.nets@[k].color != color,
            decreases self.nets@.len() - i,
        {
            if self.nets[i].color == color {
                return true;
            }
            i += 1;
        }
        false
    }

    /// Adds a net of a colour no other net has.
    pub fn add_net(&mut self, color: Color) -> (r: NetID)
        requires
            old(self).wf(),
            !old(self).color_used(color),
        ensures
            final(self).wf(),
            r.0 == old(self).nets@.len(),
            final(self).nets@ == old(self).nets@.push(NetInfo { net_id: r, color }),
            final(self).connections@ == old(self).connections@,
            final(self).width == old(self).width,
            final(self).height == old(self).height,
    {
        let net_id = NetID(self.nets.len());
        self.nets.push(NetInfo { net_id, color });
        assert forall|i: int, j: int| 0 <= i < j < self.nets@.len() implies self.nets@[i].color
            != self.nets@[j].color by {
            if j == self.nets@.len() - 1 {
                assert(old(self).nets@[i] == self.nets@[i]);
            }
        }
        net_id
    }

    /// Adds a connection between two pads of an existing net; the
    /// connections of a net share their source pad.
    pub fn add_connection(
        &mut self,
        net_id: NetID,
        source: Pad,
        sink: Pad,
        trace_width: i32,
        trace_clearance: i32,
    ) -> (r: ConnectionID)
        requires
            old(self).wf(),
            net_id.0 < old(self).nets@.len(),
            old(self).source_fits(net_id, source),
        ensures
            final(self).wf(),
            r.0 == old(self).connections@.len(),
            final(self).connections@ == old(self).connections@.push(
                Connection { net_id, connection_id: r, source, sink, trace_width, trace_clearance },
            ),
            final(self).nets@ == old(self).nets@,
            final(self).width == old(self).width,
            final(self).height == old(self).height,
    {
        let connection_id = ConnectionID(self.connections.len());
        self.connections.push(
            Connection { net_id, connection_id, source, sink, trace_width, trace_clearance },
        );
        connection_id
    }
}

/// The per-round prior mass `P_k = 2^-k`, as a fraction.
pub open spec fn prior_mass(k: int) -> (int, int) {
    (1, if k == 1 { 2 } else if k == 2 { 4 } else if k == 3 { 8 } else { 16 })
}

/// The number of candidates `N_k` sought per connection in round `k`.
pub open spec fn traces_per_iteration(k: int) -> int {
    if k == 1 { 1 } else if k == 2 { 3 } else if k == 3 { 4 } else { 2 }
}

/// The number of candidates sought per connection in round `iteration`.
pub fn num_traces(iteration: usize) -> (r: usize)
    requires
        1 <= iteration <= MAX_ITERATION,
    ensures
        r == traces_per_iteration(iteration as int),
{
    if iteration == 1 {
        1
    } else if iteration == 2 {
        3
    } else if iteration == 3 {
        4
    } else {
        2
    }
}

/// The normalised prior `P_k / N_k` of a candidate of round `k`, as a
/// fraction `(numerator, denominator)`.
pub fn normalized_prior(iteration: usize) -> (r: (u64, u64))
    requires
        1 <= iteration <= MAX_ITERATION,
    ensures
        r.1 > 0,
        r.0 * prior_mass(iteration as int).1 * traces_per_iteration(iteration as int) == r.1
            * prior_mass(iteration as int).0,
{
    if iteration == 1 {
        (1, 2)
    } else if iteration == 2 {
        (1, 12)
    } else if iteration == 3 {
        (1, 32)
    } else {
        (1, 32)
    }
}

/// The mass not yet handed out before round `next_iteration`:
/// `1 - (P_1 + ... + P_{k-1})`, as a fraction.
pub fn remaining_probability(next_iteration: usize) -> (r: (u64, u64))
    requires
        1 <= next_iteration <= MAX_ITERATION + 1,
    ensures
        r.1 > 0,
        next_iteration == 1 ==> r == (1u64, 1u64),
        next_iteration > 1 ==> r.0 * prior_mass(next_iteration - 1).1 == r.1 * prior_mass(
            next_iteration - 1,
        ).0,
{
    if next_iteration == 1 {
        (1, 1)
    } else if next_iteration == 2 {
        (1, 2)
    } else if next_iteration == 3 {
        (1, 4)
    } else if next_iteration == 4 {
        (1, 8)
    } else {
        (1, 16)
    }
}

/// A candidate trace for a connection, produced in round `iteration`.
#[derive(Debug)]
pub struct ProbaTrace {
    pub net_id: NetID,
    pub connection_id: ConnectionID,
    pub proba_trace_id: ProbaTraceID,
    pub trace_path: TracePath,
    pub iteration: IterationNum,
}

impl ProbaTrace {
    /// Whether the candidate belongs to a connection of the problem, carries
    /// its net and runs from its source pad to its sink pad.
    pub fn fits(&self, problem: &PcbProblem) -> (r: bool)
        ensures
            r == candidate_fits(problem, *self),
    {
        let c = self.connection_id.0;
        if c >= problem.connections.len() {
            return false;
        }
        let conn = &problem.connections[c];
        self.net_id == conn.net_id && self.trace_path.runs_between(
            conn.source.position,
            conn.sink.position,
        )
    }

    /// The candidate's normalised prior `P_k / N_k`, as a fraction.
    pub fn get_normalized_prior(&self) -> (r: (u64, u64))
        requires
            1 <= self.iteration.0 <= MAX_ITERATION,
        ensures
            r.1 > 0,
            r.0 * prior_mass(self.iteration.0 as int).1 * traces_per_iteration(
                self.iteration.0 as int,
            ) == r.1 * prior_mass(self.iteration.0 as int).0,
    {
        normalized_prior(self.iteration.0)
    }
}

/// A trace promoted to a fixed part of the solution.
#[derive(Debug)]
pub struct FixedTrace {
    pub net_id: NetID,
    pub connection_id: ConnectionID,
    pub trace_path: TracePath,
}

/// A queue entry ordered by `key` alone.
#[derive(Debug, Clone, Copy)]
pub struct BinaryHeapItem<T, U> {
    pub key: T,
    pub value: U,
}

/// One level of the backtracking search: the fixed traces and the
/// remaining candidates, both as indices into the search's trace pool, with
/// candidates keyed by an order-preserving encoding of their posterior.
pub struct Node {
    pub remaining_trace_candidates: Vec<BinaryHeapItem<u64, usize>>,
    pub fixed_traces: Vec<usize>,
    pub prob_up_to_date: bool,
}

/// The fixed traces of the solution, one per connection.
pub struct PcbSolution {
    pub determined_traces: Vec<FixedTrace>,
}

/// Why the solver stopped without a solution.
#[derive(Debug, Clone, Copy, PartialEq, Eq, Structural)]
pub enum SolveError {
    /// The stack emptied: every branch was exhausted.
    NoSolution,
    /// The step budget ran out first.
    BudgetExhausted,
}

/// The segment predicate may be called on any pair.
pub open spec fn seg_callable<C: Fn(TraceSegment, TraceSegment) -> bool>(c: C) -> bool {
    forall|a: TraceSegment, b: TraceSegment| c.requires((a, b))
}

/// All indices point into the pool, fixed traces belong to distinct
/// connections, and each fixed trace was judged clear of every earlier one.
pub open spec fn node_wf<C: Fn(TraceSegment, TraceSegment) -> bool>(
    n: &Node,
    pool: Seq<ProbaTrace>,
    c: C,
) -> bool {
    &&& forall|i: int|
        0 <= i < n.remaining_trace_candidates@.len()
            ==> (#[trigger] n.remaining_trace_candidates@[i]).value < pool.len()
    &&& forall|i: int| 0 <= i < n.fixed_traces@.len() ==> #[trigger] n.fixed_traces@[i] < pool.len()
    &&& forall|i: int, j: int|
        0 <= i < j < n.fixed_traces@.len() ==> pool[n.fixed_traces@[i] as int].connection_id
            != pool[n.fixed_traces@[j] as int].connection_id
    &&& forall|i: int, j: int|
        0 <= i < j < n.fixed_traces@.len() ==> paths_clear(
            pool[n.fixed_traces@[j] as int].trace_path.segments@,
            pool[n.fixed_traces@[i] as int].trace_path.segments@,
            c,
        )
}

/// `longer` keeps every entry of `shorter` in place.
pub open spec fn pool_extends(shorter: Seq<ProbaTrace>, longer: Seq<ProbaTrace>) -> bool {
    &&& shorter.len() <= longer.len()
    &&& forall|i: int| 0 <= i < shorter.len() ==> #[trigger] longer[i] == shorter[i]
}

proof fn lemma_node_wf_extends<C: Fn(TraceSegment, TraceSegment) -> bool>(
    n: &Node,
    pool: Seq<ProbaTrace>,
    pool2: Seq<ProbaTrace>,
    c: C,
)
    requires
        node_wf(n, pool, c),
        pool_extends(pool, pool2),
    ensures
        node_wf(n, pool2, c),
{
    assert forall|i: int, j: int| 0 <= i < j < n.fixed_traces@.len() implies pool2[n.fixed_traces@[i] as int].connection_id
        != pool2[n.fixed_traces@[j] as int].connection_id && paths_clear(
        pool2[n.fixed_traces@[j] as int].trace_path.segments@,
        pool2[n.fixed_traces@[i] as int].trace_path.segments@,
        c,
    ) by {
        assert(n.fixed_traces@[i] < pool.len());
        assert(n.fixed_traces@[j] < pool.len());
        assert(pool2[n.fixed_traces@[i] as int] == pool[n.fixed_traces@[i] as int]);
        assert(pool2[n.fixed_traces@[j] as int] == pool[n.fixed_traces@[j] as int]);
    }
}

/// Entry `k` has the largest key.
pub open spec fn is_top(rem: Seq<BinaryHeapItem<u64, usize>>, k: int) -> bool {
    &&& 0 <= k < rem.len()
    &&& forall|m: int| 0 <= m < rem.len() ==> (#[trigger] rem[m]).key <= rem[k].key
}

/// The pool entry `v` cannot join the node's fixed traces: its connection
/// is already fixed, or its path was judged to collide with a fixed trace.
pub open spec fn top_blocked<C: Fn(TraceSegment, TraceSegment) -> bool>(
    n: &Node,
    pool: Seq<ProbaTrace>,
    c: C,
    v: usize,
) -> bool {
    ||| exists|m: int|
        0 <= m < n.fixed_traces@.len() && pool[n.fixed_traces@[m] as int].connection_id
            == pool[v as int].connection_id
    ||| exists|m: int|
        0 <= m < n.fixed_traces@.len() && segments_collide_somewhere(
            pool[v as int].trace_path.segments@,
            pool[n.fixed_traces@[m] as int].trace_path.segments@,
            c,
        )
}

/// The pool entry `v` may join the node's fixed traces: its connection is
/// not fixed yet and its path was judged clear of every fixed trace.
pub open spec fn clear_of_fixed<C: Fn(TraceSegment, TraceSegment) -> bool>(
    n: &Node,
    pool: Seq<ProbaTrace>,
    c: C,
    v: usize,
) -> bool {
    forall|m: int|
        0 <= m < n.fixed_traces@.len() ==> pool[n.fixed_traces@[m] as int].connection_id
            != pool[v as int].connection_id && paths_clear(
            pool[v as int].trace_path.segments@,
            pool[n.fixed_traces@[m] as int].trace_path.segments@,
            c,
        )
}

/// `to` holds exactly the entries of `from` whose candidate belongs to a
/// connection other than `cid`.
pub open spec fn removes_connection(
    from: Seq<BinaryHeapItem<u64, usize>>,
    to: Seq<BinaryHeapItem<u64, usize>>,
    pool: Seq<ProbaTrace>,
    cid: ConnectionID,
) -> bool {
    &&& forall|i: int|
        0 <= i < to.len() ==> from.contains(#[trigger] to[i]) && pool[to[i].value as int].connection_id
            != cid
    &&& forall|i: int|
        0 <= i < from.len() && pool[(#[trigger] from[i]).value as int].connection_id != cid
            ==> to.contains(from[i])
}

/// One fix attempt on node `old` took its top candidate `k` off, leaving
/// `rem_after`; it fixed the candidate in a new node without the rival
/// candidates of its connection when the candidate was clear of the fixed
/// traces, and gave `None` when it was blocked.
pub open spec fn fix_attempt<C: Fn(TraceSegment, TraceSegment) -> bool>(
    old: &Node,
    rem_after: Seq<BinaryHeapItem<u64, usize>>,
    r: Option<Node>,
    pool: Seq<ProbaTrace>,
    c: C,
    k: int,
) -> bool {
    let v = old.remaining_trace_candidates@[k].value;
    &&& is_top(old.remaining_trace_candidates@, k)
    &&& rem_after == old.remaining_trace_candidates@.remove(k)
    &&& match r {
        Some(n) => {
            &&& n.fixed_traces@ == old.fixed_traces@.push(v)
            &&& removes_connection(rem_after, n.remaining_trace_candidates@, pool, pool[v as int].connection_id)
            &&& clear_of_fixed(old, pool, c, v)
        },
        None => top_blocked(old, pool, c, v),
    }
    &&& functional(c) ==> (r.is_none() <==> top_blocked(old, pool, c, v))
}

/// A candidate belongs to a connection of the problem, carries that
/// connection's net, and runs from its source pad to its sink pad.
pub open spec fn candidate_fits(problem: &PcbProblem, t: ProbaTrace) -> bool {
    let a = t.trace_path.anchors.0@;
    &&& t.connection_id.0 < problem.connections@.len()
    &&& t.net_id == problem.connections@[t.connection_id.0 as int].net_id
    &&& a.len() >= 1
    &&& a[0] == problem.connections@[t.connection_id.0 as int].source.position
    &&& a[a.len() - 1] == problem.connections@[t.connection_id.0 as int].sink.position
}

pub open spec fn pool_ok(problem: &PcbProblem, pool: Seq<ProbaTrace>) -> bool {
    forall|i: int| 0 <= i < pool.len() ==> #[trigger] candidate_fits(problem, pool[i])
}

/// `v` holds copies of the pool entries `fixed`, in order.
pub open spec fn copies_of(v: Seq<FixedTrace>, fixed: Seq<usize>, pool: Seq<ProbaTrace>) -> bool {
    &&& v.len() == fixed.len()
    &&& forall|i: int|
        0 <= i < fixed.len() ==> (#[trigger] v[i]).connection_id == pool[fixed[i] as int].connection_id
            && v[i].net_id == pool[fixed[i] as int].net_id && v[i].trace_path.segments@
            == pool[fixed[i] as int].trace_path.segments@ && v[i].trace_path.anchors.0@
            == pool[fixed[i] as int].trace_path.anchors.0@
}

/// The connection ids of the traces a node has fixed.
pub open spec fn fixed_connection(n: &Node, pool: Seq<ProbaTrace>, k: int) -> ConnectionID {
    pool[n.fixed_traces@[k] as int].connection_id
}

/// The node has a fixed trace for connection `cid`.
pub open spec fn connection_fixed(n: &Node, pool: Seq<ProbaTrace>, cid: ConnectionID) -> bool {
    exists|k: int| 0 <= k < n.fixed_traces@.len() && #[trigger] fixed_connection(n, pool, k) == cid
}

/// Every connection of the problem has a fixed trace in the node.
pub open spec fn covers(problem: &PcbProblem, n: &Node, pool: Seq<ProbaTrace>) -> bool {
    forall|i: int|
        0 <= i < problem.connections@.len() ==> #[trigger] connection_fixed(
            n,
            pool,
            problem.connections@[i].connection_id,
        )
}

fn copy_indices(v: &Vec<usize>) -> (r: Vec<usize>)
    ensures
        r@ == v@,
{
    let mut r: Vec<usize> = Vec::new();
    let mut i: usize = 0;
    while i < v.len()
        invariant
            0 <= i <= v@.len(),
            r@ == v@.subrange(0, i as int),
        decreases v@.len() - i,
    {
        r.push(v[i]);
        i += 1;
    }
    assert(r@ =~= v@);
    r
}

fn copy_candidates(v: &Vec<BinaryHeapItem<u64, usize>>) -> (r: Vec<BinaryHeapItem<u64, usize>>)
    ensures
        r@ == v@,
{
    let mut r: Vec<BinaryHeapItem<u64, usize>> = Vec::new();
    let mut i: usize = 0;
    while i < v.len()
        invariant
            0 <= i <= v@.len(),
            r@ == v@.subrange(0, i as int),
        decreases v@.len() - i,
    {
        let item = BinaryHeapItem { key: v[i].key, value: v[i].value };
        r.push(item);
        i += 1;
    }
    assert(r@ =~= v@);
    r
}

impl Node {
    /// A node whose model was just solved.
    pub fn from_candidates(
        fixed_traces: Vec<usize>,
        remaining_trace_candidates: Vec<BinaryHeapItem<u64, usize>>,
    ) -> (r: Node)
        ensures
            r.fixed_traces@ == fixed_traces@,
            r.remaining_trace_candidates@ == remaining_trace_candidates@,
            r.prob_up_to_date,
    {
        Node { remaining_trace_candidates, fixed_traces, prob_up_to_date: true }
    }

    pub fn copy(&self) -> (r: Node)
        ensures
            r.fixed_traces@ == self.fixed_traces@,
            r.remaining_trace_candidates@ == self.remaining_trace_candidates@,
            r.prob_up_to_date == self.prob_up_to_date,
    {
        Node {
            remaining_trace_candidates: copy_candidates(&self.remaining_trace_candidates),
            fixed_traces: copy_indices(&self.fixed_traces),
            prob_up_to_date: self.prob_up_to_date,
        }
    }

    /// Removes and returns the candidate with the largest key (the earliest
    /// such one on ties).
    pub fn pop_top(&mut self) -> (r: Option<BinaryHeapItem<u64, usize>>)
        ensures
            match r {
                None => old(self).remaining_trace_candidates@.len() == 0 && *final(self) == *old(self),
                Some(item) => exists|k: int|
                    0 <= k < old(self).remaining_trace_candidates@.len()
                        && old(self).remaining_trace_candidates@[k] == item
                        && final(self).remaining_trace_candidates@
                        == old(self).remaining_trace_candidates@.remove(k) && (forall|m: int|
                        0 <= m < old(self).remaining_trace_candidates@.len() ==> (
                        #[trigger] old(self).remaining_trace_candidates@[m]).key <= item.key),
            },
            final(self).fixed_traces@ == old(self).fixed_traces@,
            final(self).prob_up_to_date == old(self).prob_up_to_date,
    {
        if self.remaining_trace_candidates.len() == 0 {
            return None;
        }
        let mut best: usize = 0;
        let mut i: usize = 1;
        while i < self.remaining_trace_candidates.len()
            invariant
                0 < i <= self.remaining_trace_candidates@.len(),
                best < self.remaining_trace_candidates@.len(),
                forall|m: int|
                    0 <= m < i ==> (#[trigger] self.remaining_trace_candidates@[m]).key
                        <= self.remaining_trace_candidates@[best as int].key,
            decreases self.remaining_trace_candidates@.len() - i,
        {
            if self.remaining_trace_candidates[i].key > self.remaining_trace_candidates[best].key {
                best = i;
            }
            i += 1;
        }
        let item = self.remaining_trace_candidates.remove(best);
        Some(item)
    }

    /// Promotes the pool entry `index` to a fixed trace and drops the other
    /// candidates of its connection; the model is then out of date.
    pub fn fix_trace(&mut self, index: usize, pool: &Vec<ProbaTrace>)
        requires
            index < pool@.len(),
            forall|i: int|
                0 <= i < old(self).remaining_trace_candidates@.len() ==> (#[trigger] old(self).remaining_trace_candidates@[i]).value < pool@.len(),
        ensures
            final(self).fixed_traces@ == old(self).fixed_traces@.push(index),
            !final(self).prob_up_to_date,
            forall|i: int|
                0 <= i < final(self).remaining_trace_candidates@.len() ==> old(self).remaining_trace_candidates@.contains(
                    #[trigger] final(self).remaining_trace_candidates@[i],
                ) && pool@[final(self).remaining_trace_candidates@[i].value as int].connection_id
                    != pool@[index as int].connection_id,
            forall|i: int|
                0 <= i < old(self).remaining_trace_candidates@.len() && pool@[(#[trigger] old(self).remaining_trace_candidates@[i]).value as int].connection_id
                    != pool@[index as int].connection_id ==> final(self).remaining_trace_candidates@.contains(old(self).remaining_trace_candidates@[i]),
    {
        let connection_id = pool[index].connection_id;
        self.fixed_traces.push(index);
        let mut kept: Vec<BinaryHeapItem<u64, usize>> = Vec::new();
        let mut i: usize = 0;
        let ghost before = self.remaining_trace_candidates@;
        while i < self.remaining_trace_candidates.len()
            invariant
                0 <= i <= before.len(),
                self.remaining_trace_candidates@ == before,
                connection_id == pool@[index as int].connection_id,
                forall|k: int| 0 <= k < before.len() ==> (#[trigger] before[k]).value < pool@.len(),
                forall|k: int|
                    0 <= k < kept@.len() ==> before.contains(#[trigger] kept@[k])
                        && pool@[kept@[k].value as int].connection_id != connection_id,
                forall|k: int|
                    0 <= k < i && pool@[(#[trigger] before[k]).value as int].connection_id
                        != connection_id ==> kept@.contains(before[k]),
            decreases before.len() - i,
        {
            let item = BinaryHeapItem {
                key: self.remaining_trace_candidates[i].key,
                value: self.remaining_trace_candidates[i].value,
            };
            if pool[item.value].connection_id != connection_id {
                let ghost old_kept = kept@;
                kept.push(item);
                assert(kept@[kept@.len() - 1] == before[i as int]);
                assert forall|x: BinaryHeapItem<u64, usize>| old_kept.contains(x) implies kept@.contains(x) by {
                    let m = choose|m: int| 0 <= m < old_kept.len() && old_kept[m] == x;
                    assert(kept@[m] == x);
                }
                assert forall|k: int| 0 <= k < kept@.len() implies before.contains(#[trigger] kept@[k])
                    && pool@[kept@[k].value as int].connection_id != connection_id by {
                    if k < old_kept.len() {
                        assert(kept@[k] == old_kept[k]);
                    } else {
                        assert(before[i as int] == kept@[k]);
                    }
                }
            }
            i += 1;
        }
        self.remaining_trace_candidates = kept;
        self.prob_up_to_date = false;
    }

    /// Pops the top-ranked candidate. When it belongs to a connection not yet
    /// fixed and collides with no fixed trace, returns a copy of this node
    /// with it fixed; otherwise the candidate is discarded.
    pub fn try_fix_top_ranked_trace<C: Fn(TraceSegment, TraceSegment) -> bool>(
        &mut self,
        pool: &Vec<ProbaTrace>,
        segments_collide: &C,
    ) -> (r: Option<Node>)
        requires
            seg_callable(*segments_collide),
            node_wf(old(self), pool@, *segments_collide),
        ensures
            node_wf(final(self), pool@, *segments_collide),
            final(self).fixed_traces@ == old(self).fixed_traces@,
            final(self).prob_up_to_date == old(self).prob_up_to_date,
            final(self).remaining_trace_candidates@.len() < old(self).remaining_trace_candidates@.len()
                || old(self).remaining_trace_candidates@.len() == 0,
            match r {
                Some(n) => {
                    &&& node_wf(&n, pool@, *segments_collide)
                    &&& !n.prob_up_to_date
                    &&& n.fixed_traces@.len() == old(self).fixed_traces@.len() + 1
                    &&& n.fixed_traces@.subrange(0, old(self).fixed_traces@.len() as int)
                        == old(self).fixed_traces@
                    &&& exists|k: int|
                        is_top(old(self).remaining_trace_candidates@, k)
                            && old(self).remaining_trace_candidates@[k].value
                            == n.fixed_traces@.last()
                },
                None => old(self).remaining_trace_candidates@.len() == 0 || exists|k: int|
                    is_top(old(self).remaining_trace_candidates@, k) && top_blocked(
                        old(self),
                        pool@,
                        *segments_collide,
                        old(self).remaining_trace_candidates@[k].value,
                    ),
            },
            old(self).remaining_trace_candidates@.len() == 0 ==> r.is_none()
                && final(self).remaining_trace_candidates@ == old(self).remaining_trace_candidates@,
            old(self).remaining_trace_candidates@.len() > 0 ==> exists|k: int|
                fix_attempt(
                    old(self),
                    final(self).remaining_trace_candidates@,
                    r,
                    pool@,
                    *segments_collide,
                    k,
                ),
    {
        let ghost old_node = *self;
        let top = match self.pop_top() {
            Some(item) => item,
            None => { return None; },
        };
        let index = top.value;
        let ghost k_top: int = choose|k: int|
            0 <= k < old_node.remaining_trace_candidates@.len()
                && old_node.remaining_trace_candidates@[k] == top
                && self.remaining_trace_candidates@
                == old_node.remaining_trace_candidates@.remove(k) && (forall|m: int|
                0 <= m < old_node.remaining_trace_candidates@.len() ==> (
                #[trigger] old_node.remaining_trace_candidates@[m]).key <= top.key);
        assert(is_top(old_node.remaining_trace_candidates@, k_top));
        proof {
            let k = choose|k: int|
                0 <= k < old_node.remaining_trace_candidates@.len()
                    && old_node.remaining_trace_candidates@[k] == top
                    && self.remaining_trace_candidates@
                    == old_node.remaining_trace_candidates@.remove(k) && (forall|m: int|
                    0 <= m < old_node.remaining_trace_candidates@.len() ==> (
                    #[trigger] old_node.remaining_trace_candidates@[m]).key <= top.key);
            assert(old_node.remaining_trace_candidates@[k].value < pool@.len());
            assert forall|i: int|
                0 <= i < self.remaining_trace_candidates@.len() implies (
                #[trigger] self.remaining_trace_candidates@[i]).value < pool@.len() by {
                if i < k {
                    assert(self.remaining_trace_candidates@[i] == old_node.remaining_trace_candidates@[i]);
                } else {
                    assert(self.remaining_trace_candidates@[i] == old_node.remaining_trace_candidates@[i + 1]);
                }
            }
        }
        let connection_id = pool[index].connection_id;
        let mut k: usize = 0;
        while k < self.fixed_traces.len()
            invariant
                0 <= k <= self.fixed_traces@.len(),
                index < pool@.len(),
                connection_id == pool@[index as int].connection_id,
                node_wf(self, pool@, *segments_collide),
                self.fixed_traces@ == old(self).fixed_traces@,
                self.prob_up_to_date == old(self).prob_up_to_date,
                self.remaining_trace_candidates@.len() < old(self).remaining_trace_candidates@.len(),
                old_node == *old(self),
                is_top(old_node.remaining_trace_candidates@, k_top),
                old_node.remaining_trace_candidates@[k_top].value == index,
                self.remaining_trace_candidates@ == old_node.remaining_trace_candidates@.remove(k_top),
                seg_callable(*segments_collide),
                forall|m: int|
                    0 <= m < k ==> pool@[(#[trigger] self.fixed_traces@[m]) as int].connection_id
                        != connection_id && paths_clear(
                        pool@[index as int].trace_path.segments@,
                        pool@[self.fixed_traces@[m] as int].trace_path.segments@,
                        *segments_collide,
                    ),
            decreases self.fixed_traces@.len() - k,
        {
            let f = self.fixed_traces[k];
            if pool[f].connection_id == connection_id {
                assert(top_blocked(&old_node, pool@, *segments_collide, index)) by {
                    assert(pool@[old_node.fixed_traces@[k as int] as int].connection_id
                        == pool@[index as int].connection_id);
                }
                assert(fix_attempt(&old_node, self.remaining_trace_candidates@, None, pool@, *segments_collide, k_top));
                return None;
            }
            if pool[index].trace_path.collides_with(&pool[f].trace_path, segments_collide) {
                assert(top_blocked(&old_node, pool@, *segments_collide, index)) by {
                    assert(segments_collide_somewhere(
                        pool@[index as int].trace_path.segments@,
                        pool@[old_node.fixed_traces@[k as int] as int].trace_path.segments@,
                        *segments_collide,
                    ));
                }
                assert(fix_attempt(&old_node, self.remaining_trace_candidates@, None, pool@, *segments_collide, k_top));
                return None;
            }
            k += 1;
        }
        let mut new_node = self.copy();
        new_node.fix_trace(index, pool);
        proof {
            let n = new_node;
            let len = self.fixed_traces@.len();
            assert forall|i: int, j: int| 0 <= i < j < n.fixed_traces@.len() implies pool@[n.fixed_traces@[i] as int].connection_id
                != pool@[n.fixed_traces@[j] as int].connection_id && paths_clear(
                pool@[n.fixed_traces@[j] as int].trace_path.segments@,
                pool@[n.fixed_traces@[i] as int].trace_path.segments@,
                *segments_collide,
            ) by {
                assert(n.fixed_traces@[i] == self.fixed_traces@[i]);
                if j < len {
                    assert(n.fixed_traces@[j] == self.fixed_traces@[j]);
                } else {
                    assert(n.fixed_traces@[j] == index);
                }
            }
            assert forall|i: int| 0 <= i < n.remaining_trace_candidates@.len() implies (
            #[trigger] n.remaining_trace_candidates@[i]).value < pool@.len() by {
                let it = n.remaining_trace_candidates@[i];
                assert(self.remaining_trace_candidates@.contains(it));
                let m = choose|m: int| 0 <= m < self.remaining_trace_candidates@.len() && self.remaining_trace_candidates@[m] == it;
                assert(self.remaining_trace_candidates@[m].value < pool@.len());
            }
            assert(n.fixed_traces@.subrange(0, len as int) =~= self.fixed_traces@);
            assert(n.fixed_traces@ =~= old_node.fixed_traces@.push(index));
            assert(clear_of_fixed(&old_node, pool@, *segments_collide, index));
            if functional(*segments_collide) && top_blocked(&old_node, pool@, *segments_collide, index) {
                if exists|m: int|
                    0 <= m < old_node.fixed_traces@.len() && pool@[old_node.fixed_traces@[m] as int].connection_id
                        == pool@[index as int].connection_id {
                    let m = choose|m: int|
                        0 <= m < old_node.fixed_traces@.len() && pool@[old_node.fixed_traces@[m] as int].connection_id
                            == pool@[index as int].connection_id;
                    assert(pool@[self.fixed_traces@[m] as int].connection_id != connection_id);
                } else {
                    let m = choose|m: int|
                        0 <= m < old_node.fixed_traces@.len() && segments_collide_somewhere(
                            pool@[index as int].trace_path.segments@,
                            pool@[old_node.fixed_traces@[m] as int].trace_path.segments@,
                            *segments_collide,
                        );
                    let a = pool@[index as int].trace_path.segments@;
                    let b = pool@[old_node.fixed_traces@[m] as int].trace_path.segments@;
                    let (i, j) = choose|i: int, j: int|
                        0 <= i < a.len() && 0 <= j < b.len() && #[trigger] segments_collide.ensures((a[i], b[j]), true);
                    assert(paths_clear(a, b, *segments_collide));
                    assert(segments_collide.ensures((a[i], b[j]), false));
                }
            }
            assert(fix_attempt(&old_node, self.remaining_trace_candidates@, Some(new_node), pool@, *segments_collide, k_top));
        }
        Some(new_node)
    }

    /// Pops candidates, best first, until one can be fixed; `None` once the
    /// candidates run out.
    pub fn try_fix_any_trace<C: Fn(TraceSegment, TraceSegment) -> bool>(
        &mut self,
        pool: &Vec<ProbaTrace>,
        segments_collide: &C,
    ) -> (r: Option<Node>)
        requires
            seg_callable(*segments_collide),
            node_wf(old(self), pool@, *segments_collide),
        ensures
            node_wf(final(self), pool@, *segments_collide),
            final(self).fixed_traces@ == old(self).fixed_traces@,
            match r {
                Some(n) => {
                    &&& node_wf(&n, pool@, *segments_collide)
                    &&& !n.prob_up_to_date
                    &&& n.fixed_traces@.len() == old(self).fixed_traces@.len() + 1
                    &&& n.fixed_traces@.subrange(0, old(self).fixed_traces@.len() as int)
                        == old(self).fixed_traces@
                },
                None => final(self).remaining_trace_candidates@.len() == 0 && forall|i: int|
                    0 <= i < old(self).remaining_trace_candidates@.len() ==> #[trigger] top_blocked(
                        old(self),
                        pool@,
                        *segments_collide,
                        old(self).remaining_trace_candidates@[i].value,
                    ),
            },
    {
        while self.remaining_trace_candidates.len() > 0
            invariant
                seg_callable(*segments_collide),
                node_wf(self, pool@, *segments_collide),
                self.fixed_traces@ == old(self).fixed_traces@,
                forall|i: int|
                    0 <= i < old(self).remaining_trace_candidates@.len() ==> self.remaining_trace_candidates@.contains(
                        old(self).remaining_trace_candidates@[i],
                    ) || #[trigger] top_blocked(
                        old(self),
                        pool@,
                        *segments_collide,
                        old(self).remaining_trace_candidates@[i].value,
                    ),
            decreases self.remaining_trace_candidates@.len(),
        {
            let ghost before = *self;
            let attempt = self.try_fix_top_ranked_trace(pool, segments_collide);
            if let Some(n) = attempt {
                return Some(n);
            }
            proof {
                let k = choose|k: int| fix_attempt(&before, self.remaining_trace_candidates@, attempt, pool@, *segments_collide, k);
                let v = before.remaining_trace_candidates@[k];
                assert(top_blocked(&before, pool@, *segments_collide, v.value));
                assert forall|i: int|
                    0 <= i < old(self).remaining_trace_candidates@.len() implies self.remaining_trace_candidates@.contains(
                        old(self).remaining_trace_candidates@[i],
                    ) || #[trigger] top_blocked(
                        old(self),
                        pool@,
                        *segments_collide,
                        old(self).remaining_trace_candidates@[i].value,
                    ) by {
                    let x = old(self).remaining_trace_candidates@[i];
                    if before.remaining_trace_candidates@.contains(x) {
                        let j = choose|j: int| 0 <= j < before.remaining_trace_candidates@.len() && before.remaining_trace_candidates@[j] == x;
                        if j < k {
                            assert(self.remaining_trace_candidates@[j] == x);
                        } else if j > k {
                            assert(self.remaining_trace_candidates@[j - 1] == x);
                        } else {
                            assert(x == v);
                        }
                    }
                }
            }
        }
        None
    }

    /// Whether every connection of the problem has a fixed trace here.
    pub fn is_solution(&self, problem: &PcbProblem, pool: &Vec<ProbaTrace>) -> (r: bool)
        requires
            forall|i: int| 0 <= i < self.fixed_traces@.len() ==> #[trigger] self.fixed_traces@[i] < pool@.len(),
        ensures
            r == covers(problem, self, pool@),
    {
        let mut i: usize = 0;
        while i < problem.connections.len()
            invariant
                0 <= i <= problem.connections@.len(),
                forall|m: int| 0 <= m < self.fixed_traces@.len() ==> #[trigger] self.fixed_traces@[m] < pool@.len(),
                forall|c: int|
                    0 <= c < i ==> #[trigger] connection_fixed(self, pool@, problem.connections@[c].connection_id),
            decreases problem.connections@.len() - i,
        {
            let target = problem.connections[i].connection_id;
            let mut found = false;
            let mut k: usize = 0;
            while k < self.fixed_traces.len()
                invariant
                    0 <= k <= self.fixed_traces@.len(),
                    0 <= i < problem.connections@.len(),
                    target == problem.connections@[i as int].connection_id,
                    forall|c: int|
                        0 <= c < i ==> #[trigger] connection_fixed(self, pool@, problem.connections@[c].connection_id),
                    forall|m: int| 0 <= m < self.fixed_traces@.len() ==> #[trigger] self.fixed_traces@[m] < pool@.len(),
                    found ==> exists|kk: int|
                        0 <= kk < self.fixed_traces@.len() && #[trigger] fixed_connection(self, pool@, kk) == target,
                    !found ==> forall|kk: int|
                        0 <= kk < k ==> #[trigger] fixed_connection(self, pool@, kk) != target,
                decreases self.fixed_traces@.len() - k,
            {
                if pool[self.fixed_traces[k]].connection_id == target {
                    found = true;
                    assert(fixed_connection(self, pool@, k as int) == target);
                }
                k += 1;
            }
            if !found {
                assert(!connection_fixed(self, pool@, problem.connections@[i as int].connection_id));
                return false;
            }
            assert(connection_fixed(self, pool@, problem.connections@[i as int].connection_id));
            i += 1;
        }
        true
    }
}

/// A fixed trace belongs to a connection of the problem, carries that
/// connection's net, and runs from its source pad to its sink pad.
pub open spec fn fixed_fits(problem: &PcbProblem, t: FixedTrace) -> bool {
    let a = t.trace_path.anchors.0@;
    &&& t.connection_id.0 < problem.connections@.len()
    &&& t.net_id == problem.connections@[t.connection_id.0 as int].net_id
    &&& a.len() >= 1
    &&& a[0] == problem.connections@[t.connection_id.0 as int].source.position
    &&& a[a.len() - 1] == problem.connections@[t.connection_id.0 as int].sink.position
}

/// Some trace of `d` belongs to connection `cid`.
pub open spec fn has_connection(d: Seq<FixedTrace>, cid: ConnectionID) -> bool {
    exists|k: int| 0 <= k < d.len() && #[trigger] d[k].connection_id == cid
}

/// Owned copies of the pool entries `fixed`, as fixed traces.
fn fixed_traces_of(fixed: &Vec<usize>, pool: &Vec<ProbaTrace>) -> (r: Vec<FixedTrace>)
    requires
        forall|i: int| 0 <= i < fixed@.len() ==> #[trigger] fixed@[i] < pool@.len(),
    ensures
        r@.len() == fixed@.len(),
        forall|i: int|
            0 <= i < fixed@.len() ==> (#[trigger] r@[i]).connection_id
                == pool@[fixed@[i] as int].connection_id && r@[i].net_id
                == pool@[fixed@[i] as int].net_id && r@[i].trace_path.segments@
                == pool@[fixed@[i] as int].trace_path.segments@ && r@[i].trace_path.anchors.0@
                == pool@[fixed@[i] as int].trace_path.anchors.0@,
{
    let mut r: Vec<FixedTrace> = Vec::new();
    let mut i: usize = 0;
    while i < fixed.len()
        invariant
            0 <= i <= fixed@.len(),
            r@.len() == i,
            forall|m: int| 0 <= m < fixed@.len() ==> #[trigger] fixed@[m] < pool@.len(),
            forall|m: int|
                0 <= m < i ==> (#[trigger] r@[m]).connection_id
                    == pool@[fixed@[m] as int].connection_id && r@[m].net_id
                    == pool@[fixed@[m] as int].net_id && r@[m].trace_path.segments@
                    == pool@[fixed@[m] as int].trace_path.segments@ && r@[m].trace_path.anchors.0@
                    == pool@[fixed@[m] as int].trace_path.anchors.0@,
        decreases fixed@.len() - i,
    {
        let t = &pool[fixed[i]];
        r.push(
            FixedTrace {
                net_id: t.net_id,
                connection_id: t.connection_id,
                trace_path: t.trace_path.duplicate(),
            },
        );
        i += 1;
    }
    r
}

impl Node {
    /// A node for the fixed traces `fixed_traces` (pool indices), with the
    /// probabilistic model solved afresh: the outside solver `resolve`
    /// receives copies of the fixed traces and hands back candidates with
    /// their keys, which join the pool.
    pub fn from_fixed_traces<R: Fn(Vec<FixedTrace>) -> Vec<BinaryHeapItem<u64, ProbaTrace>>>(
        problem: &PcbProblem,
        fixed_traces: Vec<usize>,
        pool: &mut Vec<ProbaTrace>,
        resolve: &R,
    ) -> (r: Node)
        requires
            forall|v: Vec<FixedTrace>| copies_of(v@, fixed_traces@, old(pool)@) ==> resolve.requires((v,)),
            forall|i: int| 0 <= i < fixed_traces@.len() ==> #[trigger] fixed_traces@[i] < old(pool)@.len(),
            pool_ok(problem, old(pool)@),
        ensures
            pool_extends(old(pool)@, final(pool)@),
            pool_ok(problem, final(pool)@),
            r.fixed_traces@ == fixed_traces@,
            r.prob_up_to_date,
            forall|i: int|
                0 <= i < r.remaining_trace_candidates@.len() ==> (
                #[trigger] r.remaining_trace_candidates@[i]).value < final(pool)@.len(),
    {
        let given = fixed_traces_of(&fixed_traces, pool);
        assert(copies_of(given@, fixed_traces@, pool@));
        let mut fresh = resolve(given);
        let mut candidates: Vec<BinaryHeapItem<u64, usize>> = Vec::new();
        let ghost start = pool@;
        while fresh.len() > 0
            invariant
                pool_extends(start, pool@),
                pool_ok(problem, pool@),
                forall|i: int|
                    0 <= i < candidates@.len() ==> (#[trigger] candidates@[i]).value < pool@.len(),
            decreases fresh@.len(),
        {
            let item = fresh.pop().unwrap();
            if item.value.fits(problem) {
                let index = pool.len();
                let ghost before = pool@;
                pool.push(item.value);
                assert forall|i: int| 0 <= i < pool@.len() implies #[trigger] candidate_fits(problem, pool@[i]) by {
                    if i < before.len() {
                        assert(pool@[i] == before[i]);
                    }
                }
                candidates.push(BinaryHeapItem { key: item.key, value: index });
            }
        }
        Node::from_candidates(fixed_traces, candidates)
    }

    /// A node with this node's fixed traces and its model solved afresh;
    /// `None` when this node's model is already up to date.
    pub fn try_update_proba_model<R: Fn(Vec<FixedTrace>) -> Vec<BinaryHeapItem<u64, ProbaTrace>>>(
        &self,
        problem: &PcbProblem,
        pool: &mut Vec<ProbaTrace>,
        resolve: &R,
    ) -> (r: Option<Node>)
        requires
            forall|v: Vec<FixedTrace>| copies_of(v@, self.fixed_traces@, old(pool)@) ==> resolve.requires((v,)),
            forall|i: int| 0 <= i < self.fixed_traces@.len() ==> #[trigger] self.fixed_traces@[i] < old(pool)@.len(),
            pool_ok(problem, old(pool)@),
        ensures
            pool_extends(old(pool)@, final(pool)@),
            pool_ok(problem, final(pool)@),
            r.is_none() == self.prob_up_to_date,
            match r {
                Some(n) => {
                    &&& n.fixed_traces@ == self.fixed_traces@
                    &&& n.prob_up_to_date
                    &&& forall|i: int|
                        0 <= i < n.remaining_trace_candidates@.len() ==> (
                        #[trigger] n.remaining_trace_candidates@[i]).value < final(pool)@.len()
                },
                None => true,
            },
    {
        if self.prob_up_to_date {
            return None;
        }
        let fixed = copy_indices(&self.fixed_traces);
        Some(Node::from_fixed_traces(problem, fixed, pool, resolve))
    }
}

/// The up-to-date flags of a stack of nodes.
pub open spec fn flags_of(s: Seq<Node>) -> Seq<bool> {
    Seq::new(s.len(), |i: int| s[i].prob_up_to_date)
}

/// The highest index at or below `i` whose flag is set, or zero.
pub open spec fn last_up(flags: Seq<bool>, i: int) -> int
    decreases i + 1,
{
    if i < 0 {
        0
    } else if flags[i] {
        i
    } else {
        last_up(flags, i - 1)
    }
}

/// The node a discard re-solves at: half-way, rounding up, between the
/// highest up-to-date node `L` and the top, `L + ceil((top - L) / 2)`.
pub open spec fn resolve_target(s: Seq<Node>) -> int {
    let top = s.len() - 1;
    let l = last_up(flags_of(s), top);
    l + (top - l + 1) / 2
}

/// The highest index of a node whose model is up to date, or zero.
pub fn last_updated_node_index(stack: &Vec<Node>) -> (r: usize)
    requires
        stack@.len() > 0,
    ensures
        r < stack@.len(),
        r == last_up(flags_of(stack@), stack@.len() - 1),
{
    let ghost flags = flags_of(stack@);
    let mut i: usize = stack.len();
    while i > 0
        invariant
            0 <= i <= stack@.len(),
            flags == flags_of(stack@),
            last_up(flags, stack@.len() - 1) == last_up(flags, i - 1),
        decreases i,
    {
        if stack[i - 1].prob_up_to_date {
            return i - 1;
        }
        i -= 1;
    }
    0
}

/// What one backtracking step returned.
#[derive(Debug, Clone, Copy, PartialEq, Eq, Structural)]
pub enum StepOutcome {
    /// The stack was empty.
    Exhausted,
    /// The top node covers every connection; the stack is unchanged.
    Solved,
    /// The stack changed as one step prescribes.
    Advanced,
}

/// One backtracking step took the stack `s0` to `s1`. The top node's best
/// candidate was taken off (leaving `rem_after`). When it could be fixed,
/// the new node went on top. Otherwise, with `M` the re-solve target, the
/// top node was popped, or (only when `M` is out of date) a re-solved node
/// with `M`'s fixed traces and some candidates took the place of node
/// `M + 1` and everything above it.
pub open spec fn step_taken<C: Fn(TraceSegment, TraceSegment) -> bool>(
    s0: Seq<Node>,
    s1: Seq<Node>,
    pool: Seq<ProbaTrace>,
    c: C,
) -> bool {
    exists|rem_after: Seq<BinaryHeapItem<u64, usize>>, res: Option<Node>|
        #[trigger] step_with(s0, s1, pool, c, rem_after, res)
}

/// `step_taken`, with the top node's remaining candidates after the
/// attempt and the attempt's result named.
pub open spec fn step_with<C: Fn(TraceSegment, TraceSegment) -> bool>(
    s0: Seq<Node>,
    s1: Seq<Node>,
    pool: Seq<ProbaTrace>,
    c: C,
    rem_after: Seq<BinaryHeapItem<u64, usize>>,
    res: Option<Node>,
) -> bool {
    let top = s0.len() - 1;
    let t = s0[top];
    {
        &&& (t.remaining_trace_candidates@.len() == 0 && rem_after == t.remaining_trace_candidates@
            && res.is_none()) || (exists|k: int| fix_attempt(&t, rem_after, res, pool, c, k))
        &&& match res {
            Some(n) => {
                &&& s1.len() == s0.len() + 1
                &&& s1.subrange(0, top) == s0.subrange(0, top)
                &&& s1[top].fixed_traces@ == t.fixed_traces@
                &&& s1[top].remaining_trace_candidates@ == rem_after
                &&& s1[top].prob_up_to_date == t.prob_up_to_date
                &&& s1[top + 1] == n
            },
            None => {
                let m = resolve_target(s0);
                let popped = s1 == s0.subrange(0, top);
                let replaced = {
                    &&& !s0[m].prob_up_to_date
                    &&& s1.len() == m + 2
                    &&& s1.subrange(0, m) == s0.subrange(0, m)
                    &&& m < top ==> s1[m] == s0[m]
                    &&& m == top ==> s1[m].fixed_traces@ == t.fixed_traces@
                        && s1[m].remaining_trace_candidates@ == rem_after
                        && s1[m].prob_up_to_date == t.prob_up_to_date
                    &&& s1[m + 1].fixed_traces@ == s0[m].fixed_traces@
                    &&& s1[m + 1].prob_up_to_date
                    &&& s1[m + 1].remaining_trace_candidates@.len() > 0
                };
                &&& s0[m].prob_up_to_date ==> popped
                &&& popped || replaced
            },
        }
    }
}

impl PcbProblem {
    /// One step of the backtracking search on `stack`; see `step_taken`.
    pub fn backtrack_step<
        R: Fn(Vec<FixedTrace>) -> Vec<BinaryHeapItem<u64, ProbaTrace>>,
        C: Fn(TraceSegment, TraceSegment) -> bool,
    >(
        &self,
        stack: &mut Vec<Node>,
        pool: &mut Vec<ProbaTrace>,
        resolve: &R,
        segments_collide: &C,
    ) -> (r: StepOutcome)
        requires
            forall|v: Vec<FixedTrace>| resolve.requires((v,)),
            seg_callable(*segments_collide),
            forall|k: int| 0 <= k < old(stack)@.len() ==> node_wf(&#[trigger] old(stack)@[k], old(pool)@, *segments_collide),
            pool_ok(self, old(pool)@),
        ensures
            forall|k: int| 0 <= k < final(stack)@.len() ==> node_wf(&#[trigger] final(stack)@[k], final(pool)@, *segments_collide),
            pool_ok(self, final(pool)@),
            pool_extends(old(pool)@, final(pool)@),
            old(stack)@.len() == 0 <==> r == StepOutcome::Exhausted,
            r == StepOutcome::Exhausted ==> final(stack)@ == old(stack)@,
            old(stack)@.len() > 0 ==> (r == StepOutcome::Solved <==> covers(
                self,
                &old(stack)@[old(stack)@.len() - 1],
                old(pool)@,
            )),
            r == StepOutcome::Solved ==> final(stack)@ == old(stack)@ && final(pool)@ == old(pool)@,
            r == StepOutcome::Advanced ==> step_taken(old(stack)@, final(stack)@, old(pool)@, *segments_collide),
    {
        if stack.len() == 0 {
            return StepOutcome::Exhausted;
        }
        let ghost s0 = stack@;
        let ghost top_index_spec = s0.len() - 1;
        let mut top = stack.pop().unwrap();
        assert(top == s0[top_index_spec]);
        assert(stack@ =~= s0.subrange(0, top_index_spec));
        assert(node_wf(&top, pool@, *segments_collide));
        if top.is_solution(self, &pool) {
            stack.push(top);
            assert(stack@ =~= s0);
            return StepOutcome::Solved;
        }
        let ghost t = top;
        let new_node = top.try_fix_top_ranked_trace(&pool, segments_collide);
        let ghost rem_after = top.remaining_trace_candidates@;
        let ghost pool0 = pool@;
        assert((t.remaining_trace_candidates@.len() == 0 && rem_after == t.remaining_trace_candidates@
            && new_node.is_none()) || (exists|k: int| fix_attempt(&t, rem_after, new_node, pool0, *segments_collide, k)));
        stack.push(top);
        let ghost s_mid = stack@;
        assert(s_mid.subrange(0, top_index_spec) =~= s0.subrange(0, top_index_spec));
        match new_node {
            Some(n) => {
                stack.push(n);
                proof {
                    assert(stack@.subrange(0, top_index_spec) =~= s0.subrange(0, top_index_spec));
                    assert(stack@[top_index_spec] == top);
                    assert(step_with(s0, stack@, pool@, *segments_collide, rem_after, new_node));
                }
                StepOutcome::Advanced
            },
            None => {
                let top_index = stack.len() - 1;
                assert(flags_of(stack@) =~= flags_of(s0));
                let last_updated = last_updated_node_index(&stack);
                let target = last_updated + (top_index - last_updated + 1) / 2;
                assert(target == resolve_target(s0));
                assert(target <= top_index);
                assert(stack@[target as int].prob_up_to_date == s0[target as int].prob_up_to_date);
                assert(node_wf(&stack@[target as int], pool@, *segments_collide));
                let ghost before = pool@;
                assert(before == pool0);
                let updated = stack[target].try_update_proba_model(self, pool, resolve);
                proof {
                    assert forall|k: int| 0 <= k < stack@.len() implies node_wf(&#[trigger] stack@[k], pool@, *segments_collide) by {
                        lemma_node_wf_extends(&stack@[k], before, pool@, *segments_collide);
                    }
                }
                if let Some(node) = updated {
                    proof {
                        lemma_node_wf_extends(&stack@[target as int], before, pool@, *segments_collide);
                    }
                    if node.remaining_trace_candidates.len() > 0 {
                        if target + 1 < stack.len() {
                            stack.set(target + 1, node);
                            stack.truncate(target + 2);
                        } else {
                            stack.push(node);
                        }
                        proof {
                            assert(stack@.subrange(0, target as int) =~= s0.subrange(0, target as int));
                            if target < top_index {
                                assert(stack@[target as int] == s0[target as int]);
                            } else {
                                assert(stack@[target as int] == top);
                            }
                            assert(step_with(s0, stack@, before, *segments_collide, rem_after, new_node));
                        }
                    } else {
                        stack.pop();
                        proof {
                            assert(stack@ =~= s0.subrange(0, top_index_spec));
                            assert(step_with(s0, stack@, before, *segments_collide, rem_after, new_node));
                        }
                    }
                } else {
                    stack.pop();
                    proof {
                        assert(stack@ =~= s0.subrange(0, top_index_spec));
                        assert(step_with(s0, stack@, before, *segments_collide, rem_after, new_node));
                    }
                }
                StepOutcome::Advanced
            },
        }
    }

    /// The backtracking search. A stack of nodes starts from the model solved
    /// with nothing fixed. Each step returns the top node's fixed traces when
    /// they cover every connection; otherwise it fixes the top node's best
    /// candidate in a new node pushed on top, or discards it when it collides
    /// with a fixed trace. After a discard, with `L` the highest up-to-date
    /// node and `top` the top, the target is `M = ceil((top + L) / 2)`: when
    /// `M` is out of date its model is re-solved from its fixed traces, and
    /// a result with candidates takes the place of node `M + 1` (the stack
    /// above is dropped); in every other case the top node is popped.
    /// `resolve` solves the probabilistic model for given fixed traces;
    /// `segments_collide` judges pairs of segments. Each step is
    /// `backtrack_step`; `NoSolution` comes when a step finds the stack
    /// empty, `BudgetExhausted` after `max_steps` steps that neither solved
    /// nor emptied it.
    pub fn solve<
        R: Fn(Vec<FixedTrace>) -> Vec<BinaryHeapItem<u64, ProbaTrace>>,
        C: Fn(TraceSegment, TraceSegment) -> bool,
    >(&self, resolve: &R, segments_collide: &C, max_steps: usize) -> (r: Result<
        PcbSolution,
        SolveError,
    >)
        requires
            forall|v: Vec<FixedTrace>| resolve.requires((v,)),
            seg_callable(*segments_collide),
        ensures
            match r {
                Ok(sol) => {
                    let d = sol.determined_traces@;
                    &&& forall|i: int|
                        0 <= i < self.connections@.len() ==> #[trigger] has_connection(
                            d,
                            self.connections@[i].connection_id,
                        )
                    &&& forall|i: int|
                        0 <= i < d.len() ==> #[trigger] fixed_fits(self, d[i])
                    &&& forall|i: int, j: int|
                        0 <= i < j < d.len() ==> d[i].connection_id != d[j].connection_id
                    &&& forall|i: int, j: int|
                        0 <= i < j < d.len() ==> paths_clear(
                            d[j].trace_path.segments@,
                            d[i].trace_path.segments@,
                            *segments_collide,
                        )
                },
                Err(_) => true,
            },
            self.connections@.len() == 0 && max_steps > 0 ==> match r {
                Ok(_) => true,
                Err(_) => false,
            },
            max_steps == 0 ==> match r {
                Ok(_) => false,
                Err(e) => e == SolveError::BudgetExhausted,
            },
    {
        let mut pool: Vec<ProbaTrace> = Vec::new();
        let first = Node::from_fixed_traces(self, Vec::new(), &mut pool, resolve);
        let mut stack: Vec<Node> = Vec::new();
        stack.push(first);
        let mut steps: usize = 0;
        while steps < max_steps
            invariant
                forall|v: Vec<FixedTrace>| resolve.requires((v,)),
                seg_callable(*segments_collide),
                forall|k: int| 0 <= k < stack@.len() ==> node_wf(&#[trigger] stack@[k], pool@, *segments_collide),
                pool_ok(self, pool@),
                steps == 0 ==> stack@.len() == 1,
                self.connections@.len() == 0 ==> steps == 0,
            decreases max_steps - steps,
        {
            steps += 1;
            let outcome = self.backtrack_step(&mut stack, &mut pool, resolve, segments_collide);
            if outcome == StepOutcome::Exhausted {
                return Err(SolveError::NoSolution);
            }
            if outcome == StepOutcome::Solved {
                let last = stack.len() - 1;
                let top = &stack[last];
                assert(node_wf(top, pool@, *segments_collide));
                let determined_traces = fixed_traces_of(&top.fixed_traces, &pool);
                proof {
                    let d = determined_traces@;
                    assert forall|i: int| 0 <= i < self.connections@.len() implies #[trigger] has_connection(
                        d,
                        self.connections@[i].connection_id,
                    ) by {
                        assert(connection_fixed(top, pool@, self.connections@[i].connection_id));
                        let k = choose|k: int| 0 <= k < top.fixed_traces@.len() && #[trigger] fixed_connection(top, pool@, k) == self.connections@[i].connection_id;
                        assert(d[k].connection_id == self.connections@[i].connection_id);
                    }
                    assert forall|i: int, j: int| 0 <= i < j < d.len() implies d[i].connection_id
                        != d[j].connection_id && paths_clear(
                        d[j].trace_path.segments@,
                        d[i].trace_path.segments@,
                        *segments_collide,
                    ) by {
                        assert(d[i].connection_id == pool@[top.fixed_traces@[i] as int].connection_id);
                        assert(d[j].connection_id == pool@[top.fixed_traces@[j] as int].connection_id);
                        assert(d[i].trace_path.segments@ == pool@[top.fixed_traces@[i] as int].trace_path.segments@);
                        assert(d[j].trace_path.segments@ == pool@[top.fixed_traces@[j] as int].trace_path.segments@);
                    }
                    assert forall|i: int| 0 <= i < d.len() implies #[trigger] fixed_fits(self, d[i]) by {
                        assert(candidate_fits(self, pool@[top.fixed_traces@[i] as int]));
                    }
                }
                return Ok(PcbSolution { determined_traces });
            }
        }
        Err(SolveError::BudgetExhausted)
    }
}

/// The probabilistic trace model: per connection an optional fixed trace,
/// the candidate traces of the still-probabilistic connections (a
/// candidate's id is its index), which candidates of different nets collide,
/// and the next sampling round.
pub struct ProbaModel {
    pub fixed: Vec<Option<FixedTrace>>,
    pub traces: Vec<ProbaTrace>,
    pub collision_adjacency: Vec<Vec<ProbaTraceID>>,
    pub next_iteration: usize,
}

/// The collision adjacency of `traces`: candidate `j` is listed for `i`
/// exactly when they belong to different nets and the lower-numbered one's
/// path was judged to collide with the other's.
pub open spec fn adjacency_exact<C: Fn(TraceSegment, TraceSegment) -> bool>(
    traces: Seq<ProbaTrace>,
    adj: Seq<Vec<ProbaTraceID>>,
    c: C,
) -> bool {
    &&& adj.len() == traces.len()
    &&& forall|i: int, j: int|
        0 <= i < traces.len() && 0 <= j < traces.len() ==> {
            let (a, b) = if i < j { (i, j) } else { (j, i) };
            &&& (#[trigger] adj[i]@.contains(ProbaTraceID(j as usize))) ==> traces[i].net_id
                != traces[j].net_id && segments_collide_somewhere(
                traces[a].trace_path.segments@,
                traces[b].trace_path.segments@,
                c,
            )
            &&& (traces[i].net_id != traces[j].net_id && !adj[i]@.contains(
                ProbaTraceID(j as usize),
            )) ==> paths_clear(
                traces[a].trace_path.segments@,
                traces[b].trace_path.segments@,
                c,
            )
        }
}

/// Some candidate of connection `cid`, among `traces` or `pending`, has the
/// anchors `anchors`.
pub open spec fn generated_before(
    traces: Seq<ProbaTrace>,
    pending: Seq<ProbaTrace>,
    cid: ConnectionID,
    anchors: Seq<FixedVec2>,
) -> bool {
    ||| exists|i: int|
        0 <= i < traces.len() && (#[trigger] traces[i]).connection_id == cid
            && traces[i].trace_path.anchors.0@ == anchors
    ||| exists|i: int|
        0 <= i < pending.len() && (#[trigger] pending[i]).connection_id == cid
            && pending[i].trace_path.anchors.0@ == anchors
}

/// A routing request the sampling round may make: attempt `a` (from one
/// to `MAX_GENERATION_ATTEMPTS`) for connection `c` of net `n`, which is
/// still probabilistic.
pub open spec fn route_call_ok(
    problem: &PcbProblem,
    fixed: Seq<Option<FixedTrace>>,
    n: NetID,
    a: usize,
    c: ConnectionID,
) -> bool {
    &&& c.0 < problem.connections@.len()
    &&& problem.connections@[c.0 as int].net_id == n
    &&& 1 <= a <= MAX_GENERATION_ATTEMPTS
    &&& fixed[c.0 as int].is_none()
}

impl ProbaModel {
    pub open spec fn wf(&self, problem: &PcbProblem) -> bool {
        &&& self.fixed@.len() == problem.connections@.len()
        &&& 1 <= self.next_iteration <= MAX_ITERATION + 1
        &&& forall|i: int|
            0 <= i < self.traces@.len() ==> {
                let t = #[trigger] self.traces@[i];
                &&& t.proba_trace_id.0 == i
                &&& t.connection_id.0 < problem.connections@.len()
                &&& t.net_id == problem.connections@[t.connection_id.0 as int].net_id
                &&& self.fixed@[t.connection_id.0 as int].is_none()
                &&& 1 <= t.iteration.0 < self.next_iteration
                &&& candidate_fits(problem, t)
            }
        &&& forall|i: int, j: int|
            0 <= i < j < self.traces@.len() && self.traces@[i].connection_id
                == self.traces@[j].connection_id ==> self.traces@[i].trace_path.anchors.0@
                != self.traces@[j].trace_path.anchors.0@
    }

    /// A model with nothing sampled: the connections in `fixed_traces` are
    /// fixed, every other connection is probabilistic.
    pub fn new(problem: &PcbProblem, fixed_traces: &Vec<FixedTrace>) -> (r: ProbaModel)
        requires
            problem.wf(),
        ensures
            r.wf(problem),
            r.next_iteration == 1,
            r.traces@.len() == 0,
            r.collision_adjacency@.len() == 0,
            forall|i: int|
                0 <= i < problem.connections@.len() ==> (#[trigger] r.fixed@[i]).is_some()
                    == has_connection(fixed_traces@, ConnectionID(i as usize)),
    {
        let mut fixed: Vec<Option<FixedTrace>> = Vec::new();
        let mut i: usize = 0;
        while i < problem.connections.len()
            invariant
                0 <= i <= problem.connections@.len(),
                fixed@.len() == i,
                forall|m: int|
                    0 <= m < i ==> (#[trigger] fixed@[m]).is_some() == has_connection(
                        fixed_traces@,
                        ConnectionID(m as usize),
                    ),
            decreases problem.connections@.len() - i,
        {
            let mut found: Option<FixedTrace> = None;
            let mut k: usize = 0;
            while k < fixed_traces.len()
                invariant
                    0 <= k <= fixed_traces@.len(),
                    found.is_some() ==> has_connection(fixed_traces@, ConnectionID(i as usize)),
                    found.is_none() ==> forall|m: int|
                        0 <= m < k ==> (#[trigger] fixed_traces@[m]).connection_id != ConnectionID(
                            i as usize,
                        ),
                decreases fixed_traces@.len() - k,
            {
                if found.is_none() && fixed_traces[k].connection_id == ConnectionID(i) {
                    let t = &fixed_traces[k];
                    assert(fixed_traces@[k as int].connection_id == ConnectionID(i as usize));
                    found = Some(
                        FixedTrace {
                            net_id: t.net_id,
                            connection_id: t.connection_id,
                            trace_path: t.trace_path.duplicate(),
                        },
                    );
                }
                k += 1;
            }
            fixed.push(found);
            i += 1;
        }
        ProbaModel {
            fixed,
            traces: Vec::new(),
            collision_adjacency: Vec::new(),
            next_iteration: 1,
        }
    }

    /// Whether `anchors` is already the anchor list of a candidate of
    /// connection `cid`, among the model's traces or `pending`.
    pub fn already_generated(&self, pending: &Vec<ProbaTrace>, cid: ConnectionID, anchors: &Vec<FixedVec2>) -> (r: bool)
        ensures
            r ==> (exists|i: int|
                0 <= i < self.traces@.len() && (#[trigger] self.traces@[i]).connection_id == cid
                    && self.traces@[i].trace_path.anchors.0@ == anchors@) || (exists|i: int|
                0 <= i < pending@.len() && (#[trigger] pending@[i]).connection_id == cid
                    && pending@[i].trace_path.anchors.0@ == anchors@),
            !r ==> (forall|i: int|
                0 <= i < self.traces@.len() && (#[trigger] self.traces@[i]).connection_id == cid
                    ==> self.traces@[i].trace_path.anchors.0@ != anchors@) && (forall|i: int|
                0 <= i < pending@.len() && (#[trigger] pending@[i]).connection_id == cid
                    ==> pending@[i].trace_path.anchors.0@ != anchors@),
    {
        let mut i: usize = 0;
        while i < self.traces.len()
            invariant
                0 <= i <= self.traces@.len(),
                forall|m: int|
                    0 <= m < i && (#[trigger] self.traces@[m]).connection_id == cid
                        ==> self.traces@[m].trace_path.anchors.0@ != anchors@,
            decreases self.traces@.len() - i,
        {
            if self.traces[i].connection_id == cid && same_anchors(
                &self.traces[i].trace_path.anchors.0,
                anchors,
            ) {
                assert(self.traces@[i as int].connection_id == cid);
                return true;
            }
            i += 1;
        }
        let mut j: usize = 0;
        while j < pending.len()
            invariant
                0 <= j <= pending@.len(),
                forall|m: int|
                    0 <= m < self.traces@.len() && (#[trigger] self.traces@[m]).connection_id == cid
                        ==> self.traces@[m].trace_path.anchors.0@ != anchors@,
                forall|m: int|
                    0 <= m < j && (#[trigger] pending@[m]).connection_id == cid
                        ==> pending@[m].trace_path.anchors.0@ != anchors@,
            decreases pending@.len() - j,
        {
            if pending[j].connection_id == cid && same_anchors(
                &pending[j].trace_path.anchors.0,
                anchors,
            ) {
                assert(pending@[j as int].connection_id == cid);
                return true;
            }
            j += 1;
        }
        false
    }

    /// Adds `trace_path` to `pending` as a candidate of `connection` when it
    /// runs from the connection's source pad to its sink pad and neither the
    /// model nor `pending` already has a candidate of that connection with
    /// the same anchors.
    pub fn admit_candidate(
        &self,
        pending: &mut Vec<ProbaTrace>,
        connection: &Connection,
        proba_trace_id: ProbaTraceID,
        trace_path: TracePath,
        iteration: IterationNum,
    ) -> (r: bool)
        ensures
            r == (trace_path.anchors.0@.len() >= 1 && trace_path.anchors.0@[0]
                == connection.source.position && trace_path.anchors.0@[trace_path.anchors.0@.len()
                - 1] == connection.sink.position && !generated_before(
                self.traces@,
                old(pending)@,
                connection.connection_id,
                trace_path.anchors.0@,
            )),
            r ==> final(pending)@ == old(pending)@.push(
                (ProbaTrace {
                    net_id: connection.net_id,
                    connection_id: connection.connection_id,
                    proba_trace_id,
                    trace_path,
                    iteration,
                }),
            ),
            !r ==> final(pending)@ == old(pending)@,
    {
        if !trace_path.runs_between(connection.source.position, connection.sink.position) {
            return false;
        }
        if self.already_generated(pending, connection.connection_id, &trace_path.anchors.0) {
            return false;
        }
        pending.push(
            ProbaTrace {
                net_id: connection.net_id,
                connection_id: connection.connection_id,
                proba_trace_id,
                trace_path,
                iteration,
            },
        );
        true
    }

    /// One sampling round `k = next_iteration`. Net by net, up to
    /// `MAX_GENERATION_ATTEMPTS` times or until each of the net's
    /// probabilistic connections has `N_k` new candidates, `route` is asked
    /// for a path for each connection still short of them (it samples the
    /// obstacle set for the attempt and runs the search); a path whose
    /// anchors the connection has not had before becomes a candidate of
    /// round `k`. The collision adjacency is then rebuilt and the round
    /// counter advances. The problem must be small enough that candidate
    /// ids stay below 10^9.
    pub fn sample_new_traces<
        R: Fn(NetID, usize, ConnectionID) -> Option<TracePath>,
        C: Fn(TraceSegment, TraceSegment) -> bool,
    >(&mut self, problem: &PcbProblem, route: &R, segments_collide: &C)
        requires
            problem.wf(),
            old(self).wf(problem),
            old(self).next_iteration <= MAX_ITERATION,
            old(self).traces@.len() + problem.connections@.len() * MAX_GENERATION_ATTEMPTS * problem.nets@.len() < 1000000000,
            forall|n: NetID, a: usize, c: ConnectionID|
                route_call_ok(problem, old(self).fixed@, n, a, c) ==> route.requires((n, a, c)),
            seg_callable(*segments_collide),
        ensures
            final(self).wf(problem),
            final(self).next_iteration == old(self).next_iteration + 1,
            final(self).fixed@ == old(self).fixed@,
            final(self).traces@.len() >= old(self).traces@.len(),
            forall|i: int| 0 <= i < old(self).traces@.len() ==> #[trigger] final(self).traces@[i] == old(self).traces@[i],
            forall|i: int|
                old(self).traces@.len() <= i < final(self).traces@.len() ==> (#[trigger] final(self).traces@[i]).iteration.0
                    == old(self).next_iteration,
            forall|i: int, j: int|
                0 <= i < j < final(self).traces@.len() && final(self).traces@[i].connection_id
                    == final(self).traces@[j].connection_id && old(self).traces@.len() <= j
                    ==> final(self).traces@[i].trace_path.anchors.0@
                    != final(self).traces@[j].trace_path.anchors.0@,
            adjacency_exact(final(self).traces@, final(self).collision_adjacency@, *segments_collide),
            forall|c: ConnectionID|
                #[trigger] count_for(
                    final(self).traces@.subrange(
                        old(self).traces@.len() as int,
                        final(self).traces@.len() as int,
                    ),
                    c,
                ) <= traces_per_iteration(old(self).next_iteration as int),
    {
        let iteration = self.next_iteration;
        let max_num_traces = num_traces(iteration);
        let mut pending: Vec<ProbaTrace> = Vec::new();
        let base = self.traces.len();
        let mut n: usize = 0;
        while n < problem.nets.len()
            invariant
                problem.wf(),
                self.wf(problem),
                self.next_iteration == iteration,
                self.traces@.len() == base,
                1 <= iteration <= MAX_ITERATION,
                0 <= n <= problem.nets@.len(),
                max_num_traces == traces_per_iteration(iteration as int),
                forall|cc: ConnectionID| #[trigger] count_for(pending@, cc) <= max_num_traces,
                pending@.len() <= n * problem.connections@.len() * MAX_GENERATION_ATTEMPTS,
                base + problem.connections@.len() * MAX_GENERATION_ATTEMPTS * problem.nets@.len() < 1000000000,
                forall|na: NetID, a: usize, c: ConnectionID| route_call_ok(problem, self.fixed@, na, a, c) ==> route.requires((na, a, c)),
                forall|i: int|
                    0 <= i < pending@.len() ==> {
                        let t = #[trigger] pending@[i];
                        &&& t.proba_trace_id.0 == base + i
                        &&& t.connection_id.0 < problem.connections@.len()
                        &&& t.net_id == problem.connections@[t.connection_id.0 as int].net_id
                        &&& self.fixed@[t.connection_id.0 as int].is_none()
                        &&& t.iteration.0 == iteration
                                &&& candidate_fits(problem, t)
                    },
                forall|i: int, j: int|
                    0 <= i < self.traces@.len() && 0 <= j < pending@.len()
                        && self.traces@[i].connection_id == pending@[j].connection_id
                        ==> self.traces@[i].trace_path.anchors.0@ != pending@[j].trace_path.anchors.0@,
                forall|i: int, j: int|
                    0 <= i < j < pending@.len() && pending@[i].connection_id
                        == pending@[j].connection_id ==> pending@[i].trace_path.anchors.0@
                        != pending@[j].trace_path.anchors.0@,
            decreases problem.nets@.len() - n,
        {
            let net_id = problem.nets[n].net_id;
            let mut attempts: usize = 0;
            let mut wanting = true;
            let ghost pending_at_net = pending@.len();
            while attempts < MAX_GENERATION_ATTEMPTS && wanting
                invariant
                    problem.wf(),
                    self.wf(problem),
                    self.next_iteration == iteration,
                    self.traces@.len() == base,
                    1 <= iteration <= MAX_ITERATION,
                    0 <= n < problem.nets@.len(),
                    max_num_traces == traces_per_iteration(iteration as int),
                    forall|cc: ConnectionID| #[trigger] count_for(pending@, cc) <= max_num_traces,
                    0 <= attempts <= MAX_GENERATION_ATTEMPTS,
                    pending_at_net <= n * problem.connections@.len() * MAX_GENERATION_ATTEMPTS,
                    pending@.len() <= pending_at_net + attempts * problem.connections@.len(),
                    base + problem.connections@.len() * MAX_GENERATION_ATTEMPTS * problem.nets@.len() < 1000000000,
                    forall|na: NetID, a: usize, cc: ConnectionID| route_call_ok(problem, self.fixed@, na, a, cc) ==> route.requires((na, a, cc)),
                    forall|i: int|
                        0 <= i < pending@.len() ==> {
                            let t = #[trigger] pending@[i];
                            &&& t.proba_trace_id.0 == base + i
                            &&& t.connection_id.0 < problem.connections@.len()
                            &&& t.net_id == problem.connections@[t.connection_id.0 as int].net_id
                            &&& self.fixed@[t.connection_id.0 as int].is_none()
                            &&& t.iteration.0 == iteration
                                &&& candidate_fits(problem, t)
                        },
                    forall|i: int, j: int|
                        0 <= i < self.traces@.len() && 0 <= j < pending@.len()
                            && self.traces@[i].connection_id == pending@[j].connection_id
                            ==> self.traces@[i].trace_path.anchors.0@ != pending@[j].trace_path.anchors.0@,
                    forall|i: int, j: int|
                        0 <= i < j < pending@.len() && pending@[i].connection_id
                            == pending@[j].connection_id ==> pending@[i].trace_path.anchors.0@
                            != pending@[j].trace_path.anchors.0@,
                decreases MAX_GENERATION_ATTEMPTS - attempts,
            {
                attempts += 1;
                let ghost pending_at_attempt = pending@.len();
                let mut c: usize = 0;
                wanting = false;
                while c < problem.connections.len()
                    invariant
                        problem.wf(),
                        self.wf(problem),
                        self.next_iteration == iteration,
                        self.traces@.len() == base,
                        1 <= iteration <= MAX_ITERATION,
                        0 <= c <= problem.connections@.len(),
                        max_num_traces == traces_per_iteration(iteration as int),
                    forall|cc: ConnectionID| #[trigger] count_for(pending@, cc) <= max_num_traces,
                        1 <= attempts <= MAX_GENERATION_ATTEMPTS,
                        0 <= n < problem.nets@.len(),
                        pending_at_net <= n * problem.connections@.len() * MAX_GENERATION_ATTEMPTS,
                        pending_at_attempt <= pending_at_net + (attempts - 1) * problem.connections@.len(),
                        pending@.len() <= pending_at_attempt + c,
                        base + problem.connections@.len() * MAX_GENERATION_ATTEMPTS * problem.nets@.len() < 1000000000,
                        forall|na: NetID, a: usize, cc: ConnectionID| route_call_ok(problem, self.fixed@, na, a, cc) ==> route.requires((na, a, cc)),
                        forall|i: int|
                            0 <= i < pending@.len() ==> {
                                let t = #[trigger] pending@[i];
                                &&& t.proba_trace_id.0 == base + i
                                &&& t.connection_id.0 < problem.connections@.len()
                                &&& t.net_id == problem.connections@[t.connection_id.0 as int].net_id
                                &&& self.fixed@[t.connection_id.0 as int].is_none()
                                &&& t.iteration.0 == iteration
                                &&& candidate_fits(problem, t)
                            },
                        forall|i: int, j: int|
                            0 <= i < self.traces@.len() && 0 <= j < pending@.len()
                                && self.traces@[i].connection_id == pending@[j].connection_id
                                ==> self.traces@[i].trace_path.anchors.0@ != pending@[j].trace_path.anchors.0@,
                        forall|i: int, j: int|
                            0 <= i < j < pending@.len() && pending@[i].connection_id
                                == pending@[j].connection_id ==> pending@[i].trace_path.anchors.0@
                                != pending@[j].trace_path.anchors.0@,
                    decreases problem.connections@.len() - c,
                {
                    assert(pending@.len() + 1 < 1000000000) by (nonlinear_arith)
                        requires
                            pending@.len() <= pending_at_attempt + c,
                            pending_at_attempt <= pending_at_net + (attempts - 1) * problem.connections@.len(),
                            pending_at_net <= n * problem.connections@.len() * MAX_GENERATION_ATTEMPTS,
                            c < problem.connections@.len(),
                            1 <= attempts <= MAX_GENERATION_ATTEMPTS,
                            n < problem.nets@.len(),
                            base + problem.connections@.len() * MAX_GENERATION_ATTEMPTS * problem.nets@.len() < 1000000000,
                    ;
                    let connection = &problem.connections[c];
                    let cid = connection.connection_id;
                    assert(cid.0 == c);
                    if connection.net_id == net_id && self.fixed[c].is_none() && count_pending(
                        &pending,
                        cid,
                    ) < max_num_traces {
                        assert(route_call_ok(problem, self.fixed@, net_id, attempts, cid));
                        if let Some(trace_path) = route(net_id, attempts, cid) {
                            let proba_trace_id = ProbaTraceID(base + pending.len());
                            let ghost before = pending@;
                            if self.admit_candidate(
                                &mut pending,
                                connection,
                                proba_trace_id,
                                trace_path,
                                IterationNum(iteration),
                            ) {
                                proof {
                                    assert forall|i: int, j: int|
                                        0 <= i < j < pending@.len() && pending@[i].connection_id
                                            == pending@[j].connection_id implies pending@[i].trace_path.anchors.0@
                                            != pending@[j].trace_path.anchors.0@ by {
                                        if j < before.len() {
                                            assert(pending@[i] == before[i] && pending@[j] == before[j]);
                                        } else {
                                            assert(pending@[i] == before[i]);
                                        }
                                    }
                                    assert forall|i: int, j: int|
                                        0 <= i < self.traces@.len() && 0 <= j < pending@.len()
                                            && self.traces@[i].connection_id == pending@[j].connection_id
                                            implies self.traces@[i].trace_path.anchors.0@ != pending@[j].trace_path.anchors.0@ by {
                                        if j < before.len() {
                                            assert(pending@[j] == before[j]);
                                        }
                                    }
                                    assert forall|i: int| 0 <= i < pending@.len() implies {
                                        let t = #[trigger] pending@[i];
                                        &&& t.proba_trace_id.0 == base + i
                                        &&& t.connection_id.0 < problem.connections@.len()
                                        &&& t.net_id == problem.connections@[t.connection_id.0 as int].net_id
                                        &&& self.fixed@[t.connection_id.0 as int].is_none()
                                        &&& t.iteration.0 == iteration
                                &&& candidate_fits(problem, t)
                                    } by {
                                        if i < before.len() {
                                            assert(pending@[i] == before[i]);
                                        }
                                    }
                                }
                                proof {
                                    assert forall|cc: ConnectionID| #[trigger] count_for(pending@, cc) <= max_num_traces by {
                                        lemma_count_push(before, pending@[before.len() as int], cc);
                                        assert(before.push(pending@[before.len() as int]) == pending@);
                                    }
                                }
                            }
                        }
                        if count_pending(&pending, cid) < max_num_traces {
                            wanting = true;
                        }
                    }
                    c += 1;
                }
                assert(pending@.len() <= pending_at_net + attempts * problem.connections@.len()) by (nonlinear_arith)
                    requires
                        pending@.len() <= pending_at_attempt + problem.connections@.len(),
                        pending_at_attempt <= pending_at_net + (attempts - 1) * problem.connections@.len(),
                ;
            }
            n += 1;
            assert(pending@.len() <= n * problem.connections@.len() * MAX_GENERATION_ATTEMPTS) by (nonlinear_arith)
                requires
                    pending@.len() <= pending_at_net + attempts * problem.connections@.len(),
                    pending_at_net <= (n - 1) * problem.connections@.len() * MAX_GENERATION_ATTEMPTS,
                    attempts <= MAX_GENERATION_ATTEMPTS,
            ;
        }
        let ghost old_traces = self.traces@;
        let ghost added = pending@;
        self.traces.append(&mut pending);
        assert(self.traces@.subrange(old_traces.len() as int, self.traces@.len() as int) =~= added);
        self.next_iteration = iteration + 1;
        proof {
            assert forall|i: int| 0 <= i < self.traces@.len() implies {
                let t = #[trigger] self.traces@[i];
                &&& t.proba_trace_id.0 == i
                &&& t.connection_id.0 < problem.connections@.len()
                &&& t.net_id == problem.connections@[t.connection_id.0 as int].net_id
                &&& self.fixed@[t.connection_id.0 as int].is_none()
                &&& 1 <= t.iteration.0 < self.next_iteration
                &&& candidate_fits(problem, t)
            } by {
                if i < old_traces.len() {
                    assert(self.traces@[i] == old_traces[i]);
                } else {
                    assert(self.traces@[i] == added[i - old_traces.len()]);
                }
            }
            assert forall|i: int, j: int|
                0 <= i < j < self.traces@.len() && self.traces@[i].connection_id
                    == self.traces@[j].connection_id
                    implies self.traces@[i].trace_path.anchors.0@
                    != self.traces@[j].trace_path.anchors.0@ by {
                if j < old_traces.len() {
                    assert(self.traces@[i] == old_traces[i] && self.traces@[j] == old_traces[j]);
                } else if i < old_traces.len() {
                    assert(self.traces@[j] == added[j - old_traces.len()]);
                    assert(self.traces@[i] == old_traces[i]);
                } else {
                    assert(self.traces@[i] == added[i - old_traces.len()]);
                }
            }
        }
        self.update_collision_adjacency(segments_collide);
    }
}

impl ProbaModel {
    /// Rebuilds the collision adjacency: for each pair of candidates of
    /// different nets, the lower-numbered one's path is tested against the
    /// other's.
    pub fn update_collision_adjacency<C: Fn(TraceSegment, TraceSegment) -> bool>(
        &mut self,
        segments_collide: &C,
    )
        requires
            seg_callable(*segments_collide),
        ensures
            adjacency_exact(final(self).traces@, final(self).collision_adjacency@, *segments_collide),
            final(self).traces@ == old(self).traces@,
            final(self).fixed@ == old(self).fixed@,
            final(self).next_iteration == old(self).next_iteration,
    {
        let mut adjacency: Vec<Vec<ProbaTraceID>> = Vec::new();
        let n = self.traces.len();
        let mut i: usize = 0;
        while i < n
            invariant
                n == self.traces@.len(),
                0 <= i <= n,
                adjacency@.len() == i,
                seg_callable(*segments_collide),
                forall|ii: int, j: int|
                    0 <= ii < i && 0 <= j < n ==> {
                        let (a, b) = if ii < j { (ii, j) } else { (j, ii) };
                        &&& (#[trigger] adjacency@[ii]@.contains(ProbaTraceID(j as usize)))
                            ==> self.traces@[ii].net_id != self.traces@[j].net_id
                            && segments_collide_somewhere(
                            self.traces@[a].trace_path.segments@,
                            self.traces@[b].trace_path.segments@,
                            *segments_collide,
                        )
                        &&& (self.traces@[ii].net_id != self.traces@[j].net_id
                            && !adjacency@[ii]@.contains(ProbaTraceID(j as usize))) ==> paths_clear(
                            self.traces@[a].trace_path.segments@,
                            self.traces@[b].trace_path.segments@,
                            *segments_collide,
                        )
                    },
            decreases n - i,
        {
            let mut row: Vec<ProbaTraceID> = Vec::new();
            let mut j: usize = 0;
            while j < n
                invariant
                    n == self.traces@.len(),
                    0 <= i < n,
                    0 <= j <= n,
                    seg_callable(*segments_collide),
                    forall|x: int| 0 <= x < row@.len() ==> (#[trigger] row@[x]).0 < j,
                    forall|jj: int|
                        0 <= jj < j ==> {
                            let (a, b) = if i < jj { (i as int, jj) } else { (jj, i as int) };
                            &&& (#[trigger] row@.contains(ProbaTraceID(jj as usize)))
                                ==> self.traces@[i as int].net_id != self.traces@[jj].net_id
                                && segments_collide_somewhere(
                                self.traces@[a].trace_path.segments@,
                                self.traces@[b].trace_path.segments@,
                                *segments_collide,
                            )
                            &&& (self.traces@[i as int].net_id != self.traces@[jj].net_id
                                && !row@.contains(ProbaTraceID(jj as usize))) ==> paths_clear(
                                self.traces@[a].trace_path.segments@,
                                self.traces@[b].trace_path.segments@,
                                *segments_collide,
                            )
                        },
                decreases n - j,
            {
                let ghost before = row@;
                if self.traces[i].net_id != self.traces[j].net_id {
                    let (a, b) = if i < j { (i, j) } else { (j, i) };
                    if self.traces[a].trace_path.collides_with(&self.traces[b].trace_path, segments_collide) {
                        row.push(ProbaTraceID(j));
                    }
                }
                proof {
                    assert forall|jj: int| 0 <= jj <= j implies (#[trigger] row@.contains(ProbaTraceID(jj as usize))) == (before.contains(ProbaTraceID(jj as usize)) || (jj == j && row@.len() > before.len())) by {
                        if row@.len() > before.len() {
                            if row@.contains(ProbaTraceID(jj as usize)) {
                                let x = choose|x: int| 0 <= x < row@.len() && row@[x] == ProbaTraceID(jj as usize);
                                if x < before.len() {
                                    assert(before[x] == row@[x]);
                                }
                            }
                            if before.contains(ProbaTraceID(jj as usize)) {
                                let x = choose|x: int| 0 <= x < before.len() && before[x] == ProbaTraceID(jj as usize);
                                assert(row@[x] == before[x]);
                            }
                            if jj == j {
                                assert(row@[before.len() as int] == ProbaTraceID(j));
                            }
                        } else {
                            assert(row@ == before);
                            if before.contains(ProbaTraceID(j)) {
                                let x = choose|x: int| 0 <= x < before.len() && before[x] == ProbaTraceID(j);
                                assert(before[x].0 < j);
                            }
                        }
                    }
                    if row@.len() == before.len() {
                        assert(!row@.contains(ProbaTraceID(j))) by {
                            if row@.contains(ProbaTraceID(j)) {
                                let x = choose|x: int| 0 <= x < row@.len() && row@[x] == ProbaTraceID(j);
                                assert(before[x].0 < j);
                            }
                        }
                    }
                }
                j += 1;
            }
            adjacency.push(row);
            proof {
                assert forall|ii: int, j: int| 0 <= ii <= i && 0 <= j < n implies {
                    let (a, b) = if ii < j { (ii, j) } else { (j, ii) };
                    &&& (#[trigger] adjacency@[ii]@.contains(ProbaTraceID(j as usize)))
                        ==> self.traces@[ii].net_id != self.traces@[j].net_id
                        && segments_collide_somewhere(
                        self.traces@[a].trace_path.segments@,
                        self.traces@[b].trace_path.segments@,
                        *segments_collide,
                    )
                    &&& (self.traces@[ii].net_id != self.traces@[j].net_id
                        && !adjacency@[ii]@.contains(ProbaTraceID(j as usize))) ==> paths_clear(
                        self.traces@[a].trace_path.segments@,
                        self.traces@[b].trace_path.segments@,
                        *segments_collide,
                    )
                } by {
                    if ii < i {
                    } else {
                        assert(adjacency@[ii] == row);
                    }
                }
            }
            i += 1;
        }
        self.collision_adjacency = adjacency;
    }
}

/// The number of traces of `s` that belong to connection `cid`.
pub open spec fn count_for(s: Seq<ProbaTrace>, cid: ConnectionID) -> nat
    decreases s.len(),
{
    if s.len() == 0 {
        0
    } else {
        count_for(s.drop_last(), cid) + if s.last().connection_id == cid {
            1nat
        } else {
            0nat
        }
    }
}

proof fn lemma_count_push(s: Seq<ProbaTrace>, x: ProbaTrace, cid: ConnectionID)
    ensures
        count_for(s.push(x), cid) == count_for(s, cid) + if x.connection_id == cid {
            1nat
        } else {
            0nat
        },
{
    assert(s.push(x).drop_last() =~= s);
}

/// The number of traces of `pending` that belong to connection `cid`.
fn count_pending(pending: &Vec<ProbaTrace>, cid: ConnectionID) -> (r: usize)
    requires
        pending@.len() < 1000000000,
    ensures
        r == count_for(pending@, cid),
{
    let mut n: usize = 0;
    let mut i: usize = 0;
    while i < pending.len()
        invariant
            0 <= i <= pending@.len(),
            pending@.len() < 1000000000,
            n == count_for(pending@.subrange(0, i as int), cid),
            n <= i,
        decreases pending@.len() - i,
    {
        proof {
            lemma_count_push(pending@.subrange(0, i as int), pending@[i as int], cid);
            assert(pending@.subrange(0, i as int).push(pending@[i as int]) =~= pending@.subrange(
                0,
                i as int + 1,
            ));
        }
        if pending[i].connection_id == cid {
            n += 1;
        }
        i += 1;
    }
    assert(pending@.subrange(0, pending@.len() as int) =~= pending@);
    n
}

/// Whether two anchor lists are equal.
fn same_anchors(a: &Vec<FixedVec2>, b: &Vec<FixedVec2>) -> (r: bool)
    ensures
        r == (a@ == b@),
{
    if a.len() != b.len() {
        return false;
    }
    let mut i: usize = 0;
    while i < a.len()
        invariant
            a@.len() == b@.len(),
            0 <= i <= a@.len(),
            forall|k: int| 0 <= k < i ==> a@[k] == b@[k],
        decreases a@.len() - i,
    {
        if a[i] != b[i] {
            return false;
        }
        i += 1;
    }
    assert(a@ =~= b@);
    true
}

/// The calls of a full solve in order: round `k` is `(k, 0)`, the `j`-th
/// posterior update after it is `(k, j)`.
pub open spec fn schedule() -> Seq<(usize, usize)> {
    Seq::new(
        (MAX_ITERATION * (POSTERIOR_UPDATES_PER_ROUND + 1)) as nat,
        |i: int|
            (
                (i / (POSTERIOR_UPDATES_PER_ROUND + 1) + 1) as usize,
                (i % (POSTERIOR_UPDATES_PER_ROUND + 1)) as usize,
            ),
    )
}

/// Runs the schedule of a full solve: `MAX_ITERATION` sampling rounds,
/// each followed by `POSTERIOR_UPDATES_PER_ROUND` posterior-update steps.
/// `sample(k)` runs round `k`, `update(k, j)` the `j`-th update after it.
/// Returns the calls it made, in order.
pub fn run_schedule<S: Fn(usize), U: Fn(usize, usize)>(sample: &S, update: &U) -> (r: Vec<
    (usize, usize),
>)
    requires
        forall|k: usize| 1 <= k <= MAX_ITERATION ==> sample.requires((k,)),
        forall|k: usize, j: usize|
            1 <= k <= MAX_ITERATION && 1 <= j <= POSTERIOR_UPDATES_PER_ROUND ==> update.requires(
                (k, j),
            ),
    ensures
        r@ == schedule(),
{
    let mut calls: Vec<(usize, usize)> = Vec::new();
    let mut k: usize = 1;
    assert(schedule().len() == 44);
    assert(calls@ =~= schedule().subrange(0, 0));
    while k <= MAX_ITERATION
        invariant
            1 <= k <= MAX_ITERATION + 1,
            schedule().len() == 44,
            calls@ == schedule().subrange(0, (k - 1) * 11),
            forall|kk: usize| 1 <= kk <= MAX_ITERATION ==> sample.requires((kk,)),
            forall|kk: usize, j: usize|
                1 <= kk <= MAX_ITERATION && 1 <= j <= POSTERIOR_UPDATES_PER_ROUND
                    ==> update.requires((kk, j)),
        decreases MAX_ITERATION + 1 - k,
    {
        sample(k);
        let ghost before = calls@;
        calls.push((k, 0));
        proof {
            lemma_schedule_at(k as int, 0);
            assert(calls@ =~= schedule().subrange(0, (k - 1) * 11 + 1));
        }
        let mut j: usize = 1;
        while j <= POSTERIOR_UPDATES_PER_ROUND
            invariant
                1 <= k <= MAX_ITERATION,
                1 <= j <= POSTERIOR_UPDATES_PER_ROUND + 1,
                schedule().len() == 44,
                calls@ == schedule().subrange(0, (k - 1) * 11 + j),
                forall|kk: usize, jj: usize|
                    1 <= kk <= MAX_ITERATION && 1 <= jj <= POSTERIOR_UPDATES_PER_ROUND
                        ==> update.requires((kk, jj)),
            decreases POSTERIOR_UPDATES_PER_ROUND + 1 - j,
        {
            update(k, j);
            calls.push((k, j));
            proof {
                lemma_schedule_at(k as int, j as int);
                assert(calls@ =~= schedule().subrange(0, (k - 1) * 11 + j + 1));
            }
            j += 1;
        }
        assert(calls@ =~= schedule().subrange(0, k * 11));
        k += 1;
    }
    assert(calls@ =~= schedule());
    calls
}

proof fn lemma_schedule_at(k: int, j: int)
    requires
        1 <= k <= MAX_ITERATION,
        0 <= j <= POSTERIOR_UPDATES_PER_ROUND,
    ensures
        schedule()[(k - 1) * 11 + j] == (k as usize, j as usize),
{
    let i = (k - 1) * 11 + j;
    assert(i / 11 == k - 1);
    assert(i % 11 == j);
    assert(schedule().len() == 44);
    assert(schedule()[i] == ((i / 11 + 1) as usize, (i % 11) as usize));
}

} // verus!
