//! The search engine and path reconstruction.
//!
//! `find_path` grows a tree of search nodes forward from the start state.  A
//! frontier holds the indices of unexpanded nodes; each round pops a node of
//! least accumulated cost, and either stops — the node has reached the step
//! horizon — or expands it into seven successors, one per sampled curvature,
//! each scored by the cost model against the landmarks near the popped node.
//! The returned path walks the ancestor chain of the terminal node back to
//! the root, so it always holds exactly `PLAN_STEPS + 1` positions and starts
//! at the start state's position.

use vstd::prelude::*;
use crate::cost::{distance, LOCAL_COST_BOUND};
use crate::drive::{is_step_of, DriveState, CURVE_LIMIT, CURVE_SAMPLE_UNIT, MAX_CURVATURE,
    SPEED_LIMIT};
use crate::fixed::{abs_int, tdiv, SCALE};
use crate::points::{Point, Pos, SimplePointMap};

verus! {

/// Seconds each expansion advances the simulated state: 0.1 s.
pub const PLAN_STEP_TIME: i64 = 100_000;

/// Expansion steps to the horizon: three seconds of plan at 0.1 s per step.
pub const PLAN_STEPS: u32 = 30;

/// Radius of the landmark query made at each expanded node: 0.5 meters.
pub const LANDMARK_QUERY_RADIUS: i64 = 500_000;

/// Largest start-position magnitude `find_path` accepts.
pub const START_POS_LIMIT: i64 = 100_000_000_000;

/// Largest start-heading magnitude `find_path` accepts.
pub const START_ANGLE_LIMIT: i64 = 1_000_000_000_000;

/// A start state the planner accepts: bounded coordinates, heading,
/// curvature and speed, with room for thirty steps of drift.
pub open spec fn start_ok(s: DriveState) -> bool {
    &&& abs_int(s.pos.x as int) <= START_POS_LIMIT
    &&& abs_int(s.pos.y as int) <= START_POS_LIMIT
    &&& abs_int(s.angle as int) <= START_ANGLE_LIMIT
    &&& abs_int(s.curvature as int) <= CURVE_LIMIT
    &&& abs_int(s.speed as int) <= SPEED_LIMIT
}

/// The curvature of successor branch `j`, for `j` in `0..7`: seven evenly
/// spaced samples spanning `-MAX_CURVATURE` to `MAX_CURVATURE`.
pub open spec fn curv_sample(j: int) -> int {
    (j - 3) * CURVE_SAMPLE_UNIT
}

/// Distance one expansion travels at speed `v`.
pub open spec fn step_dist_spec(v: int) -> int {
    tdiv(PLAN_STEP_TIME * v, SCALE as int)
}

/// Whether `r` is the `j`-th successor of `s`: `s` with sampled curvature
/// `curv_sample(j)`, stepped forward for one plan step at its speed.
pub open spec fn is_successor(s: DriveState, j: int, r: DriveState) -> bool {
    is_step_of(
        DriveState { curvature: curv_sample(j) as i64, ..s },
        step_dist_spec(s.speed as int),
        r,
    )
}

/// Whether `r` is one of the seven sampled successors of `s`.
pub open spec fn some_successor(s: DriveState, r: DriveState) -> bool {
    exists|b: int| 0 <= b < 7 && #[trigger] is_successor(s, b, r)
}

/// The seven successor states of `state`, one per sampled curvature.
#[verifier::loop_isolation(false)]
pub fn get_possible_next_states(state: DriveState) -> (out: Vec<DriveState>)
    requires
        state.wf(),
    ensures
        out@.len() == 7,
        forall|j: int| 0 <= j < 7 ==> is_successor(state, j, #[trigger] out@[j]),
        forall|j: int| 0 <= j < 7 ==> (#[trigger] out@[j]).speed == state.speed,
        forall|j: int|
            0 <= j < 7 ==> abs_int((#[trigger] out@[j]).curvature as int) <= MAX_CURVATURE,
        forall|j: int|
            0 <= j < 7 ==> state.pos.x - 2_000_000 <= (#[trigger] out@[j]).pos.x as int
                <= state.pos.x + 2_000_000,
        forall|j: int|
            0 <= j < 7 ==> state.pos.y - 2_000_000 <= (#[trigger] out@[j]).pos.y as int
                <= state.pos.y + 2_000_000,
        forall|j: int|
            0 <= j < 7 ==> state.angle - 16_000_000 <= (#[trigger] out@[j]).angle as int
                <= state.angle + 16_000_000,
{
    let mut output: Vec<DriveState> = Vec::new();
    let mut idx: usize = 0;
    proof {
        crate::fixed::lemma_tdiv_abs(PLAN_STEP_TIME as int * (state.speed as int), SCALE as int);
        assert(abs_int(PLAN_STEP_TIME as int * (state.speed as int)) <= 1_000_000_000_000)
            by (nonlinear_arith)
            requires
                abs_int(state.speed as int) <= SPEED_LIMIT as int,
                SPEED_LIMIT == 10_000_000,
                PLAN_STEP_TIME == 100_000;
        vstd::arithmetic::div_mod::lemma_div_is_ordered(
            abs_int(PLAN_STEP_TIME as int * (state.speed as int)),
            1_000_000_000_000,
            SCALE as int,
        );
        vstd::arithmetic::div_mod::lemma_div_multiples_vanish(1_000_000, SCALE as int);
    }
    while idx < 7
        invariant
            output@.len() == idx,
            idx <= 7,
            forall|j: int| 0 <= j < idx ==> is_successor(state, j, #[trigger] output@[j]),
            forall|j: int| 0 <= j < idx ==> (#[trigger] output@[j]).speed == state.speed,
            forall|j: int|
                0 <= j < idx ==> abs_int((#[trigger] output@[j]).curvature as int)
                    <= MAX_CURVATURE,
            forall|j: int|
                0 <= j < idx ==> state.pos.x - 2_000_000 <= (#[trigger] output@[j]).pos.x as int
                    <= state.pos.x + 2_000_000,
            forall|j: int|
                0 <= j < idx ==> state.pos.y - 2_000_000 <= (#[trigger] output@[j]).pos.y as int
                    <= state.pos.y + 2_000_000,
            forall|j: int|
                0 <= j < idx ==> state.angle - 16_000_000 <= (#[trigger] output@[j]).angle as int
                    <= state.angle + 16_000_000,
        decreases 7 - idx,
    {
        let t: i64 = (idx as i64) - 3;
        let new_curvature: i64 = t * CURVE_SAMPLE_UNIT;
        let new_drive_state = DriveState { curvature: new_curvature, ..state };
        let stepped = new_drive_state.step(PLAN_STEP_TIME);
        output.push(stepped);
        idx = idx + 1;
    }
    output
}

/// One explored state: its accumulated cost, the arena index of its parent,
/// and the number of expansions from the root.
#[derive(Clone, Copy)]
struct SearchNode {
    state: DriveState,
    cost: i64,
    parent: usize,
    steps: u32,
}

/// Parent links point strictly backward in the arena, the root is its own
/// parent at step zero, and every other node sits one step below its parent.
spec fn links_wf(arena: Seq<SearchNode>) -> bool {
    &&& arena.len() >= 1
    &&& arena[0].parent == 0
    &&& arena[0].steps == 0
    &&& forall|j: int|
        1 <= j < arena.len() ==> (#[trigger] arena[j]).parent < j && arena[j].steps == arena[
            arena[j].parent as int
        ].steps + 1
}

/// Bounds every node of a search from `start` satisfies.
spec fn node_ok(start: DriveState, nd: SearchNode) -> bool {
    &&& abs_int(nd.state.pos.x as int) <= START_POS_LIMIT + 2_000_000 * (nd.steps as int)
    &&& abs_int(nd.state.pos.y as int) <= START_POS_LIMIT + 2_000_000 * (nd.steps as int)
    &&& abs_int(nd.state.angle as int) <= START_ANGLE_LIMIT + 16_000_000 * (nd.steps as int)
    &&& abs_int(nd.state.curvature as int) <= CURVE_LIMIT
    &&& nd.state.speed == start.speed
    &&& nd.steps <= PLAN_STEPS
    &&& abs_int(nd.cost as int) <= ((nd.steps as int) + 1) * (LOCAL_COST_BOUND as int)
}

spec fn arena_wf(arena: Seq<SearchNode>, start: DriveState) -> bool {
    &&& links_wf(arena)
    &&& arena[0].state == start
    &&& arena[0].cost == 0
    &&& forall|j: int| 0 <= j < arena.len() ==> node_ok(start, #[trigger] arena[j])
}

/// Every non-root node is a sampled successor of its parent.
spec fn succ_linked(arena: Seq<SearchNode>) -> bool {
    forall|j: int|
        #![trigger arena[j].parent]
        1 <= j < arena.len() ==> some_successor(arena[arena[j].parent as int].state, arena[j].state)
}

/// A chain of drive states in which every state after the first is one of
/// the seven sampled successors of the state before it.
pub open spec fn feasible_chain(start: DriveState, states: Seq<DriveState>) -> bool {
    &&& states.len() >= 1
    &&& states[0] == start
    &&& forall|q: int|
        #![trigger states[q]]
        0 <= q < states.len() - 1 ==> some_successor(states[q], states[q + 1])
}

/// Powers of eight, the branching factor plus one.
spec fn pow8(k: nat) -> nat
    decreases k,
{
    if k == 0 {
        1
    } else {
        8 * pow8((k - 1) as nat)
    }
}

proof fn lemma_pow8_pos(k: nat)
    ensures
        pow8(k) >= 1,
    decreases k,
{
    if k > 0 {
        lemma_pow8_pos((k - 1) as nat);
    }
}

/// How much unexplored work one frontier entry can still create: grows
/// geometrically with the entry's remaining depth.
spec fn node_weight(nd: SearchNode) -> nat {
    pow8((PLAN_STEPS + 1 - nd.steps) as nat)
}

/// The termination measure of the search: total weight of the frontier.
spec fn frontier_measure(frontier: Seq<usize>, arena: Seq<SearchNode>) -> nat
    decreases frontier.len(),
{
    if frontier.len() == 0 {
        0
    } else {
        frontier_measure(frontier.drop_last(), arena) + node_weight(
            arena[frontier.last() as int],
        )
    }
}

/// Appending to the arena leaves the weight of an in-bounds frontier alone.
proof fn lemma_measure_arena_push(frontier: Seq<usize>, arena: Seq<SearchNode>, nd: SearchNode)
    requires
        forall|q: int| 0 <= q < frontier.len() ==> (#[trigger] frontier[q]) < arena.len(),
    ensures
        frontier_measure(frontier, arena.push(nd)) == frontier_measure(frontier, arena),
    decreases frontier.len(),
{
    if frontier.len() > 0 {
        lemma_measure_arena_push(frontier.drop_last(), arena, nd);
        assert(arena.push(nd)[frontier.last() as int] == arena[frontier.last() as int]);
    }
}

proof fn lemma_measure_update(frontier: Seq<usize>, arena: Seq<SearchNode>, i: int, x: usize)
    requires
        0 <= i < frontier.len(),
    ensures
        frontier_measure(frontier.update(i, x), arena) as int == frontier_measure(
            frontier,
            arena,
        ) as int - node_weight(arena[frontier[i] as int]) as int + node_weight(
            arena[x as int],
        ) as int,
    decreases frontier.len(),
{
    if i == frontier.len() - 1 {
        assert(frontier.update(i, x).drop_last() =~= frontier.drop_last());
        assert(frontier.update(i, x).last() == x);
    } else {
        lemma_measure_update(frontier.drop_last(), arena, i, x);
        assert(frontier.update(i, x).drop_last() =~= frontier.drop_last().update(i, x));
        assert(frontier.update(i, x).last() == frontier.last());
    }
}

/// The arena index of the `k`-th ancestor of node `i`.
spec fn anc(arena: Seq<SearchNode>, i: int, k: nat) -> int
    decreases k,
{
    if k == 0 {
        i
    } else {
        anc(arena, arena[i].parent as int, (k - 1) as nat)
    }
}

proof fn lemma_anc_props(arena: Seq<SearchNode>, i: int, k: nat)
    requires
        links_wf(arena),
        0 <= i < arena.len(),
        k <= arena[i].steps,
    ensures
        0 <= anc(arena, i, k) < arena.len(),
        arena[anc(arena, i, k)].steps == arena[i].steps - k,
    decreases k,
{
    if k > 0 {
        assert(i != 0);
        lemma_anc_props(arena, arena[i].parent as int, (k - 1) as nat);
    }
}

proof fn lemma_anc_step(arena: Seq<SearchNode>, i: int, k: nat)
    requires
        links_wf(arena),
        0 <= i < arena.len(),
        k + 1 <= arena[i].steps,
    ensures
        anc(arena, i, (k + 1) as nat) == arena[anc(arena, i, k)].parent,
    decreases k,
{
    lemma_anc_props(arena, i, k);
    if k == 0 {
        assert(anc(arena, i, 1) == anc(arena, arena[i].parent as int, 0));
    } else {
        assert(i != 0);
        lemma_anc_step(arena, arena[i].parent as int, (k - 1) as nat);
        assert(anc(arena, i, (k + 1) as nat) == anc(arena, arena[i].parent as int, k));
        assert(anc(arena, i, k) == anc(arena, arena[i].parent as int, (k - 1) as nat));
    }
}

/// The positions reconstructed from a terminal node are the positions of a
/// feasible chain of drive states out of the start state.
/// One link of the reconstructed chain: the node `q+1` levels below the
/// terminal is a sampled successor of the node `q` levels below it.
proof fn lemma_chain_link(arena: Seq<SearchNode>, start: DriveState, t: int, q: int)
    requires
        arena_wf(arena, start),
        succ_linked(arena),
        0 <= t < arena.len(),
        0 <= q < arena[t].steps,
    ensures
        some_successor(
            arena[anc(arena, t, (arena[t].steps - q) as nat)].state,
            arena[anc(arena, t, (arena[t].steps - q - 1) as nat)].state,
        ),
{
    let st = arena[t].steps as int;
    lemma_anc_props(arena, t, (st - q - 1) as nat);
    let m = anc(arena, t, (st - q - 1) as nat);
    assert(arena[m].steps == q + 1);
    assert(m != 0);
    lemma_anc_step(arena, t, (st - q - 1) as nat);
    assert(anc(arena, t, (st - q) as nat) == arena[m].parent as int);
    assert(some_successor(arena[arena[m].parent as int].state, arena[m].state));
}

/// The positions reconstructed from a terminal node are the positions of a
/// feasible chain of drive states out of the start state.
#[verifier::rlimit(80)]
proof fn lemma_chain_of_arena(arena: Seq<SearchNode>, start: DriveState, t: int, pts: Seq<Pos>)
    requires
        arena_wf(arena, start),
        succ_linked(arena),
        0 <= t < arena.len(),
        pts.len() == arena[t].steps + 1,
        forall|q: int|
            0 <= q < pts.len() ==> #[trigger] pts[q] == arena[anc(
                arena,
                t,
                (arena[t].steps - q) as nat,
            )].state.pos,
    ensures
        exists|states: Seq<DriveState>|
            {
                &&& #[trigger] feasible_chain(start, states)
                &&& states.len() == pts.len()
                &&& forall|q: int| 0 <= q < states.len() ==> pts[q] == (#[trigger] states[q]).pos
            },
{
    let st = arena[t].steps as int;
    let states = Seq::new(pts.len(), |q: int| arena[anc(arena, t, (st - q) as nat)].state);
    lemma_anc_props(arena, t, st as nat);
    let a0 = anc(arena, t, st as nat);
    assert(arena[a0].steps == 0);
    if a0 != 0 {
        assert(arena[a0].steps == arena[arena[a0].parent as int].steps + 1);
        assert(false);
    }
    assert(states[0] == start);
    assert forall|q: int|
        #![trigger states[q]]
        0 <= q < states.len() - 1 implies some_successor(states[q], states[q + 1]) by {
        lemma_chain_link(arena, start, t, q);
        assert(states[q] == arena[anc(arena, t, (st - q) as nat)].state);
        assert(states[q + 1] == arena[anc(arena, t, (st - q - 1) as nat)].state);
    }
    assert(feasible_chain(start, states));
    assert forall|q: int| 0 <= q < states.len() implies pts[q] == (#[trigger] states[q]).pos by {}
}

/// The ordered positions of the chain from the root to `terminal`.
#[verifier::loop_isolation(false)]
fn reconstruct_path(arena: &Vec<SearchNode>, terminal: usize) -> (path: Path)
    requires
        links_wf(arena@),
        (terminal as int) < arena@.len(),
    ensures
        path.points@.len() == arena@[terminal as int].steps + 1,
        path.points@[0] == arena@[0].state.pos,
        path.points@[arena@[terminal as int].steps as int] == arena@[terminal as int].state.pos,
        forall|q: int|
            0 <= q < path.points@.len() ==> #[trigger] path.points@[q] == arena@[anc(
                arena@,
                terminal as int,
                (arena@[terminal as int].steps - q) as nat,
            )].state.pos,
{
    let mut rev: Vec<Pos> = Vec::new();
    let mut cur: usize = terminal;
    while cur != 0
        invariant
            (cur as int) < arena@.len(),
            rev@.len() == arena@[terminal as int].steps - arena@[cur as int].steps,
            cur as int == anc(arena@, terminal as int, rev@.len() as nat),
            forall|q: int|
                0 <= q < rev@.len() ==> #[trigger] rev@[q] == arena@[anc(
                    arena@,
                    terminal as int,
                    q as nat,
                )].state.pos,
        decreases arena@[cur as int].steps,
    {
        rev.push(arena[cur].state.pos);
        proof {
            lemma_anc_step(arena@, terminal as int, (rev@.len() - 1) as nat);
        }
        cur = arena[cur].parent;
    }
    rev.push(arena[0].state.pos);
    let n: usize = rev.len();
    let mut pts: Vec<Pos> = Vec::new();
    let mut i: usize = 0;
    while i < n
        invariant
            pts@.len() == i,
            i <= n,
            forall|q: int| 0 <= q < i ==> #[trigger] pts@[q] == rev@[n - 1 - q],
        decreases n - i,
    {
        pts.push(rev[n - 1 - i]);
        i = i + 1;
    }
    proof {
        let steps_t = arena@[terminal as int].steps as int;
        assert(pts@[0] == rev@[steps_t]);
        assert(anc(arena@, terminal as int, steps_t as nat) == 0);
        assert(pts@[steps_t] == rev@[0]);
        assert(anc(arena@, terminal as int, 0) == terminal as int);
    }
    Path { points: pts }
}

/// Pops one index of least accumulated cost from the frontier.
#[verifier::loop_isolation(false)]
fn pop_min(frontier: &mut Vec<usize>, arena: &Vec<SearchNode>) -> (res: usize)
    requires
        old(frontier)@.len() >= 1,
        forall|j: int| 0 <= j < old(frontier)@.len() ==> (#[trigger] old(frontier)@[j]) < arena@.len(),
    ensures
        (res as int) < arena@.len(),
        old(frontier)@.contains(res),
        final(frontier)@.len() == old(frontier)@.len() - 1,
        forall|j: int|
            0 <= j < final(frontier)@.len() ==> old(frontier)@.contains(
                #[trigger] final(frontier)@[j],
            ),
        forall|j: int|
            0 <= j < final(frontier)@.len() ==> arena@[res as int].cost <= arena@[(
            #[trigger] final(frontier)@[j]) as int].cost,
        frontier_measure(final(frontier)@, arena@) as int == frontier_measure(
            old(frontier)@,
            arena@,
        ) as int - node_weight(arena@[res as int]) as int,
{
    let mut mi: usize = 0;
    let mut j: usize = 1;
    while j < frontier.len()
        invariant
            mi < j,
            j <= frontier@.len(),
            forall|k: int|
                0 <= k < j ==> arena@[frontier@[mi as int] as int].cost <= arena@[(
                #[trigger] frontier@[k]) as int].cost,
        decreases frontier@.len() - j,
    {
        if arena[frontier[j]].cost < arena[frontier[mi]].cost {
            mi = j;
        }
        j = j + 1;
    }
    let res: usize = frontier[mi];
    let ghost pre: Seq<usize> = frontier@;
    proof {
        assert(pre[mi as int] == res);
    }
    frontier.swap_remove(mi);
    proof {
        lemma_measure_update(pre, arena@, mi as int, pre.last());
        let upd = pre.update(mi as int, pre.last());
        assert(frontier@ =~= upd.drop_last());
        assert(frontier_measure(upd, arena@) == frontier_measure(upd.drop_last(), arena@)
            + node_weight(arena@[upd.last() as int]));
        if mi as int == pre.len() - 1 {
            assert(upd.last() == pre.last());
            assert(pre.last() == pre[mi as int]);
        } else {
            assert(upd.last() == pre.last());
        }
        assert forall|k: int| 0 <= k < frontier@.len() implies old(frontier)@.contains(
            #[trigger] frontier@[k],
        ) && arena@[res as int].cost <= arena@[(frontier@[k]) as int].cost by {
            if k == mi as int {
                assert(frontier@[k] == pre[pre.len() - 1]);
            } else {
                assert(frontier@[k] == pre[k]);
            }
        }
    }
    res
}

/// A planned trajectory: positions from the start to the horizon.
pub struct Path {
    pub points: Vec<Pos>,
}

/// The motion planner.
pub struct Planner {}

/// Appending a well-formed child of an existing node preserves the arena
/// invariants.
proof fn lemma_arena_push_ok(a0: Seq<SearchNode>, start: DriveState, node: SearchNode, b: int)
    requires
        arena_wf(a0, start),
        succ_linked(a0),
        (node.parent as int) < a0.len(),
        node.steps == a0[node.parent as int].steps + 1,
        node_ok(start, node),
        0 <= b < 7,
        is_successor(a0[node.parent as int].state, b, node.state),
    ensures
        arena_wf(a0.push(node), start),
        succ_linked(a0.push(node)),
{
    let a1 = a0.push(node);
    let n0 = a0.len() as int;
    assert(a1[n0] == node);
    assert(a1[0] == a0[0]);
    assert forall|k: int| 0 <= k < a1.len() implies node_ok(start, #[trigger] a1[k]) by {
        if k < n0 {
            assert(a1[k] == a0[k]);
        }
    }
    assert forall|j: int|
        1 <= j < a1.len() implies (#[trigger] a1[j]).parent < j && a1[j].steps == a1[a1[j].parent
        as int].steps + 1 by {
        if j < n0 {
            assert(a1[j] == a0[j]);
            assert(a1[a0[j].parent as int] == a0[a0[j].parent as int]);
        } else {
            assert(a1[a1[j].parent as int] == a0[node.parent as int]);
        }
    }
    assert forall|j: int|
        #![trigger a1[j].parent]
        1 <= j < a1.len() implies some_successor(a1[a1[j].parent as int].state, a1[j].state) by {
        if j < n0 {
            assert(a1[j] == a0[j]);
            assert(a1[a0[j].parent as int] == a0[a0[j].parent as int]);
            assert(some_successor(a0[a0[j].parent as int].state, a0[j].state));
        } else {
            assert(a1[j] == node);
            assert(a1[a1[j].parent as int] == a0[node.parent as int]);
            assert(is_successor(a1[a1[j].parent as int].state, b, a1[j].state));
        }
    }
    assert(succ_linked(a1));
}

/// Expands one non-terminal node: scores its seven successors against the
/// landmarks around it and pushes them onto the arena and the frontier.
#[verifier::loop_isolation(false)]
#[verifier::spinoff_prover]
#[verifier::rlimit(100)]
fn expand_node(
    arena: &mut Vec<SearchNode>,
    frontier: &mut Vec<usize>,
    current_idx: usize,
    points: &SimplePointMap,
    Ghost(start_state): Ghost<DriveState>,
)
    requires
        start_ok(start_state),
        arena_wf(old(arena)@, start_state),
        succ_linked(old(arena)@),
        points.wf(),
        (current_idx as int) < old(arena)@.len(),
        old(arena)@[current_idx as int].steps < PLAN_STEPS,
        forall|q: int|
            0 <= q < old(frontier)@.len() ==> (#[trigger] old(frontier)@[q]) < old(arena)@.len(),
    ensures
        arena_wf(final(arena)@, start_state),
        succ_linked(final(arena)@),
        forall|q: int|
            0 <= q < final(frontier)@.len() ==> (#[trigger] final(frontier)@[q]) < final(arena)@.len(),
        final(frontier)@.len() == old(frontier)@.len() + 7,
        frontier_measure(final(frontier)@, final(arena)@) as int == frontier_measure(
            old(frontier)@,
            old(arena)@,
        ) as int + 7 * pow8(
            (PLAN_STEPS - old(arena)@[current_idx as int].steps) as nat,
        ) as int,
{
    let current: SearchNode = arena[current_idx];
    proof {
        assert(current.state.wf());
    }
    let ghost m_popped: int = frontier_measure(frontier@, arena@) as int;
    let ghost child_weight: int = pow8((PLAN_STEPS - current.steps) as nat) as int;
    let next_states: Vec<DriveState> = get_possible_next_states(current.state);
    let relevant_points: Vec<Point> = points.query_radius(
        current.state.pos,
        LANDMARK_QUERY_RADIUS,
    );
    let mut j: usize = 0;
    proof {
        assert((0 as int) * child_weight == 0) by (nonlinear_arith);
    }
    while j < next_states.len()
        invariant
            arena_wf(arena@, start_state),
            succ_linked(arena@),
            forall|q: int| 0 <= q < frontier@.len() ==> (#[trigger] frontier@[q]) < arena@.len(),
            (current_idx as int) < arena@.len(),
            arena@[current_idx as int] == current,
            j <= 7,
            frontier@.len() == old(frontier)@.len() + j,
            frontier_measure(frontier@, arena@) as int == m_popped + (j as int) * child_weight,
        decreases 7 - j,
    {
        let ns: DriveState = next_states[j];
        proof {
            assert(ns.wf());
        }
        let local: i64 = distance(ns, &relevant_points);
        let idx: usize = arena.len();
        let node = SearchNode {
            state: ns,
            cost: current.cost + local,
            parent: current_idx,
            steps: current.steps + 1,
        };
        let ghost f0: Seq<usize> = frontier@;
        proof {
            lemma_measure_arena_push(f0, arena@, node);
        }
        let ghost a0: Seq<SearchNode> = arena@;
        arena.push(node);
        frontier.push(idx);
        proof {
            assert(is_successor(current.state, j as int, ns));
            lemma_arena_push_ok(a0, start_state, node, j as int);
            assert(frontier@.drop_last() =~= f0);
            assert(frontier@.last() == idx);
            assert(arena@[idx as int] == node);
            assert(frontier_measure(frontier@, arena@) == frontier_measure(f0, arena@)
                + node_weight(node));
            assert(node_weight(node) == child_weight);
            assert(((j as int) + 1) * child_weight == (j as int) * child_weight + child_weight)
                by (nonlinear_arith);
        }
        j = j + 1;
    }
}

impl Planner {
    pub fn new() -> (p: Planner) {
        Planner {}
    }

    /// Plans a trajectory from `start_state` through the landmarks of
    /// `points`: a cost-guided search expands the cheapest known partial
    /// path until one reaches the step horizon.  The returned path always
    /// holds exactly `PLAN_STEPS + 1` positions, begins at the start
    /// position, and its positions are those of a kinematically feasible
    /// chain of drive states out of `start_state`.
    #[verifier::loop_isolation(false)]
    #[verifier::rlimit(60)]
    pub fn find_path(&self, start_state: DriveState, points: &SimplePointMap) -> (path: Path)
        requires
            start_ok(start_state),
            points.wf(),
        ensures
            path.points@.len() == PLAN_STEPS + 1,
            path.points@[0] == start_state.pos,
            exists|states: Seq<DriveState>|
                {
                    &&& #[trigger] feasible_chain(start_state, states)
                    &&& states.len() == path.points@.len()
                    &&& forall|q: int|
                        0 <= q < states.len() ==> path.points@[q] == (#[trigger] states[q]).pos
                },
    {
        let mut arena: Vec<SearchNode> = Vec::new();
        arena.push(SearchNode { state: start_state, cost: 0, parent: 0, steps: 0 });
        let mut frontier: Vec<usize> = Vec::new();
        frontier.push(0);
        while frontier.len() > 0
            invariant
                arena_wf(arena@, start_state),
                succ_linked(arena@),
                frontier@.len() >= 1,
                forall|q: int| 0 <= q < frontier@.len() ==> (#[trigger] frontier@[q]) < arena@.len(),
            decreases frontier_measure(frontier@, arena@),
        {
            let ghost m_start: nat = frontier_measure(frontier@, arena@);
            let current_idx: usize = pop_min(&mut frontier, &arena);
            let current: SearchNode = arena[current_idx];
            if current.steps >= PLAN_STEPS {
                let path = reconstruct_path(&arena, current_idx);
                proof {
                    lemma_chain_of_arena(arena@, start_state, current_idx as int, path.points@);
                }
                return path;
            }
            expand_node(&mut arena, &mut frontier, current_idx, points, Ghost(start_state));
            proof {
                assert(node_weight(current) as int == 8 * pow8(
                    (PLAN_STEPS - current.steps) as nat,
                ) as int) by {
                    assert((PLAN_STEPS + 1 - current.steps) as nat >= 1);
                    assert(pow8((PLAN_STEPS + 1 - current.steps) as nat) == 8 * pow8(
                        ((PLAN_STEPS + 1 - current.steps) as nat - 1) as nat,
                    ));
                    assert(((PLAN_STEPS + 1 - current.steps) as nat - 1) as nat == (PLAN_STEPS
                        - current.steps) as nat);
                }
                lemma_pow8_pos((PLAN_STEPS - current.steps) as nat);
                assert(frontier_measure(frontier@, arena@) < m_start);
            }
        }
        Path { points: Vec::new() }
    }
}

} // verus!
