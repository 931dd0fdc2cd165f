//! The patrol simulation: a deterministic single-step transition over a
//! grid, a full walk that collects visited positions, and a loop detector
//! whose termination is proved from the bounded state space.

use vstd::prelude::*;
use crate::grid::{
    Cell, GuardState, GridModel, GridView, Heading, Position,
    grid_of, lemma_idx_bound, lemma_idx_injective, lemma_marker_scan_in_bounds,
    lemma_place_clear_restores, lemma_place_wf, load_ok, start_of,
};

verus! {

/// Turning right cycles Up, Right, Down, Left.
pub open spec fn turn_right_spec(h: Heading) -> Heading {
    match h {
        Heading::Up => Heading::Right,
        Heading::Right => Heading::Down,
        Heading::Down => Heading::Left,
        Heading::Left => Heading::Up,
    }
}

/// Row component of the unit offset of a heading.
pub open spec fn row_offset(h: Heading) -> int {
    match h {
        Heading::Up => -1,
        Heading::Down => 1,
        Heading::Right => 0,
        Heading::Left => 0,
    }
}

/// Column component of the unit offset of a heading.
pub open spec fn col_offset(h: Heading) -> int {
    match h {
        Heading::Right => 1,
        Heading::Left => -1,
        Heading::Up => 0,
        Heading::Down => 0,
    }
}

/// The agent stands on an open in-bounds cell.
pub open spec fn valid_state(v: GridView, s: GuardState) -> bool {
    v.cell_at(s.pos) == Some(Cell::Open)
}

/// One transition: exit if the cell ahead is off-grid, turn right in place
/// if it blocks, otherwise move forward one cell.
pub open spec fn step_spec(v: GridView, s: GuardState) -> Option<GuardState> {
    let r = s.pos.row + row_offset(s.heading);
    let c = s.pos.col + col_offset(s.heading);
    match v.cell(r, c) {
        None => None,
        Some(Cell::Open) => Some(
            GuardState {
                pos: Position { row: r as i64, col: c as i64 },
                heading: s.heading,
            },
        ),
        Some(_) => Some(GuardState { pos: s.pos, heading: turn_right_spec(s.heading) }),
    }
}

/// The agent state after `n` transitions, or `None` once it has exited.
pub open spec fn iterate(v: GridView, s: GuardState, n: nat) -> Option<GuardState>
    decreases n,
{
    if n == 0 {
        Some(s)
    } else {
        match iterate(v, s, (n - 1) as nat) {
            None => None,
            Some(t) => step_spec(v, t),
        }
    }
}

/// The run never exits: every iterate is still on the grid.
pub open spec fn guard_loops(v: GridView, s: GuardState) -> bool {
    forall|n: nat| (#[trigger] iterate(v, s, n)) is Some
}

/// Does the run pass through position `p` after exactly `n` transitions?
pub open spec fn hits_at(v: GridView, s: GuardState, n: nat, p: Position) -> bool {
    match iterate(v, s, n) {
        Some(t) => t.pos == p,
        None => false,
    }
}

/// Does the run ever stand on position `p`?
pub open spec fn visits(v: GridView, s: GuardState, p: Position) -> bool {
    exists|n: nat| hits_at(v, s, n, p)
}

/// Every position the run ever stands on, the start included.
pub open spec fn visited_positions(v: GridView, s: GuardState) -> Set<Position> {
    Set::new(|p: Position| visits(v, s, p))
}

/// In a well-formed grid both dimensions are bounded by a quarter of
/// `usize::MAX` as soon as the other dimension is positive.
pub proof fn lemma_dims_bounded(v: GridView)
    requires
        v.wf(),
        v.rows >= 1,
        v.cols >= 1,
    ensures
        4 * v.rows <= usize::MAX,
        4 * v.cols <= usize::MAX,
{
    assert(v.rows <= v.rows * v.cols) by (nonlinear_arith)
        requires v.rows >= 0, v.cols >= 1,
    ;
    assert(v.cols <= v.rows * v.cols) by (nonlinear_arith)
        requires v.cols >= 0, v.rows >= 1,
    ;
}

/// A step from a valid state lands in a valid state.
pub proof fn lemma_step_valid(v: GridView, s: GuardState)
    requires
        v.wf(),
        valid_state(v, s),
    ensures
        match step_spec(v, s) {
            Some(t) => valid_state(v, t),
            None => true,
        },
{
    let r = s.pos.row + row_offset(s.heading);
    let c = s.pos.col + col_offset(s.heading);
    match v.cell(r, c) {
        Some(Cell::Open) => {
            lemma_dims_bounded(v);
        },
        _ => {},
    }
}

/// Every state along a run from a valid state is valid.
pub proof fn lemma_iterate_valid(v: GridView, s: GuardState, n: nat)
    requires
        v.wf(),
        valid_state(v, s),
    ensures
        match iterate(v, s, n) {
            Some(t) => valid_state(v, t),
            None => true,
        },
    decreases n,
{
    if n > 0 {
        lemma_iterate_valid(v, s, (n - 1) as nat);
        match iterate(v, s, (n - 1) as nat) {
            Some(t) => {
                lemma_step_valid(v, t);
            },
            None => {},
        }
    }
}

/// Once the run has exited it stays exited.
pub proof fn lemma_exited_stays(v: GridView, s: GuardState, n: nat, m: nat)
    requires
        iterate(v, s, n) is None,
        n <= m,
    ensures
        iterate(v, s, m) is None,
    decreases m - n,
{
    if n < m {
        lemma_exited_stays(v, s, n, (m - 1) as nat);
    }
}

/// If the run is still going at time `k` it was going at every earlier time.
pub proof fn lemma_running_before(v: GridView, s: GuardState, n: nat, k: nat)
    requires
        iterate(v, s, k) is Some,
        n <= k,
    ensures
        iterate(v, s, n) is Some,
{
    if iterate(v, s, n) is None {
        lemma_exited_stays(v, s, n, k);
    }
}

/// Iterating `i + d` steps is iterating `d` steps from the state at `i`.
pub proof fn lemma_iterate_shift(v: GridView, s: GuardState, i: nat, d: nat)
    requires
        iterate(v, s, i) is Some,
    ensures
        iterate(v, s, (i + d) as nat) == iterate(v, iterate(v, s, i).unwrap(), d),
    decreases d,
{
    if d > 0 {
        lemma_iterate_shift(v, s, i, (d - 1) as nat);
    }
}

/// After a repeated state the run is periodic: any time at or past the
/// repeat maps back one whole period.
pub proof fn lemma_repeat_reduces(v: GridView, s: GuardState, i: nat, k: nat, n: nat)
    requires
        i < k,
        iterate(v, s, i) is Some,
        iterate(v, s, i) == iterate(v, s, k),
        n >= k,
    ensures
        iterate(v, s, n) == iterate(v, s, (n - (k - i)) as nat),
{
    let t = iterate(v, s, i).unwrap();
    let d = (n - k) as nat;
    lemma_iterate_shift(v, s, i, d);
    lemma_iterate_shift(v, s, k, d);
    assert(i + d == (n - (k - i)) as nat);
    assert(k + d == n);
}

/// There is an earlier time, before the repeat, with the same state as `n`.
pub open spec fn echoed_before(v: GridView, s: GuardState, n: nat, k: nat) -> bool {
    exists|m: nat| m < k && #[trigger] iterate(v, s, m) == iterate(v, s, n)
}

/// A repeated full state means the run never exits, and everything it ever
/// does it already did before the repeat.
pub proof fn lemma_repeat_covers(v: GridView, s: GuardState, i: nat, k: nat, n: nat)
    requires
        i < k,
        iterate(v, s, i) is Some,
        iterate(v, s, i) == iterate(v, s, k),
    ensures
        iterate(v, s, n) is Some,
        echoed_before(v, s, n, k),
    decreases n,
{
    if n < k {
        lemma_running_before(v, s, n, k);
        assert(n < k && iterate(v, s, n) == iterate(v, s, n));
    } else {
        let p = (k - i) as nat;
        lemma_repeat_reduces(v, s, i, k, n);
        lemma_repeat_covers(v, s, i, k, (n - p) as nat);
        let m = choose|m: nat|
            m < k && #[trigger] iterate(v, s, m) == iterate(v, s, (n - p) as nat);
        assert(m < k && iterate(v, s, m) == iterate(v, s, n));
    }
}

/// Index of a heading in the fixed Up, Right, Down, Left order.
pub open spec fn heading_idx(h: Heading) -> int {
    match h {
        Heading::Up => 0,
        Heading::Right => 1,
        Heading::Down => 2,
        Heading::Left => 3,
    }
}

/// Encode a full agent state as a single index below `4 * rows * cols`.
pub open spec fn enc(v: GridView, s: GuardState) -> int {
    4 * v.idx(s.pos.row as int, s.pos.col as int) + heading_idx(s.heading)
}

pub proof fn lemma_enc_bound(v: GridView, s: GuardState)
    requires
        v.wf(),
        valid_state(v, s),
    ensures
        0 <= enc(v, s) < 4 * v.cells.len(),
{
    lemma_idx_bound(v, s.pos.row as int, s.pos.col as int);
}

pub proof fn lemma_enc_injective(v: GridView, s1: GuardState, s2: GuardState)
    requires
        v.wf(),
        valid_state(v, s1),
        valid_state(v, s2),
        enc(v, s1) == enc(v, s2),
    ensures
        s1 == s2,
{
    let i1 = v.idx(s1.pos.row as int, s1.pos.col as int);
    let i2 = v.idx(s2.pos.row as int, s2.pos.col as int);
    vstd::arithmetic::div_mod::lemma_fundamental_div_mod_converse(
        enc(v, s1), 4, i1, heading_idx(s1.heading));
    vstd::arithmetic::div_mod::lemma_fundamental_div_mod_converse(
        enc(v, s2), 4, i2, heading_idx(s2.heading));
    assert(i1 == i2 && heading_idx(s1.heading) == heading_idx(s2.heading));
    lemma_idx_injective(
        v, s1.pos.row as int, s1.pos.col as int, s2.pos.row as int, s2.pos.col as int);
}

/// Executable twin of [`turn_right_spec`].
pub fn turn_right(h: Heading) -> (r: Heading)
    ensures
        r == turn_right_spec(h),
{
    match h {
        Heading::Up => Heading::Right,
        Heading::Right => Heading::Down,
        Heading::Down => Heading::Left,
        Heading::Left => Heading::Up,
    }
}

/// One transition of the agent; `None` means it has exited the grid.
pub fn step(grid: &GridModel, s: GuardState) -> (r: Option<GuardState>)
    requires
        grid@.wf(),
        valid_state(grid@, s),
    ensures
        r == step_spec(grid@, s),
{
    proof {
        lemma_dims_bounded(grid@);
    }
    let dr: i64 = match s.heading {
        Heading::Up => -1,
        Heading::Down => 1,
        Heading::Right => 0,
        Heading::Left => 0,
    };
    let dc: i64 = match s.heading {
        Heading::Right => 1,
        Heading::Left => -1,
        Heading::Up => 0,
        Heading::Down => 0,
    };
    let ahead = Position { row: s.pos.row + dr, col: s.pos.col + dc };
    match grid.get(ahead) {
        None => None,
        Some(Cell::Open) => Some(GuardState { pos: ahead, heading: s.heading }),
        Some(_) => Some(GuardState { pos: s.pos, heading: turn_right(s.heading) }),
    }
}

/// The state after `m` transitions, on runs known to be still going.
pub open spec fn state_at(v: GridView, s: GuardState, m: nat) -> GuardState
    recommends
        iterate(v, s, m) is Some,
{
    iterate(v, s, m).unwrap()
}

/// Encoding of the state after `m` transitions.
pub open spec fn enc_at(v: GridView, s: GuardState, m: nat) -> int {
    enc(v, state_at(v, s, m))
}

/// Cell index of the position after `m` transitions.
pub open spec fn pos_idx_at(v: GridView, s: GuardState, m: nat) -> int {
    v.idx(state_at(v, s, m).pos.row as int, state_at(v, s, m).pos.col as int)
}

/// A vector of `n` cleared flags.
fn bool_vec(n: usize) -> (v: Vec<bool>)
    ensures
        v@.len() == n,
        forall|i: int| 0 <= i < n ==> !(#[trigger] v@[i]),
{
    let mut v: Vec<bool> = Vec::new();
    let mut i: usize = 0;
    while i < n
        invariant
            i <= n,
            v@.len() == i,
            forall|k: int| 0 <= k < i ==> !(#[trigger] v@[k]),
        decreases n - i,
    {
        v.push(false);
        i = i + 1;
    }
    v
}

/// Cell index of the agent's position, as a `usize`.
fn pos_index(grid: &GridModel, s: GuardState) -> (j: usize)
    requires
        grid@.wf(),
        valid_state(grid@, s),
    ensures
        j as int == grid@.idx(s.pos.row as int, s.pos.col as int),
        0 <= j < grid@.cells.len(),
{
    proof {
        lemma_dims_bounded(grid@);
        lemma_idx_bound(grid@, s.pos.row as int, s.pos.col as int);
        assert(0 <= s.pos.row as int && (s.pos.row as int) < grid@.rows);
        assert(0 <= s.pos.col as int && (s.pos.col as int) < grid@.cols);
    }
    (s.pos.row as usize) * grid.cols() + (s.pos.col as usize)
}

/// Executable twin of [`heading_idx`].
fn heading_index(h: Heading) -> (r: usize)
    ensures
        r as int == heading_idx(h),
{
    match h {
        Heading::Up => 0,
        Heading::Right => 1,
        Heading::Down => 2,
        Heading::Left => 3,
    }
}

/// Executable twin of [`enc`].
fn enc_index(grid: &GridModel, s: GuardState) -> (e: usize)
    requires
        grid@.wf(),
        valid_state(grid@, s),
    ensures
        e as int == enc(grid@, s),
        0 <= e < 4 * grid@.cells.len(),
{
    proof {
        lemma_enc_bound(grid@, s);
    }
    let j = pos_index(grid, s);
    4 * j + heading_index(s.heading)
}

/// The moving agent for one simulation run. Simulators are cheap and are
/// created fresh per trial; they borrow the grid only for the run itself.
pub struct PatrolSimulator {
    pub start: GuardState,
}

impl PatrolSimulator {
    pub fn new(start: GuardState) -> (r: PatrolSimulator)
        ensures
            r.start == start,
    {
        PatrolSimulator { start }
    }

    /// Drive the transition to completion from `start`: collect the distinct
    /// visited positions and decide whether the run loops forever.
    ///
    /// The loop terminates because each round either ends the run or visits
    /// a full state never seen before, and there are only `rows * cols * 4`
    /// of them; that budget is the `decreases` measure.
    #[verifier::loop_isolation(false)]
    fn run(grid: &GridModel, start: GuardState) -> (r: (Vec<Position>, bool))
        requires
            grid@.wf(),
            valid_state(grid@, start),
        ensures
            r.1 == guard_loops(grid@, start),
            r.0@.no_duplicates(),
            forall|p: Position| r.0@.contains(p) <==> visits(grid@, start, p),
            r.0@.len() >= 1,
            r.0@[0] == start.pos,
    {
        let ghost v = grid@;
        let total = grid.rows() * grid.cols();
        proof {
            assert(total == v.cells.len());
        }
        let mut seen = bool_vec(4 * total);
        let mut pos_seen = bool_vec(total);
        let mut out: Vec<Position> = Vec::new();
        let mut cur = start;
        let ghost mut time: nat = 0;
        let ghost mut encs: Set<int> = Set::empty();
        loop
            invariant
                iterate(v, start, time) == Some(cur),
                seen@.len() == 4 * total,
                pos_seen@.len() == total,
                encs.finite(),
                encs.len() == time,
                time <= 4 * total,
                forall|e: int| #[trigger] encs.contains(e) ==> 0 <= e < 4 * total,
                forall|e: int|
                    #[trigger] encs.contains(e) <==> exists|m: nat|
                        m < time && #[trigger] enc_at(v, start, m) == e,
                forall|e: int| 0 <= e < 4 * total ==> (#[trigger] seen@[e] <==> encs.contains(e)),
                forall|j: int|
                    0 <= j < total ==> (#[trigger] pos_seen@[j] <==> exists|m: nat|
                        m < time && #[trigger] pos_idx_at(v, start, m) == j),
                forall|p: Position|
                    #[trigger] out@.contains(p) <==> exists|m: nat|
                        m < time && #[trigger] hits_at(v, start, m, p),
                out@.no_duplicates(),
                time == 0 ==> out@.len() == 0,
                time >= 1 ==> out@.len() >= 1 && out@[0] == start.pos,
            decreases 4 * total - time,
        {
            proof {
                lemma_iterate_valid(v, start, time);
                assert(valid_state(v, cur));
            }
            let e = enc_index(grid, cur);
            if seen[e] {
                proof {
                    let m = choose|m: nat|
                        m < time && #[trigger] enc_at(v, start, m) == e as int;
                    lemma_running_before(v, start, m, time);
                    lemma_iterate_valid(v, start, m);
                    lemma_enc_injective(v, state_at(v, start, m), cur);
                    assert(iterate(v, start, m) == iterate(v, start, time));
                    assert forall|n: nat| (#[trigger] iterate(v, start, n)) is Some by {
                        lemma_repeat_covers(v, start, m, time, n);
                    }
                    assert forall|p: Position|
                        visits(v, start, p) implies out@.contains(p) by {
                        let n = choose|n: nat| #[trigger] hits_at(v, start, n, p);
                        lemma_repeat_covers(v, start, m, time, n);
                        let m2 = choose|m2: nat|
                            m2 < time && #[trigger] iterate(v, start, m2) == iterate(
                                v, start, n);
                        assert(hits_at(v, start, m2, p));
                    }
                    assert forall|p: Position|
                        out@.contains(p) implies visits(v, start, p) by {
                        let m3 = choose|m3: nat|
                            m3 < time && #[trigger] hits_at(v, start, m3, p);
                        assert(visits(v, start, p));
                    }
                }
                return (out, true);
            }
            seen.set(e, true);
            proof {
                assert(!encs.contains(e as int));
                vstd::set::axiom_set_insert_len(encs, e as int);
                encs = encs.insert(e as int);
                assert(enc_at(v, start, time) == e as int);
                assert forall|e2: int| #[trigger] encs.contains(e2) implies exists|m: nat|
                    m < time + 1 && #[trigger] enc_at(v, start, m) == e2 by {
                    if e2 == e as int {
                        assert(enc_at(v, start, time) == e2);
                    } else {
                        let m = choose|m: nat|
                            m < time && #[trigger] enc_at(v, start, m) == e2;
                        assert(m < time + 1 && enc_at(v, start, m) == e2);
                    }
                }
                // The new count stays within the state-space budget.
                let rng = vstd::set_lib::set_int_range(0, 4 * total as int);
                vstd::set_lib::lemma_int_range(0, 4 * total as int);
                assert(encs.subset_of(rng));
                vstd::set_lib::lemma_len_subset(encs, rng);
            }
            let j = pos_index(grid, cur);
            let ghost pre_out = out@;
            proof {
                assert(hits_at(v, start, time, cur.pos));
                assert(pos_idx_at(v, start, time) == j as int);
            }
            if !pos_seen[j] {
                proof {
                    assert(!out@.contains(cur.pos)) by {
                        if out@.contains(cur.pos) {
                            let m = choose|m: nat|
                                m < time && #[trigger] hits_at(v, start, m, cur.pos);
                            lemma_running_before(v, start, m, time);
                            lemma_iterate_valid(v, start, m);
                            assert(pos_idx_at(v, start, m) == j as int);
                            assert(pos_seen@[j as int] == false);
                        }
                    }
                }
                pos_seen.set(j, true);
                out.push(cur.pos);
                proof {
                    assert(out@ == pre_out.push(cur.pos));
                    assert forall|p: Position|
                        #[trigger] out@.contains(p) <==> (pre_out.contains(p)
                            || p == cur.pos) by {
                        if out@.contains(p) {
                            let i = choose|i: int|
                                0 <= i < out@.len() && out@[i] == p;
                            if i < pre_out.len() {
                                assert(pre_out[i] == p);
                            }
                        }
                        if pre_out.contains(p) {
                            let i = choose|i: int|
                                0 <= i < pre_out.len() && pre_out[i] == p;
                            assert(out@[i] == p);
                        }
                        if p == cur.pos {
                            assert(out@[out@.len() - 1] == p);
                        }
                    }
                    assert(out@.no_duplicates());
                }
            } else {
                proof {
                    let m = choose|m: nat|
                        m < time && #[trigger] pos_idx_at(v, start, m) == j as int;
                    lemma_running_before(v, start, m, time);
                    lemma_iterate_valid(v, start, m);
                    lemma_idx_injective(
                        v,
                        state_at(v, start, m).pos.row as int,
                        state_at(v, start, m).pos.col as int,
                        cur.pos.row as int,
                        cur.pos.col as int,
                    );
                    assert(state_at(v, start, m).pos == cur.pos);
                    assert(hits_at(v, start, m, cur.pos));
                    assert(out@.contains(cur.pos));
                    assert(forall|p: Position|
                        #[trigger] out@.contains(p) <==> (pre_out.contains(p)
                            || p == cur.pos));
                }
            }
            proof {
                assert(out@.contains(cur.pos));
                assert(out@.len() >= 1);
                assert(out@[0] == start.pos) by {
                    if time == 0 {
                        assert(pre_out.len() == 0);
                        assert(cur == start);
                    } else {
                        assert(pre_out[0] == start.pos);
                    }
                }
            }
            let ghost old_time = time;
            let nx = step(grid, cur);
            proof {
                time = time + 1;
                assert(iterate(v, start, time) == step_spec(v, cur));
                assert forall|j2: int|
                    0 <= j2 < total implies (#[trigger] pos_seen@[j2] <==> exists|m: nat|
                        m < time && #[trigger] pos_idx_at(v, start, m) == j2) by {
                    if pos_seen@[j2] {
                        if j2 == j as int {
                            assert(pos_idx_at(v, start, old_time) == j2);
                        } else {
                            let m = choose|m: nat|
                                m < old_time && #[trigger] pos_idx_at(v, start, m) == j2;
                            assert(m < time && pos_idx_at(v, start, m) == j2);
                        }
                    } else {
                        assert(j2 != j as int);
                        if exists|m: nat|
                            m < time && #[trigger] pos_idx_at(v, start, m) == j2 {
                            let m = choose|m: nat|
                                m < time && #[trigger] pos_idx_at(v, start, m) == j2;
                            if m < old_time {
                                assert(pos_seen@[j2]);
                            } else {
                                assert(m == old_time);
                                assert(pos_idx_at(v, start, old_time) == j as int);
                            }
                        }
                    }
                }
                assert forall|p: Position|
                    #[trigger] out@.contains(p) <==> exists|m: nat|
                        m < time && #[trigger] hits_at(v, start, m, p) by {
                    if out@.contains(p) {
                        if p == cur.pos {
                            assert(hits_at(v, start, old_time, p));
                        } else {
                            assert(pre_out.contains(p));
                            let m = choose|m: nat|
                                m < old_time && #[trigger] hits_at(v, start, m, p);
                            assert(m < time && hits_at(v, start, m, p));
                        }
                    }
                    if exists|m: nat| m < time && #[trigger] hits_at(v, start, m, p) {
                        let m = choose|m: nat|
                            m < time && #[trigger] hits_at(v, start, m, p);
                        if m < old_time {
                            assert(pre_out.contains(p));
                            assert(out@.contains(p));
                        } else {
                            assert(m == old_time);
                            assert(p == cur.pos);
                            assert(out@.contains(p));
                        }
                    }
                }
            }
            match nx {
                None => {
                    proof {
                        assert(iterate(v, start, time) is None);
                        assert(!guard_loops(v, start));
                        assert forall|p: Position|
                            visits(v, start, p) implies out@.contains(p) by {
                            let n = choose|n: nat| #[trigger] hits_at(v, start, n, p);
                            if n >= time {
                                lemma_exited_stays(v, start, time, n);
                            }
                        }
                        assert forall|p: Position|
                            out@.contains(p) implies visits(v, start, p) by {
                            let m3 = choose|m3: nat|
                                m3 < time && #[trigger] hits_at(v, start, m3, p);
                        }
                        assert(out@.len() >= 1 && out@[0] == start.pos);
                    }
                    return (out, false);
                },
                Some(t) => {
                    cur = t;
                },
            }
        }
    }

    /// Part-one mode: the set of distinct positions the agent stands on
    /// before exiting (or, on a looping grid, ever), start included.
    pub fn walk(&self, grid: &GridModel) -> (visited: Vec<Position>)
        requires
            grid@.wf(),
            valid_state(grid@, self.start),
        ensures
            visited@.no_duplicates(),
            forall|p: Position|
                visited@.contains(p) <==> visits(grid@, self.start, p),
            visited@.to_set() == visited_positions(grid@, self.start),
            visited@.len() >= 1,
            visited@[0] == self.start.pos,
    {
        let (out, _looping) = Self::run(grid, self.start);
        proof {
            assert(out@.to_set() =~= visited_positions(grid@, self.start));
        }
        out
    }

    /// Part-two mode: does the patrol from `start` repeat a full state and
    /// thus run forever?
    pub fn detects_loop(&self, grid: &GridModel, start: GuardState) -> (r: bool)
        requires
            grid@.wf(),
            valid_state(grid@, start),
        ensures
            r == guard_loops(grid@, start),
    {
        let (_out, looping) = Self::run(grid, start);
        looping
    }
}

/// Encodings of the first `k` states of a run whose states are pairwise
/// distinct: a finite set of exactly `k` indices below `4 * cells`.
proof fn build_enc_set(v: GridView, s: GuardState, k: nat) -> (e: Set<int>)
    requires
        v.wf(),
        valid_state(v, s),
        forall|m: nat| m < k ==> (#[trigger] iterate(v, s, m)) is Some,
        forall|m1: nat, m2: nat|
            m1 < m2 < k ==> #[trigger] iterate(v, s, m1) != #[trigger] iterate(
                v, s, m2),
    ensures
        e.finite(),
        e.len() == k,
        forall|x: int| #[trigger] e.contains(x) ==> 0 <= x < 4 * v.cells.len(),
        forall|x: int|
            #[trigger] e.contains(x) <==> exists|m: nat|
                m < k && #[trigger] enc_at(v, s, m) == x,
    decreases k,
{
    if k == 0 {
        Set::empty()
    } else {
        let prev = build_enc_set(v, s, (k - 1) as nat);
        let x = enc_at(v, s, (k - 1) as nat);
        lemma_iterate_valid(v, s, (k - 1) as nat);
        lemma_enc_bound(v, state_at(v, s, (k - 1) as nat));
        assert(!prev.contains(x)) by {
            if prev.contains(x) {
                let m = choose|m: nat|
                    m < (k - 1) as nat && #[trigger] enc_at(v, s, m) == x;
                lemma_iterate_valid(v, s, m);
                lemma_enc_injective(
                    v, state_at(v, s, m), state_at(v, s, (k - 1) as nat));
            }
        }
        vstd::set::axiom_set_insert_len(prev, x);
        let e = prev.insert(x);
        assert forall|y: int| #[trigger] e.contains(y) implies exists|m: nat|
            m < k && #[trigger] enc_at(v, s, m) == y by {
            if y == x {
                assert(enc_at(v, s, (k - 1) as nat) == y);
            } else {
                let m = choose|m: nat|
                    m < (k - 1) as nat && #[trigger] enc_at(v, s, m) == y;
                assert(m < k && enc_at(v, s, m) == y);
            }
        }
        e
    }
}

/// The step budget: a run that is still on the grid after
/// `rows * cols * 4` transitions can never exit, because only that many
/// full states exist and a repeated state makes the run periodic. So any
/// run that exits does so within the budget; with the detector's
/// `decreases` measure this is why loop detection always terminates.
pub proof fn lemma_still_running_past_budget_loops(v: GridView, s: GuardState)
    requires
        v.wf(),
        valid_state(v, s),
        iterate(v, s, (4 * v.cells.len()) as nat) is Some,
    ensures
        guard_loops(v, s),
{
    let nn = (4 * v.cells.len()) as nat;
    assert forall|m: nat| m <= nn implies (#[trigger] iterate(v, s, m)) is Some by {
        lemma_running_before(v, s, m, nn);
    }
    if exists|m1: nat, m2: nat|
        m1 < m2 <= nn && #[trigger] iterate(v, s, m1) == #[trigger] iterate(
            v, s, m2) {
        let (m1, m2) = choose|m1: nat, m2: nat|
            m1 < m2 <= nn && #[trigger] iterate(v, s, m1) == #[trigger] iterate(
                v, s, m2);
        assert forall|n: nat| (#[trigger] iterate(v, s, n)) is Some by {
            lemma_repeat_covers(v, s, m1, m2, n);
        }
    } else {
        let e = build_enc_set(v, s, (nn + 1) as nat);
        let rng = vstd::set_lib::set_int_range(0, 4 * v.cells.len() as int);
        vstd::set_lib::lemma_int_range(0, 4 * v.cells.len() as int);
        assert(e.subset_of(rng));
        vstd::set_lib::lemma_len_subset(e, rng);
        assert(false);
    }
}

/// The visited-position set of any run contains the start position.
pub proof fn lemma_visited_contains_start(v: GridView, s: GuardState)
    ensures
        visited_positions(v, s).contains(s.pos),
{
    assert(hits_at(v, s, 0, s.pos));
}

/// The cell directly behind the agent, against its current heading.
pub open spec fn behind_of(s: GuardState) -> Position {
    Position {
        row: (s.pos.row - row_offset(s.heading)) as i64,
        col: (s.pos.col - col_offset(s.heading)) as i64,
    }
}

/// Placing an obstruction directly behind the agent never changes the
/// outcome of the very first transition: the step only reads the cell
/// ahead, and the cell behind is never the cell ahead.
pub proof fn lemma_obstruction_behind_keeps_first_step(v: GridView, s: GuardState)
    requires
        v.wf(),
        valid_state(v, s),
    ensures
        step_spec(v.place(behind_of(s)), s) == step_spec(v, s),
{
    let w = v.place(behind_of(s));
    lemma_place_wf(v, behind_of(s));
    let r = s.pos.row + row_offset(s.heading);
    let c = s.pos.col + col_offset(s.heading);
    if v.in_bounds(r, c) {
        lemma_dims_bounded(v);
        let ahead = Position { row: r as i64, col: c as i64 };
        assert(ahead != behind_of(s));
        assert(w.cell_at(ahead) == v.cell_at(ahead));
        assert(w.cell(r, c) == v.cell(r, c));
    } else {
        assert(w.cell(r, c) is None && v.cell(r, c) is None);
    }
}

/// Determinism: the patrol is a pure function of the grid and the start.
/// Two runs over equal grids from equal starts follow the same trajectory
/// step for step, so they visit identical position sets and agree on
/// looping; with [`PatrolSimulator::walk`] and
/// [`PatrolSimulator::detects_loop`] pinned to these spec functions, two
/// calls on the same grid return identical results.
pub proof fn lemma_patrol_deterministic(
    v1: GridView,
    v2: GridView,
    s1: GuardState,
    s2: GuardState,
)
    requires
        v1 == v2,
        s1 == s2,
    ensures
        forall|n: nat| iterate(v1, s1, n) == iterate(v2, s2, n),
        visited_positions(v1, s1) == visited_positions(v2, s2),
        guard_loops(v1, s1) == guard_loops(v2, s2),
{
}

/// A start one cell from the edge, facing outward, exits on the very first
/// transition and visits exactly its own cell.
pub proof fn lemma_boundary_exit(v: GridView, s: GuardState)
    requires
        v.wf(),
        valid_state(v, s),
        !v.in_bounds(
            s.pos.row + row_offset(s.heading),
            s.pos.col + col_offset(s.heading),
        ),
    ensures
        iterate(v, s, 1) is None,
        visited_positions(v, s) == set![s.pos],
{
    assert(step_spec(v, s) is None);
    assert(iterate(v, s, 0) == Some(s));
    assert(iterate(v, s, 1) is None);
    assert forall|p: Position|
        visited_positions(v, s).contains(p) implies p == s.pos by {
        let n = choose|n: nat| #[trigger] hits_at(v, s, n, p);
        if n >= 1 {
            lemma_exited_stays(v, s, 1, n);
        }
    }
    assert(hits_at(v, s, 0, s.pos));
    assert(visited_positions(v, s) =~= set![s.pos]);
}

/// The obstruction placements (among visited, non-start positions) that
/// make the patrol loop forever.
pub open spec fn looping_placements(v: GridView, s: GuardState) -> Set<Position> {
    Set::new(
        |p: Position| visits(v, s, p) && p != s.pos && guard_loops(v.place(p), s),
    )
}

/// Count of distinct positions visited by the unobstructed patrol, start
/// included; `None` exactly when the grid text is rejected or holds no
/// start marker.
pub fn part_one(input: &str) -> (r: Option<u64>)
    ensures
        match r {
            Some(n) => load_ok(input@) && start_of(input@) is Some && n as nat
                == visited_positions(
                grid_of(input@),
                start_of(input@).unwrap(),
            ).len(),
            None => !load_ok(input@) || start_of(input@) is None,
        },
{
    let g = match GridModel::load(input) {
        Ok(g) => g,
        Err(_) => {
            return None;
        },
    };
    let start = match g.find_start() {
        Some(s) => s,
        None => {
            return None;
        },
    };
    proof {
        lemma_marker_scan_in_bounds(input@);
    }
    let sim = PatrolSimulator::new(start);
    let visited = sim.walk(&g);
    proof {
        visited@.unique_seq_to_set();
    }
    Some(visited.len() as u64)
}

/// Count of single-cell obstruction placements, on visited non-start
/// positions, that make the patrol loop forever; `None` exactly when the
/// grid text is rejected or holds no start marker.
#[verifier::loop_isolation(false)]
pub fn part_two(input: &str) -> (r: Option<u64>)
    ensures
        match r {
            Some(n) => load_ok(input@) && start_of(input@) is Some && n as nat
                == looping_placements(
                grid_of(input@),
                start_of(input@).unwrap(),
            ).len(),
            None => !load_ok(input@) || start_of(input@) is None,
        },
{
    let mut g = match GridModel::load(input) {
        Ok(g) => g,
        Err(_) => {
            return None;
        },
    };
    let start = match g.find_start() {
        Some(s) => s,
        None => {
            return None;
        },
    };
    proof {
        lemma_marker_scan_in_bounds(input@);
    }
    let ghost v = g@;
    let sim = PatrolSimulator::new(start);
    let visited = sim.walk(&g);
    let mut count: u64 = 0;
    let ghost mut looped: Set<Position> = Set::empty();
    let mut i: usize = 0;
    while i < visited.len()
        invariant
            g@ == v,
            i <= visited@.len(),
            count <= i,
            looped.finite(),
            looped.len() == count,
            forall|q: Position|
                #[trigger] looped.contains(q) <==> ((exists|m: int|
                    0 <= m < i && #[trigger] visited@[m] == q) && q != start.pos
                    && guard_loops(v.place(q), start)),
        decreases visited@.len() - i,
    {
        let p = visited[i];
        let ghost pre_looped = looped;
        if !(p == start.pos) {
            proof {
                assert(visited@.contains(p));
                assert(visits(v, start, p));
                let n = choose|n: nat| #[trigger] hits_at(v, start, n, p);
                lemma_iterate_valid(v, start, n);
                assert(v.cell_at(p) == Some(Cell::Open));
                assert(v.placeable(p));
                lemma_place_wf(v, p);
            }
            g.place_obstruction(p);
            proof {
                assert(g@ == v.place(p));
                assert(v.place(p).cell_at(start.pos) == v.cell_at(start.pos));
                assert(valid_state(v.place(p), start));
            }
            let sim2 = PatrolSimulator::new(start);
            let b = sim2.detects_loop(&g, start);
            g.clear_obstruction(p);
            proof {
                lemma_place_clear_restores(v, p);
                assert(g@ == v);
            }
            if b {
                proof {
                    assert(!looped.contains(p)) by {
                        if looped.contains(p) {
                            let m = choose|m: int|
                                0 <= m < i && #[trigger] visited@[m] == p;
                            assert(visited@[m] == visited@[i as int]);
                        }
                    }
                    vstd::set::axiom_set_insert_len(looped, p);
                    looped = looped.insert(p);
                }
                assert(count < u64::MAX);
                count = count + 1;
            }
        }
        i = i + 1;
        proof {
            assert forall|q: Position|
                #[trigger] looped.contains(q) <==> ((exists|m: int|
                    0 <= m < i && #[trigger] visited@[m] == q) && q != start.pos
                    && guard_loops(v.place(q), start)) by {
                if looped.contains(q) {
                    if pre_looped.contains(q) {
                        let m = choose|m: int|
                            0 <= m < i - 1 && #[trigger] visited@[m] == q;
                        assert(visited@[m] == q);
                    } else {
                        assert(q == p);
                        assert(visited@[i - 1] == q);
                    }
                }
                if (exists|m: int| 0 <= m < i && #[trigger] visited@[m] == q)
                    && q != start.pos && guard_loops(v.place(q), start) {
                    let m = choose|m: int| 0 <= m < i && #[trigger] visited@[m] == q;
                    if m < i - 1 {
                        assert(pre_looped.contains(q));
                    } else {
                        assert(q == p);
                        assert(looped.contains(q));
                    }
                }
            }
        }
    }
    proof {
        assert(looped =~= looping_placements(v, start)) by {
            assert forall|q: Position|
                looped.contains(q) <==> looping_placements(v, start).contains(q) by {
                if looped.contains(q) {
                    let m = choose|m: int| 0 <= m < i && #[trigger] visited@[m] == q;
                    assert(visited@.contains(q));
                }
                if looping_placements(v, start).contains(q) {
                    assert(visits(v, start, q));
                    assert(visited@.contains(q));
                    let m = choose|m: int|
                        0 <= m < visited@.len() && visited@[m] == q;
                    assert(0 <= m < i && visited@[m] == q);
                }
            }
        }
    }
    Some(count)
}

} // verus!
