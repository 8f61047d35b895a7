//! Per-tick agent movement along a surface toward a destination.
//!
//! An agent moving from its position to its destination travels one of the
//! two arcs around the loop. A single symmetric predicate — does the traveled
//! arc meet an obstacle's occupied arc — decides obstruction for both
//! directions; the engine prefers the shorter way, detours the long way round
//! when only that is clear, and otherwise reports the agent as blocked, a
//! stable state rather than an error.

use vstd::prelude::*;
use crate::angle::{
    dir_spec, dist_spec, lemma_dist_min, lemma_distance_symmetric, lemma_wrap_add_wrapped,
    lemma_wrap_opposite, lemma_wrap_range, lemma_wrap_small, lemma_wrap_split,
    lemma_wrap_sub_wrapped, wrap, AngularScalar, PERIOD,
};
use crate::surface::{arc_contains, PlacedCollider, SurfacePlacement};
use crate::world::{OccupantKind, SurfaceEntry, SurfaceWorld};

verus! {

/// Millidegrees under which an agent counts as arrived at its destination.
pub const ARRIVAL_EPSILON: u32 = 100;

/// How far short of a worked occupable an agent aims, in millidegrees.
pub const APPROACH_OFFSET: u32 = 5_000;

/// Start of the arc traveled from `start` to `end` in direction `dir`
/// (`1` for increasing angle, anything else for decreasing).
pub open spec fn travel_lo(start: int, end: int, dir: int) -> int {
    if dir == 1 {
        start
    } else {
        end
    }
}

/// Length of the arc traveled from `start` to `end` in direction `dir`.
pub open spec fn travel_span(start: int, end: int, dir: int) -> int {
    if dir == 1 {
        wrap(end - start)
    } else {
        wrap(start - end)
    }
}

/// Whether `x` lies on the arc traveled from `start` to `end` in `dir`.
pub open spec fn on_travel(x: int, start: int, end: int, dir: int) -> bool {
    wrap(x - travel_lo(start, end, dir)) <= travel_span(start, end, dir)
}

/// Whether travel from `start` to `end` in direction `dir` meets the closed
/// obstacle arc centered at `obs_pos` of width `obs_width`. The traveled
/// arc's least circular distance to the center is zero when the center lies
/// on it and is otherwise attained at a travel endpoint, so the one test
/// serves both directions symmetrically: an endpoint within half the width
/// (travel may not start or end inside the obstacle), or the center on the
/// traveled arc (travel may not sweep across it).
pub open spec fn obstructs_spec(
    obs_pos: int,
    obs_width: int,
    start: int,
    end: int,
    dir: int,
) -> bool {
    ||| on_travel(obs_pos, start, end, dir)
    ||| 2 * dist_spec(start, obs_pos) <= obs_width
    ||| 2 * dist_spec(end, obs_pos) <= obs_width
}

/// The normal form of a difference can be taken through offsets from a
/// common base point.
proof fn lemma_offset_diff(c: int, t: int, lo: int)
    ensures
        wrap(c - t) == wrap(wrap(c - lo) - wrap(t - lo)),
{
    lemma_wrap_add_wrapped(c - lo, -(t - lo));
    lemma_wrap_sub_wrapped(wrap(c - lo), t - lo);
    assert((c - lo) - (t - lo) == c - t);
}

/// For a point off an arc, one of the arc's two endpoints is at least as
/// close to it as any point on the arc.
proof fn lemma_nearest_on_arc(c: int, lo: int, span: int, x: int)
    requires
        0 <= span < PERIOD,
        wrap(x - lo) <= span,
        wrap(c - lo) > span,
    ensures
        dist_spec(c, lo) <= dist_spec(c, x) || dist_spec(c, wrap(lo + span)) <= dist_spec(c, x),
{
    let p = PERIOD as int;
    let u = wrap(x - lo);
    let v = wrap(c - lo);
    lemma_wrap_range(x - lo);
    lemma_wrap_range(c - lo);
    lemma_offset_diff(c, x, lo);
    lemma_wrap_small(v - u);
    assert(wrap(c - x) == v - u);
    lemma_wrap_opposite(x, c);
    lemma_dist_min(c, x);
    let hi = wrap(lo + span);
    assert(wrap(hi - lo) == span) by {
        lemma_offset_diff(hi, lo, lo);
        lemma_wrap_small(0);
        lemma_wrap_sub_wrapped(hi, lo);
        lemma_wrap_add_wrapped(lo + span, -lo);
        lemma_wrap_small(span);
    }
    lemma_offset_diff(c, hi, lo);
    lemma_wrap_small(v - span);
    assert(wrap(c - hi) == v - span);
    lemma_wrap_opposite(hi, c);
    lemma_dist_min(c, hi);
    lemma_wrap_opposite(lo, c);
    lemma_dist_min(c, lo);
}

/// Law: the obstruction test is exactly "the traveled arc meets the
/// obstacle's occupied arc". For normalized angles it holds precisely when
/// some angle on the arc traveled from `s` to `e` in direction `dir` lies
/// within half the obstacle's width of the obstacle's center, whichever
/// direction is traveled.
pub proof fn lemma_obstructs_iff_arc_meets(c: int, w: int, s: int, e: int, dir: int)
    requires
        0 <= w,
        0 <= c < PERIOD,
        0 <= s < PERIOD,
        0 <= e < PERIOD,
    ensures
        obstructs_spec(c, w, s, e, dir) <==> exists|x: int|
            0 <= x < PERIOD && on_travel(x, s, e, dir) && arc_contains(c, w, x),
{
    let lo = travel_lo(s, e, dir);
    let span = travel_span(s, e, dir);
    let hi = if dir == 1 {
        e
    } else {
        s
    };
    lemma_wrap_range(e - s);
    lemma_wrap_range(s - e);
    lemma_wrap_small(0);
    assert(wrap(lo - lo) == 0);
    assert(wrap(hi - lo) == span);
    // The travel endpoint opposite `lo` is `hi`.
    assert(wrap(lo + span) == hi) by {
        lemma_wrap_add_wrapped(hi - lo, lo);
        assert(wrap(span + lo) == wrap(hi - lo + lo));
        lemma_wrap_small(hi);
    }
    if obstructs_spec(c, w, s, e, dir) {
        if on_travel(c, s, e, dir) {
            assert(dist_spec(c, c) == 0) by {
                lemma_wrap_small(0);
            }
            assert(on_travel(c, s, e, dir) && arc_contains(c, w, c));
        } else if 2 * dist_spec(s, c) <= w {
            lemma_distance_symmetric(s, c);
            assert(on_travel(s, s, e, dir) && arc_contains(c, w, s));
        } else {
            lemma_distance_symmetric(e, c);
            assert(on_travel(e, s, e, dir) && arc_contains(c, w, e));
        }
    }
    if exists|x: int| 0 <= x < PERIOD && on_travel(x, s, e, dir) && arc_contains(c, w, x) {
        let x = choose|x: int|
            0 <= x < PERIOD && on_travel(x, s, e, dir) && arc_contains(c, w, x);
        if !on_travel(c, s, e, dir) {
            lemma_nearest_on_arc(c, lo, span, x);
            lemma_distance_symmetric(c, lo);
            lemma_distance_symmetric(c, hi);
            assert(2 * dist_spec(s, c) <= w || 2 * dist_spec(e, c) <= w);
        }
    }
}

/// Tests whether an obstacle blocks travel from `start` to `end` in
/// direction `dir`.
pub fn is_obstructing(
    obstacle: &PlacedCollider,
    start: AngularScalar,
    end: AngularScalar,
    dir: i32,
) -> (r: bool)
    ensures
        r == obstructs_spec(
            obstacle.pos_val(),
            obstacle.width_val(),
            start.value(),
            end.value(),
            dir as int,
        ),
{
    let c = obstacle.placement.position;
    let on_path = AngularScalar::is_between(c, start, end, dir == 1);
    proof {
        if dir as int != 1 {
            lemma_wrap_split(start.value(), c.value(), end.value());
            lemma_wrap_range(start.value() - c.value());
            lemma_wrap_range(c.value() - end.value());
            lemma_wrap_range(start.value() - end.value());
        }
    }
    if on_path {
        return true;
    }
    let ds = start.distance(c);
    if 2 * (ds as u64) <= obstacle.collider.width as u64 {
        return true;
    }
    let de = end.distance(c);
    2 * (de as u64) <= obstacle.collider.width as u64
}

/// Whether an entry is a blocking region on the given body.
pub open spec fn is_obstacle_on(e: SurfaceEntry, body: u64) -> bool {
    e.placed.placement.body == body && e.kind is Obstacle
}

/// Whether no obstacle on the body blocks travel from `start` to `end` in
/// direction `dir`.
pub open spec fn path_free_spec(
    es: Seq<SurfaceEntry>,
    body: u64,
    start: int,
    end: int,
    dir: int,
) -> bool {
    forall|i: int|
        0 <= i < es.len() && is_obstacle_on(#[trigger] es[i], body) ==> !obstructs_spec(
            es[i].placed.pos_val(),
            es[i].placed.width_val(),
            start,
            end,
            dir,
        )
}

/// The direction the engine commits to: the shorter way when it is clear,
/// else the longer way when that is clear, else none.
pub open spec fn walk_dir_spec(es: Seq<SurfaceEntry>, body: u64, pos: int, dest: int) -> Option<
    int,
> {
    let s = dir_spec(pos, dest);
    if path_free_spec(es, body, pos, dest, s) {
        Some(s)
    } else if path_free_spec(es, body, pos, dest, -s) {
        Some(-s)
    } else {
        None
    }
}

/// An agent on a surface: its placement, where it is headed, and which way
/// it faces.
#[derive(Clone, Copy, Debug)]
pub struct NavAgent {
    pub placement: SurfacePlacement,
    pub destination: Option<AngularScalar>,
    pub facing_positive: bool,
}

/// What one tick of navigation did.
#[derive(Clone, Copy, PartialEq, Eq, Structural, Debug)]
pub enum StepOutcome {
    /// No destination, or close enough to it; the agent does not move.
    Arrived,
    /// A clear direction was committed to and the agent moved along it.
    Moved,
    /// Both ways round are blocked; the agent stays put this tick.
    Blocked,
}

impl SurfaceWorld {
    /// Tests travel from `start` to `end` in direction `dir` against every
    /// obstacle on the body.
    pub fn is_path_free(&self, body: u64, start: AngularScalar, end: AngularScalar, dir: i32) -> (r:
        bool)
        ensures
            r == path_free_spec(
                self.entries_view(),
                body,
                start.value(),
                end.value(),
                dir as int,
            ),
    {
        proof {
            self.lemma_view_fields();
        }
        let n = self.entries.len();
        for i in 0..n
            invariant
                n == self.entries_view().len(),
                forall|j: int|
                    0 <= j < i && is_obstacle_on(#[trigger] self.entries_view()[j], body)
                        ==> !obstructs_spec(
                        self.entries_view()[j].placed.pos_val(),
                        self.entries_view()[j].placed.width_val(),
                        start.value(),
                        end.value(),
                        dir as int,
                    ),
        {
            proof {
                self.lemma_view_fields();
            }
            let e = self.entries[i];
            let blocking = match e.kind {
                OccupantKind::Obstacle => e.placed.placement.body == body,
                _ => false,
            };
            if blocking {
                if is_obstructing(&e.placed, start, end, dir) {
                    return false;
                }
            }
        }
        true
    }

    /// Chooses a travel direction from `position` to `destination` on the
    /// body: the shorter way when clear, the long way round when only that is
    /// clear, `None` when both are blocked.
    pub fn get_walk_dir(&self, body: u64, position: AngularScalar, destination: AngularScalar) -> (r:
        Option<i32>)
        ensures
            match r {
                Some(d) => walk_dir_spec(
                    self.entries_view(),
                    body,
                    position.value(),
                    destination.value(),
                ) == Some(d as int),
                None => walk_dir_spec(
                    self.entries_view(),
                    body,
                    position.value(),
                    destination.value(),
                ) is None,
            },
    {
        let shortest = position.direction(destination);
        proof {
            assert(-1 <= shortest <= 1);
        }
        if self.is_path_free(body, position, destination, shortest) {
            return Some(shortest);
        }
        let longest = -shortest;
        if self.is_path_free(body, position, destination, longest) {
            return Some(longest);
        }
        None
    }

    /// One tick of movement: report arrival when there is no destination or
    /// it is within the arrival threshold; otherwise commit to a clear
    /// direction and advance `move_mdeg` along it (updating which way the
    /// agent faces), or report the agent blocked and leave it in place.
    pub fn step(&self, agent: &mut NavAgent, move_mdeg: u32) -> (r: StepOutcome)
        ensures
            final(agent).placement.body == old(agent).placement.body,
            final(agent).destination == old(agent).destination,
            match old(agent).destination {
                None => r == StepOutcome::Arrived && *final(agent) == *old(agent),
                Some(dest) => {
                    let pos = old(agent).placement.position.value();
                    if dist_spec(pos, dest.value()) < ARRIVAL_EPSILON {
                        r == StepOutcome::Arrived && *final(agent) == *old(agent)
                    } else {
                        match walk_dir_spec(
                            self.entries_view(),
                            old(agent).placement.body,
                            pos,
                            dest.value(),
                        ) {
                            None => r == StepOutcome::Blocked && *final(agent) == *old(agent),
                            Some(d) => {
                                &&& r == StepOutcome::Moved
                                &&& final(agent).placement.position.value() == wrap(
                                    pos + d * move_mdeg,
                                )
                                &&& final(agent).facing_positive == (d > 0)
                            },
                        }
                    }
                },
            },
    {
        let dest = match agent.destination {
            Some(d) => d,
            None => {
                return StepOutcome::Arrived;
            },
        };
        let dist = agent.placement.position.distance(dest);
        if dist < ARRIVAL_EPSILON {
            return StepOutcome::Arrived;
        }
        let dir = match self.get_walk_dir(agent.placement.body, agent.placement.position, dest) {
            Some(d) => d,
            None => {
                return StepOutcome::Blocked;
            },
        };
        proof {
            assert(-1 <= dir <= 1);
            assert(-(u32::MAX as int) <= (dir as int) * (move_mdeg as int) <= u32::MAX)
                by (nonlinear_arith)
                requires
                    -1 <= dir as int <= 1,
                    0 <= move_mdeg <= u32::MAX,
            ;
        }
        let delta = (dir as i64) * (move_mdeg as i64);
        agent.placement.position = agent.placement.position.add(delta);
        agent.facing_positive = dir > 0;
        StepOutcome::Moved
    }
}

/// Where an agent sent to work at an occupable aims: the occupable itself
/// for interior work, otherwise a spot short of it on the agent's side.
pub fn work_target(villager: AngularScalar, occupable: AngularScalar, interior: bool) -> (r:
    AngularScalar)
    ensures
        interior ==> r == occupable,
        !interior ==> r.value() == wrap(
            occupable.value() + dir_spec(villager.value(), occupable.value()) * (-(
            APPROACH_OFFSET as int)),
        ),
{
    if interior {
        occupable
    } else {
        let d = villager.direction(occupable);
        occupable.add((d as i64) * (-(APPROACH_OFFSET as i64)))
    }
}

} // verus!
