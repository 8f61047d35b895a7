//! Spatial and resource queries over the placement store.
//!
//! World positions are projected onto the nearest body's surface with exact
//! integer arithmetic: planar distances go through a verified integer square
//! root, and arc distances are kept in radius-unit × millidegree scale so
//! every comparison is exact.

use vstd::prelude::*;
use crate::angle::{dist_spec, AngularScalar};
use crate::storage::{amount_of, ResourceAmounts, ResourceKind, Storage};
use crate::surface::{Body, PlacedCollider, SurfaceCollider, SurfacePlacement, MAX_COORD};
use crate::collision::{colliding, is_colliding};
use crate::world::{has_body_spec, overlaps_spec, OccupantKind, SurfaceEntry, SurfaceWorld};

verus! {

/// The integer square root: the largest integer whose square is at most `n`;
/// zero for a nonpositive argument.
pub open spec fn sqrt_floor(n: int) -> int
    decreases n,
{
    if n <= 0 {
        0
    } else {
        let s = sqrt_floor(n - 1);
        if (s + 1) * (s + 1) <= n {
            s + 1
        } else {
            s
        }
    }
}

/// `sqrt_floor` is squeezed between the neighbouring squares.
pub proof fn lemma_sqrt_floor_bounds(n: int)
    requires
        n >= 0,
    ensures
        0 <= sqrt_floor(n),
        sqrt_floor(n) * sqrt_floor(n) <= n,
        n < (sqrt_floor(n) + 1) * (sqrt_floor(n) + 1),
    decreases n,
{
    if n > 0 {
        lemma_sqrt_floor_bounds(n - 1);
        let s = sqrt_floor(n - 1);
        if (s + 1) * (s + 1) <= n {
            assert(sqrt_floor(n) == s + 1);
            assert(n == (s + 1) * (s + 1));
            assert((s + 1) * (s + 1) < (s + 2) * (s + 2)) by (nonlinear_arith)
                requires
                    s >= 0,
            ;
        } else {
            assert(sqrt_floor(n) == s);
        }
    }
}

/// Any integer squeezed between the neighbouring squares is the square root.
pub proof fn lemma_sqrt_floor_unique(n: int, r: int)
    requires
        0 <= n,
        0 <= r,
        r * r <= n,
        n < (r + 1) * (r + 1),
    ensures
        r == sqrt_floor(n),
{
    lemma_sqrt_floor_bounds(n);
    let s = sqrt_floor(n);
    if r < s {
        assert((r + 1) * (r + 1) <= s * s) by (nonlinear_arith)
            requires
                0 <= r,
                r + 1 <= s,
        ;
    }
    if r > s {
        assert((s + 1) * (s + 1) <= r * r) by (nonlinear_arith)
            requires
                0 <= s,
                s + 1 <= r,
        ;
    }
}

/// Computes the integer square root by binary search.
pub fn isqrt(n: u64) -> (r: u64)
    ensures
        r == sqrt_floor(n as int),
{
    let mut lo: u64 = 0;
    let mut hi: u64 = 4_294_967_296;
    proof {
        assert((4_294_967_296int + 1) * (4_294_967_296int + 1) > u64::MAX) by (nonlinear_arith);
    }
    while lo < hi
        invariant
            lo <= hi <= 4_294_967_296,
            (lo as int) * (lo as int) <= n as int,
            (n as int) < ((hi as int) + 1) * ((hi as int) + 1),
        decreases hi - lo,
    {
        let mid = lo + (hi - lo + 1) / 2;
        proof {
            assert((mid as int) * (mid as int) <= 0x1_0000_0000int * 0x1_0000_0000int)
                by (nonlinear_arith)
                requires
                    0 <= mid as int <= 0x1_0000_0000int,
            ;
        }
        let sq = (mid as u128) * (mid as u128);
        if sq <= n as u128 {
            lo = mid;
        } else {
            hi = mid - 1;
        }
    }
    proof {
        lemma_sqrt_floor_unique(n as int, lo as int);
    }
    lo
}

/// Squared planar distance from a query point to a body's center.
pub open spec fn sq_dist(b: Body, x: int, y: int) -> int {
    (x - b.center_x) * (x - b.center_x) + (y - b.center_y) * (y - b.center_y)
}

/// Signed distance from a query point to a body's surface: planar distance to
/// the center, rounded down to an integer, minus the radius. Negative inside
/// the body.
pub open spec fn surface_dist(b: Body, x: int, y: int) -> int {
    sqrt_floor(sq_dist(b, x, y)) - b.radius
}

/// The surface point a query maps to on one body: the body, the offset of the
/// query from its center, and the signed distance to its surface. The offset
/// fixes where on the perimeter the query projects; converting it to an angle
/// against the body's up direction is the caller's concern.
#[derive(Clone, Copy, PartialEq, Eq, Structural, Debug)]
pub struct ClosestSurface {
    pub body: u64,
    pub offset_x: i64,
    pub offset_y: i64,
    pub distance: i64,
}

/// The projection result for one body.
pub open spec fn surface_result(b: Body, x: int, y: int) -> ClosestSurface {
    ClosestSurface {
        body: b.id,
        offset_x: (x - b.center_x) as i64,
        offset_y: (y - b.center_y) as i64,
        distance: surface_dist(b, x, y) as i64,
    }
}

/// The best projection over a body list: least surface distance, the earliest
/// listed body winning ties.
pub open spec fn closest_spec(bodies: Seq<Body>, x: int, y: int) -> Option<ClosestSurface>
    decreases bodies.len(),
{
    if bodies.len() == 0 {
        None
    } else {
        let pre = closest_spec(bodies.drop_last(), x, y);
        let cur = surface_result(bodies.last(), x, y);
        match pre {
            None => Some(cur),
            Some(p) => if cur.distance < p.distance {
                Some(cur)
            } else {
                Some(p)
            },
        }
    }
}

/// For a bounded query point and a well-formed body, the surface distance is
/// bounded, so it fits the result field exactly.
pub proof fn lemma_surface_dist_bounds(b: Body, x: int, y: int)
    requires
        b.wf(),
        -MAX_COORD <= x <= MAX_COORD,
        -MAX_COORD <= y <= MAX_COORD,
    ensures
        0 <= sq_dist(b, x, y) <= 8_000_000_000_000_000_000,
        0 <= sqrt_floor(sq_dist(b, x, y)) <= 3_000_000_000,
        -(MAX_COORD as int) <= surface_dist(b, x, y) <= 3_000_000_000,
{
    let dx = x - b.center_x;
    let dy = y - b.center_y;
    assert(0 <= dx * dx <= 4_000_000_000_000_000_000 && 0 <= dy * dy
        <= 4_000_000_000_000_000_000) by (nonlinear_arith)
        requires
            -2_000_000_000 <= dx <= 2_000_000_000,
            -2_000_000_000 <= dy <= 2_000_000_000,
    ;
    let n = sq_dist(b, x, y);
    lemma_sqrt_floor_bounds(n);
    let s = sqrt_floor(n);
    assert(s <= 3_000_000_000) by (nonlinear_arith)
        requires
            s * s <= n,
            n <= 8_000_000_000_000_000_000,
            s >= 0,
    ;
}

impl SurfaceWorld {
    /// Maps a world position onto the nearest body's surface: for each body,
    /// the planar distance from the point to the center minus the radius
    /// (negative inside the body); returns the best result, or `None` when no
    /// body is registered.
    pub fn find_closest_surface(&self, x: i64, y: i64) -> (r: Option<ClosestSurface>)
        requires
            self.wf(),
            -MAX_COORD <= x <= MAX_COORD,
            -MAX_COORD <= y <= MAX_COORD,
        ensures
            r == closest_spec(self.bodies_view(), x as int, y as int),
    {
        let mut best: Option<ClosestSurface> = None;
        proof {
            self.lemma_view_fields();
        }
        let n = self.bodies.len();
        for i in 0..n
            invariant
                n == self.bodies_view().len(),
                self.wf(),
                -MAX_COORD <= x <= MAX_COORD,
                -MAX_COORD <= y <= MAX_COORD,
                best == closest_spec(self.bodies_view().take(i as int), x as int, y as int),
        {
            proof {
                self.lemma_view_fields();
            }
            let b = self.bodies[i];
            proof {
                assert(self.bodies_view()[i as int].wf());
                lemma_surface_dist_bounds(b, x as int, y as int);
            }
            let dx = x - b.center_x;
            let dy = y - b.center_y;
            proof {
                assert(0 <= (dx as int) * (dx as int) <= 4_000_000_000_000_000_000 && 0 <= (
                dy as int) * (dy as int) <= 4_000_000_000_000_000_000) by (nonlinear_arith)
                    requires
                        -2_000_000_000 <= dx as int <= 2_000_000_000,
                        -2_000_000_000 <= dy as int <= 2_000_000_000,
                ;
            }
            let d2 = ((dx as i128) * (dx as i128) + (dy as i128) * (dy as i128)) as u64;
            let root = isqrt(d2);
            let dist = root as i64 - b.radius as i64;
            let cand = ClosestSurface { body: b.id, offset_x: dx, offset_y: dy, distance: dist };
            proof {
                assert(cand == surface_result(self.bodies_view()[i as int], x as int, y as int));
                assert(self.bodies_view().take(i as int + 1).drop_last() =~= self.bodies_view()
                    .take(i as int));
                assert(self.bodies_view().take(i as int + 1).last() == self.bodies_view()[i as int]);
            }
            let replace = match &best {
                None => true,
                Some(p) => cand.distance < p.distance,
            };
            if replace {
                best = Some(cand);
            }
        }
        proof {
            assert(self.bodies_view().take(n as int) =~= self.bodies_view());
        }
        best
    }
}

/// Law: the projection returns `None` exactly on an empty registry, and
/// otherwise the result belongs to some listed body and no listed body has a
/// strictly smaller surface distance.
pub proof fn lemma_closest_minimal(bodies: Seq<Body>, x: int, y: int)
    requires
        forall|i: int| 0 <= i < bodies.len() ==> (#[trigger] bodies[i]).wf(),
        -MAX_COORD <= x <= MAX_COORD,
        -MAX_COORD <= y <= MAX_COORD,
    ensures
        closest_spec(bodies, x, y) is None <==> bodies.len() == 0,
        match closest_spec(bodies, x, y) {
            Some(c) => {
                &&& exists|i: int|
                    0 <= i < bodies.len() && c == surface_result(#[trigger] bodies[i], x, y)
                &&& forall|i: int|
                    0 <= i < bodies.len() ==> surface_dist(#[trigger] bodies[i], x, y)
                        >= c.distance
            },
            None => true,
        },
    decreases bodies.len(),
{
    if bodies.len() > 0 {
        let head = bodies.drop_last();
        lemma_closest_minimal(head, x, y);
        let last = bodies.last();
        lemma_surface_dist_bounds(last, x, y);
        let cur = surface_result(last, x, y);
        assert(cur.distance == surface_dist(last, x, y));
        match closest_spec(head, x, y) {
            None => {
                assert(bodies[bodies.len() - 1] == last);
            },
            Some(p) => {
                let pi = choose|i: int| 0 <= i < head.len() && p == surface_result(head[i], x, y);
                lemma_surface_dist_bounds(head[pi], x, y);
                assert(p.distance == surface_dist(head[pi], x, y));
                let c = closest_spec(bodies, x, y).unwrap();
                assert(bodies[pi] == head[pi]);
                assert forall|i: int| 0 <= i < bodies.len() implies surface_dist(
                    #[trigger] bodies[i],
                    x,
                    y,
                ) >= c.distance by {
                    if i < head.len() {
                        assert(bodies[i] == head[i]);
                        assert(surface_dist(head[i], x, y) >= p.distance);
                    }
                }
            },
        }
    }
}

/// How much of one kind an entry stores for a given body: the storage amount
/// of a building on that body, nothing otherwise.
pub open spec fn entry_stored(e: SurfaceEntry, body: u64, kind: ResourceKind) -> int {
    if e.placed.placement.body == body {
        match e.kind {
            OccupantKind::Building(s) => amount_of(s.resources, kind),
            _ => 0,
        }
    } else {
        0
    }
}

/// Total of one kind stored on a body over a table prefix.
pub open spec fn total_stored(es: Seq<SurfaceEntry>, body: u64, kind: ResourceKind) -> int
    decreases es.len(),
{
    if es.len() == 0 {
        0
    } else {
        total_stored(es.drop_last(), body, kind) + entry_stored(es.last(), body, kind)
    }
}

/// The total is nonnegative and at most one storage's worth per entry.
pub proof fn lemma_total_stored_bound(es: Seq<SurfaceEntry>, body: u64, kind: ResourceKind)
    ensures
        0 <= total_stored(es, body, kind) <= es.len() * (u64::MAX as int),
    decreases es.len(),
{
    if es.len() > 0 {
        lemma_total_stored_bound(es.drop_last(), body, kind);
        assert((es.len() - 1) * (u64::MAX as int) + (u64::MAX as int) == es.len() * (
        u64::MAX as int)) by (nonlinear_arith);
    }
}

/// Combined totals of every kind stored on a body, in a wider integer type so
/// that no sum can overflow.
#[derive(Clone, Copy, PartialEq, Eq, Structural, Debug)]
pub struct ResourceTotals {
    pub wood: u128,
    pub food: u128,
}

impl SurfaceWorld {
    /// Folds every storage-bearing placement on the body into one combined
    /// total per kind.
    pub fn get_aggregate_on_body(&self, body: u64) -> (r: ResourceTotals)
        ensures
            r.wood == total_stored(self.entries_view(), body, ResourceKind::Wood),
            r.food == total_stored(self.entries_view(), body, ResourceKind::Food),
    {
        let mut wood: u128 = 0;
        let mut food: u128 = 0;
        proof {
            self.lemma_view_fields();
        }
        let n = self.entries.len();
        for i in 0..n
            invariant
                n == self.entries_view().len(),
                wood == total_stored(self.entries_view().take(i as int), body, ResourceKind::Wood),
                food == total_stored(self.entries_view().take(i as int), body, ResourceKind::Food),
        {
            proof {
                self.lemma_view_fields();
            }
            let e = self.entries[i];
            proof {
                let es = self.entries_view();
                assert(es.take(i as int + 1).drop_last() =~= es.take(i as int));
                assert(es.take(i as int + 1).last() == es[i as int]);
                lemma_total_stored_bound(es.take(i as int), body, ResourceKind::Wood);
                lemma_total_stored_bound(es.take(i as int), body, ResourceKind::Food);
                assert((i as int) * (u64::MAX as int) + (u64::MAX as int) < u128::MAX)
                    by (nonlinear_arith)
                    requires
                        0 <= i as int <= u64::MAX,
                ;
            }
            if e.placed.placement.body == body {
                match e.kind {
                    OccupantKind::Building(s) => {
                        wood = wood + s.resources.wood as u128;
                        food = food + s.resources.food as u128;
                    },
                    _ => {},
                }
            }
        }
        proof {
            assert(self.entries_view().take(n as int) =~= self.entries_view());
        }
        ResourceTotals { wood, food }
    }

    /// Whether the body's combined stores cover a cost.
    pub fn can_afford(&self, body: u64, cost: &ResourceAmounts) -> (r: bool)
        ensures
            r == (total_stored(self.entries_view(), body, ResourceKind::Wood) >= cost.wood
                && total_stored(self.entries_view(), body, ResourceKind::Food) >= cost.food),
    {
        let totals = self.get_aggregate_on_body(body);
        totals.wood >= cost.wood as u128 && totals.food >= cost.food as u128
    }
}

/// Arc distance along a body's perimeter between two angles, in radius-unit ×
/// millidegree scale: the body radius times the circular distance. One world
/// unit of arc length equals `180_000 / pi` of these units.
pub fn arc_distance_scaled(radius: u32, a: AngularScalar, b: AngularScalar) -> (r: u64)
    ensures
        r == radius * dist_spec(a.value(), b.value()),
{
    let d = a.distance(b);
    proof {
        assert((radius as int) * (d as int) <= 4_294_967_295int * 180_000int) by (nonlinear_arith)
            requires
                0 <= radius <= 4_294_967_295int,
                0 <= d <= 180_000,
        ;
    }
    (radius as u64) * (d as u64)
}

/// Whether an entry is a resource of the wanted kind on the origin's body
/// within the scaled arc range.
pub open spec fn in_range_entry(
    e: SurfaceEntry,
    b: Body,
    origin: SurfacePlacement,
    range_scaled: u64,
    kind: ResourceKind,
) -> bool {
    &&& e.placed.placement.body == origin.body
    &&& e.kind == OccupantKind::Resource(kind)
    &&& b.radius * dist_spec(origin.position.value(), e.placed.placement.position.value())
        <= range_scaled
}

/// The ids of the in-range entries, in table order.
pub open spec fn ids_in_range(
    es: Seq<SurfaceEntry>,
    b: Body,
    origin: SurfacePlacement,
    range_scaled: u64,
    kind: ResourceKind,
) -> Seq<u64>
    decreases es.len(),
{
    if es.len() == 0 {
        Seq::empty()
    } else {
        let pre = ids_in_range(es.drop_last(), b, origin, range_scaled, kind);
        if in_range_entry(es.last(), b, origin, range_scaled, kind) {
            pre.push(es.last().id)
        } else {
            pre
        }
    }
}

impl SurfaceWorld {
    /// Scans all resource placements on the origin's body and returns the ids
    /// of those of the wanted kind whose arc distance from the origin is
    /// within the scaled range. An unregistered body yields nothing.
    pub fn get_resources_in_range(
        &self,
        origin: &SurfacePlacement,
        range_scaled: u64,
        kind: ResourceKind,
    ) -> (r: Vec<u64>)
        requires
            self.wf(),
        ensures
            !has_body_spec(self.bodies_view(), origin.body) ==> r@ == Seq::<u64>::empty(),
            forall|bi: int|
                0 <= bi < self.bodies_view().len() && (#[trigger] self.bodies_view()[bi]).id
                    == origin.body ==> r@ == ids_in_range(
                    self.entries_view(),
                    self.bodies_view()[bi],
                    *origin,
                    range_scaled,
                    kind,
                ),
    {
        proof {
            self.lemma_view_fields();
        }
        let nb = self.bodies.len();
        let mut result: Vec<u64> = Vec::new();
        for bi in 0..nb
            invariant
                nb == self.bodies_view().len(),
                self.wf(),
                result@ == Seq::<u64>::empty(),
                forall|j: int| 0 <= j < bi ==> (#[trigger] self.bodies_view()[j]).id != origin.body,
        {
            proof {
                self.lemma_view_fields();
            }
            if self.bodies[bi].id == origin.body {
                let b = self.bodies[bi];
                let n = self.entries.len();
                for i in 0..n
                    invariant
                        n == self.entries_view().len(),
                        self.wf(),
                        b == self.bodies_view()[bi as int],
                        bi < self.bodies_view().len(),
                        b.id == origin.body,
                        result@ == ids_in_range(
                            self.entries_view().take(i as int),
                            b,
                            *origin,
                            range_scaled,
                            kind,
                        ),
                {
                    proof {
                        self.lemma_view_fields();
                    }
                    let e = self.entries[i];
                    proof {
                        let es = self.entries_view();
                        assert(es.take(i as int + 1).drop_last() =~= es.take(i as int));
                        assert(es.take(i as int + 1).last() == es[i as int]);
                    }
                    if e.placed.placement.body == origin.body && e.kind == OccupantKind::Resource(
                        kind,
                    ) {
                        let d = arc_distance_scaled(b.radius, origin.position,
                            e.placed.placement.position);
                        if d <= range_scaled {
                            result.push(e.id);
                        }
                    }
                }
                proof {
                    assert(self.entries_view().take(n as int) =~= self.entries_view());
                    let found: int = bi as int;
                    assert forall|k: int|
                        0 <= k < self.bodies_view().len() && (#[trigger] self.bodies_view()[k]).id
                            == origin.body implies self.bodies_view()[k]
                        == self.bodies_view()[found] by {
                        if k != found {
                            assert(self.bodies_view()[k].id != self.bodies_view()[found].id);
                        }
                    }
                }
                return result;
            }
        }
        result
    }
}

/// What the placement preview resolved to against the nearest surface.
#[derive(Clone, Copy, PartialEq, Eq, Structural, Debug)]
pub enum AttachState {
    /// The query point is too far from the surface to attach.
    Detached,
    /// Attached, but the spot is occupied or the body cannot pay the cost.
    AttachedInvalid,
    /// Attached, free, and affordable.
    AttachedValid,
}

/// How close to a body's surface a query point must be to attach a preview,
/// in world units.
pub const ATTACH_RANGE: i64 = 20;

impl SurfaceWorld {
    /// Decides what a placement preview at the projected surface point may
    /// do: detached when the surface is farther than the attach range, valid
    /// when the candidate arc overlaps nothing and the body can pay, invalid
    /// otherwise.
    pub fn classify_attachment(
        &self,
        closest: &ClosestSurface,
        angle: AngularScalar,
        width: u32,
        cost: &ResourceAmounts,
    ) -> (r: AttachState)
        ensures
            ({
                let candidate = PlacedCollider {
                    placement: SurfacePlacement { body: closest.body, position: angle },
                    collider: SurfaceCollider { width },
                };
                r == if closest.distance >= ATTACH_RANGE {
                    AttachState::Detached
                } else if !overlaps_spec(self.entries_view(), candidate) && total_stored(
                    self.entries_view(),
                    closest.body,
                    ResourceKind::Wood,
                ) >= cost.wood && total_stored(
                    self.entries_view(),
                    closest.body,
                    ResourceKind::Food,
                ) >= cost.food {
                    AttachState::AttachedValid
                } else {
                    AttachState::AttachedInvalid
                }
            }),
    {
        if closest.distance >= ATTACH_RANGE {
            return AttachState::Detached;
        }
        let candidate = PlacedCollider::new(
            SurfacePlacement { body: closest.body, position: angle },
            SurfaceCollider::new(width),
        );
        if !self.overlaps_anything(&candidate) && self.can_afford(closest.body, cost) {
            AttachState::AttachedValid
        } else {
            AttachState::AttachedInvalid
        }
    }
}

/// What is still owed of a cost after taking everything available up to it.
pub open spec fn owed(cost: int, available: int) -> int {
    if cost - available >= 0 {
        cost - available
    } else {
        0
    }
}

/// How one table row may change when a body's stores are drained: identity
/// and occupied arc are untouched; only the storage of a building on the
/// drained body may shrink.
pub open spec fn drained_entry(o: SurfaceEntry, n: SurfaceEntry, body: u64) -> bool {
    &&& n.id == o.id
    &&& n.placed == o.placed
    &&& if o.placed.placement.body == body {
        match o.kind {
            OccupantKind::Building(so) => match n.kind {
                OccupantKind::Building(sn) => {
                    &&& sn.max_amount == so.max_amount
                    &&& sn.resources.wood <= so.resources.wood
                    &&& sn.resources.food <= so.resources.food
                },
                _ => false,
            },
            _ => n.kind == o.kind,
        }
    } else {
        n.kind == o.kind
    }
}

/// Removing more than a body stores would be an accounting error; it is
/// reported, and nothing is changed.
#[derive(Clone, Copy, PartialEq, Eq, Structural, Debug)]
pub struct ResourceShortage;

/// Whether the table holds an entry with the given id.
pub open spec fn has_entry_spec(es: Seq<SurfaceEntry>, id: u64) -> bool {
    exists|i: int| 0 <= i < es.len() && (#[trigger] es[i]).id == id
}

impl SurfaceWorld {
    /// Drains a cost from the storages on a body, scanning them in table
    /// order and taking from each what it holds until the cost is covered.
    /// When the body's combined stores cannot cover the cost, nothing is
    /// changed and the shortage is reported.
    pub fn remove_resources(&mut self, body: u64, cost: &ResourceAmounts) -> (r: Result<
        (),
        ResourceShortage,
    >)
        requires
            old(self).wf(),
        ensures
            final(self).wf(),
            final(self).bodies_view() == old(self).bodies_view(),
            final(self).next_id_spec() == old(self).next_id_spec(),
            match r {
                Err(_) => {
                    &&& *final(self) == *old(self)
                    &&& !(total_stored(old(self).entries_view(), body, ResourceKind::Wood)
                        >= cost.wood && total_stored(
                        old(self).entries_view(),
                        body,
                        ResourceKind::Food,
                    ) >= cost.food)
                },
                Ok(_) => {
                    &&& total_stored(old(self).entries_view(), body, ResourceKind::Wood)
                        >= cost.wood
                    &&& total_stored(old(self).entries_view(), body, ResourceKind::Food)
                        >= cost.food
                    &&& final(self).entries_view().len() == old(self).entries_view().len()
                    &&& forall|i: int|
                        0 <= i < old(self).entries_view().len() ==> drained_entry(
                            #[trigger] old(self).entries_view()[i],
                            #[trigger] final(self).entries_view()[i],
                            body,
                        )
                    &&& total_stored(final(self).entries_view(), body, ResourceKind::Wood)
                        == total_stored(old(self).entries_view(), body, ResourceKind::Wood)
                        - cost.wood
                    &&& total_stored(final(self).entries_view(), body, ResourceKind::Food)
                        == total_stored(old(self).entries_view(), body, ResourceKind::Food)
                        - cost.food
                },
            },
    {
        if !self.can_afford(body, cost) {
            return Err(ResourceShortage);
        }
        proof {
            self.lemma_view_fields();
        }
        let ghost old_es = self.entries@;
        let mut remaining = ResourceAmounts { wood: cost.wood, food: cost.food };
        let mut updated: Vec<SurfaceEntry> = Vec::new();
        let n = self.entries.len();
        for i in 0..n
            invariant
                *self == *old(self),
                old_es == old(self).entries_view(),
                n == old_es.len(),
                updated@.len() == i,
                forall|j: int|
                    0 <= j < i ==> drained_entry(
                        #[trigger] old_es[j],
                        #[trigger] updated@[j],
                        body,
                    ),
                remaining.wood == owed(
                    cost.wood as int,
                    total_stored(old_es.take(i as int), body, ResourceKind::Wood),
                ),
                remaining.food == owed(
                    cost.food as int,
                    total_stored(old_es.take(i as int), body, ResourceKind::Food),
                ),
                total_stored(updated@, body, ResourceKind::Wood) == total_stored(
                    old_es.take(i as int),
                    body,
                    ResourceKind::Wood,
                ) - (cost.wood - remaining.wood),
                total_stored(updated@, body, ResourceKind::Food) == total_stored(
                    old_es.take(i as int),
                    body,
                    ResourceKind::Food,
                ) - (cost.food - remaining.food),
        {
            proof {
                self.lemma_view_fields();
                assert(old_es.take(i as int + 1).drop_last() =~= old_es.take(i as int));
                assert(old_es.take(i as int + 1).last() == old_es[i as int]);
            }
            let e = self.entries[i];
            let new_e: SurfaceEntry;
            if e.placed.placement.body == body {
                match e.kind {
                    OccupantKind::Building(s) => {
                        let mut st = s;
                        let left = st.remove_many(&remaining);
                        remaining = left;
                        new_e = SurfaceEntry {
                            id: e.id,
                            placed: e.placed,
                            kind: OccupantKind::Building(st),
                        };
                    },
                    _ => {
                        new_e = e;
                    },
                }
            } else {
                new_e = e;
            }
            let ghost prev = updated@;
            updated.push(new_e);
            proof {
                assert(updated@.drop_last() =~= prev);
                assert(updated@.last() == new_e);
            }
        }
        proof {
            assert(old_es.take(n as int) =~= old_es);
        }
        let ghost upd = updated@;
        self.entries = updated;
        proof {
            self.lemma_view_fields();
            old(self).lemma_view_fields();
            let es = self.entries@;
            assert(es == upd);
            let bound = self.next_id as int;
            assert forall|i: int, j: int| 0 <= i < j < es.len() implies (#[trigger] es[i]).id != (
            #[trigger] es[j]).id by {
                assert(drained_entry(old_es[i], es[i], body));
                assert(drained_entry(old_es[j], es[j], body));
                assert(old_es[i].id != old_es[j].id);
            }
            assert forall|i: int| 0 <= i < es.len() implies (#[trigger] es[i]).id < bound by {
                assert(drained_entry(old_es[i], es[i], body));
                assert(old_es[i].id < old(self).next_id_spec());
            }
        }
        Ok(())
    }

    /// Tests whether the entries with the two given ids collide; `None` when
    /// either id is absent from the table.
    pub fn are_colliding(&self, first: u64, second: u64) -> (r: Option<bool>)
        requires
            self.wf(),
        ensures
            r.is_some() == (has_entry_spec(self.entries_view(), first) && has_entry_spec(
                self.entries_view(),
                second,
            )),
            match r {
                Some(c) => forall|i: int, j: int|
                    0 <= i < self.entries_view().len() && 0 <= j < self.entries_view().len() && (
                    #[trigger] self.entries_view()[i]).id == first && (
                    #[trigger] self.entries_view()[j]).id == second ==> c == colliding(
                        self.entries_view()[i].placed,
                        self.entries_view()[j].placed,
                    ),
                None => true,
            },
    {
        let fi = match self.entry_index(first) {
            Some(i) => i,
            None => {
                return None;
            },
        };
        let si = match self.entry_index(second) {
            Some(i) => i,
            None => {
                return None;
            },
        };
        proof {
            self.lemma_view_fields();
        }
        let c = is_colliding(&self.entries[fi].placed, &self.entries[si].placed);
        proof {
            let es = self.entries_view();
            assert forall|i: int, j: int|
                0 <= i < es.len() && 0 <= j < es.len() && (#[trigger] es[i]).id == first && (
                #[trigger] es[j]).id == second implies c == colliding(
                es[i].placed,
                es[j].placed,
            ) by {
                if i != fi as int {
                    assert(es[i].id != es[fi as int].id);
                }
                if j != si as int {
                    assert(es[j].id != es[si as int].id);
                }
            }
        }
        Some(c)
    }

    /// The table index of the entry with the given id, if any.
    fn entry_index(&self, id: u64) -> (r: Option<usize>)
        ensures
            match r {
                Some(i) => i < self.entries_view().len() && self.entries_view()[i as int].id == id,
                None => !has_entry_spec(self.entries_view(), id),
            },
    {
        proof {
            self.lemma_view_fields();
        }
        let n = self.entries.len();
        for i in 0..n
            invariant
                n == self.entries_view().len(),
                forall|j: int| 0 <= j < i ==> (#[trigger] self.entries_view()[j]).id != id,
        {
            proof {
                self.lemma_view_fields();
            }
            if self.entries[i].id == id {
                return Some(i);
            }
        }
        None
    }
}

/// Whether an entry is a building whose storage can take the amount.
pub open spec fn deposit_fits(e: SurfaceEntry, kind: ResourceKind, amount: u64) -> bool {
    match e.kind {
        OccupantKind::Building(s) => amount_of(s.resources, kind) + amount <= u64::MAX,
        _ => false,
    }
}

/// The entry with the amount added to its building storage.
pub open spec fn deposit_entry(e: SurfaceEntry, kind: ResourceKind, amount: u64) -> SurfaceEntry {
    match e.kind {
        OccupantKind::Building(s) => SurfaceEntry {
            id: e.id,
            placed: e.placed,
            kind: OccupantKind::Building(
                Storage {
                    resources: match kind {
                        ResourceKind::Wood => ResourceAmounts {
                            wood: (s.resources.wood + amount) as u64,
                            food: s.resources.food,
                        },
                        ResourceKind::Food => ResourceAmounts {
                            wood: s.resources.wood,
                            food: (s.resources.food + amount) as u64,
                        },
                    },
                    max_amount: s.max_amount,
                },
            ),
        },
        _ => e,
    }
}

impl SurfaceWorld {
    /// Adds an amount of one kind to the storage of the building with the
    /// given id. Succeeds exactly when such a building exists and its storage
    /// can take the amount; otherwise nothing changes.
    pub fn add_to_storage(&mut self, id: u64, kind: ResourceKind, amount: u64) -> (r: bool)
        requires
            old(self).wf(),
        ensures
            final(self).wf(),
            final(self).bodies_view() == old(self).bodies_view(),
            final(self).next_id_spec() == old(self).next_id_spec(),
            r == exists|i: int|
                0 <= i < old(self).entries_view().len() && (#[trigger] old(self).entries_view()[i]).id == id && deposit_fits(
                    old(self).entries_view()[i],
                    kind,
                    amount,
                ),
            r ==> final(self).entries_view().len() == old(self).entries_view().len(),
            r ==> forall|i: int|
                0 <= i < old(self).entries_view().len() ==> (#[trigger] final(self).entries_view()[i]) == (
                if old(self).entries_view()[i].id == id {
                    deposit_entry(old(self).entries_view()[i], kind, amount)
                } else {
                    old(self).entries_view()[i]
                }),
            !r ==> *final(self) == *old(self),
    {
        let idx = match self.entry_index(id) {
            Some(i) => i,
            None => {
                return false;
            },
        };
        proof {
            self.lemma_view_fields();
        }
        let e = self.entries[idx];
        match e.kind {
            OccupantKind::Building(s) => {
                let stored = s.get_amount(kind);
                if amount <= u64::MAX - stored {
                    let mut st = s;
                    st.add(kind, amount);
                    let new_e = SurfaceEntry {
                        id: e.id,
                        placed: e.placed,
                        kind: OccupantKind::Building(st),
                    };
                    self.entries[idx] = new_e;
                    proof {
                        self.lemma_view_fields();
                        old(self).lemma_view_fields();
                        let old_es = old(self).entries_view();
                        let es = self.entries@;
                        assert(es == old_es.update(idx as int, new_e));
                        assert(amount_of(st.resources, ResourceKind::Wood) == st.resources.wood);
                        assert(amount_of(st.resources, ResourceKind::Food) == st.resources.food);
                        assert(amount_of(s.resources, ResourceKind::Wood) == s.resources.wood);
                        assert(amount_of(s.resources, ResourceKind::Food) == s.resources.food);
                        assert(new_e == deposit_entry(old_es[idx as int], kind, amount));
                        assert forall|i: int|
                            0 <= i < old_es.len() implies (#[trigger] es[i]) == (
                        if old_es[i].id == id {
                            deposit_entry(old_es[i], kind, amount)
                        } else {
                            old_es[i]
                        }) by {
                            if i != idx as int && old_es[i].id == id {
                                assert(old_es[i].id != old_es[idx as int].id);
                            }
                        }
                        let bound = self.next_id as int;
                        assert forall|i: int, j: int| 0 <= i < j < es.len() implies (
                        #[trigger] es[i]).id != (#[trigger] es[j]).id by {
                            assert(old_es[i].id != old_es[j].id);
                            assert(es[i].id == old_es[i].id);
                            assert(es[j].id == old_es[j].id);
                        }
                        assert forall|i: int| 0 <= i < es.len() implies (#[trigger] es[i]).id
                            < bound by {
                            assert(es[i].id == old_es[i].id);
                            assert(old_es[i].id < old(self).next_id_spec());
                        }
                    }
                    true
                } else {
                    proof {
                        let old_es = old(self).entries_view();
                        assert forall|i: int|
                            0 <= i < old_es.len() && (#[trigger] old_es[i]).id
                                == id implies !deposit_fits(old_es[i], kind, amount) by {
                            if i != idx as int {
                                assert(old_es[i].id != old_es[idx as int].id);
                            }
                        }
                    }
                    false
                }
            },
            _ => {
                proof {
                    let old_es = old(self).entries_view();
                    assert forall|i: int|
                        0 <= i < old_es.len() && (#[trigger] old_es[i]).id
                            == id implies !deposit_fits(old_es[i], kind, amount) by {
                        if i != idx as int {
                            assert(old_es[i].id != old_es[idx as int].id);
                        }
                    }
                }
                false
            },
        }
    }
}

} // verus!
