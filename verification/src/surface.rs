//! Bodies, placements and colliders.
//!
//! A [`Body`] is a circular surface entities can be placed on. A
//! [`SurfacePlacement`] binds an entity to a body and an angular position; a
//! [`SurfaceCollider`] gives it an occupied arc of a fixed angular width. A
//! [`PlacedCollider`] is the pair, the unit the collision engine works on.

use vstd::prelude::*;
use crate::angle::{dist_spec, wrap, AngularScalar};

verus! {

/// Largest magnitude allowed for world coordinates and radii, so that squared
/// planar distances stay inside machine integers.
pub const MAX_COORD: i64 = 1_000_000_000;

/// A circular body: identity, world-space center, fixed radius.
#[derive(Clone, Copy, PartialEq, Eq, Structural, Debug)]
pub struct Body {
    pub id: u64,
    pub center_x: i64,
    pub center_y: i64,
    pub radius: u32,
}

impl Body {
    /// Coordinates and radius are bounded so that geometric queries cannot
    /// overflow.
    pub open spec fn wf(self) -> bool {
        &&& -MAX_COORD <= self.center_x <= MAX_COORD
        &&& -MAX_COORD <= self.center_y <= MAX_COORD
        &&& self.radius <= MAX_COORD
    }

    /// Builds a body at a world-space center with a fixed radius.
    pub fn new(id: u64, center_x: i64, center_y: i64, radius: u32) -> (result: Self)
        requires
            -MAX_COORD <= center_x <= MAX_COORD,
            -MAX_COORD <= center_y <= MAX_COORD,
            radius <= MAX_COORD,
        ensures
            result == (Body { id, center_x, center_y, radius }),
            result.wf(),
    {
        Body { id, center_x, center_y, radius }
    }
}

/// An entity's angular position on a specific body.
#[derive(Clone, Copy, PartialEq, Eq, Structural, Debug)]
pub struct SurfacePlacement {
    pub body: u64,
    pub position: AngularScalar,
}

impl SurfacePlacement {
    /// Binds a body to a raw millidegree position, normalizing the position.
    pub fn new(body: u64, position_mdeg: i64) -> (result: Self)
        ensures
            result.body == body,
            result.position.value() == wrap(position_mdeg as int),
    {
        SurfacePlacement { body, position: AngularScalar::new(position_mdeg) }
    }
}

/// The angular width of the arc an entity occupies for overlap testing.
#[derive(Clone, Copy, PartialEq, Eq, Structural, Debug)]
pub struct SurfaceCollider {
    pub width: u32,
}

impl SurfaceCollider {
    /// A collider occupying an arc of the given millidegree width.
    pub fn new(width: u32) -> (result: Self)
        ensures
            result.width == width,
    {
        SurfaceCollider { width }
    }
}

/// A placement together with its collider: an occupied arc
/// `[position - width/2, position + width/2]` on the placement's body.
#[derive(Clone, Copy, PartialEq, Eq, Structural, Debug)]
pub struct PlacedCollider {
    pub placement: SurfacePlacement,
    pub collider: SurfaceCollider,
}

/// Whether `x` lies on the closed occupied arc centered at `pos` of width `w`:
/// its circular distance from the center is at most half the width.
pub open spec fn arc_contains(pos: int, w: int, x: int) -> bool {
    2 * dist_spec(pos, x) <= w
}

impl PlacedCollider {
    /// The pair of a placement and a collider.
    pub fn new(placement: SurfacePlacement, collider: SurfaceCollider) -> (result: Self)
        ensures
            result.placement == placement,
            result.collider == collider,
    {
        PlacedCollider { placement, collider }
    }

    /// The occupied arc's position as a spec value.
    pub open spec fn pos_val(self) -> int {
        self.placement.position.value()
    }

    /// The occupied arc's width as a spec value.
    pub open spec fn width_val(self) -> int {
        self.collider.width as int
    }

    /// The occupied arc as plain, possibly out-of-range endpoints
    /// `position - width/2` and `position + width/2`, left un-wrapped so that
    /// interval reasoning can cross the `0`/`PERIOD` seam. For odd widths the
    /// half-width rounds down.
    pub fn to_interval(&self) -> (r: (i64, i64))
        ensures
            r.0 == self.pos_val() - self.width_val() / 2,
            r.1 == self.pos_val() + self.width_val() / 2,
    {
        let pos = self.placement.position.get();
        let half = self.collider.width / 2;
        (pos as i64 - half as i64, pos as i64 + half as i64)
    }

    /// Whether a sample angle lies on the occupied arc.
    pub fn contains(&self, sample: AngularScalar) -> (r: bool)
        ensures
            r == arc_contains(self.pos_val(), self.width_val(), sample.value()),
    {
        let d = self.placement.position.distance(sample);
        2 * (d as u64) <= self.collider.width as u64
    }

    /// Circular distance from a sample angle to the nearer endpoint of the
    /// occupied arc.
    pub fn edge_distance(&self, sample: AngularScalar) -> (r: u32)
        ensures
            ({
                let start = wrap(self.pos_val() - self.width_val() / 2);
                let end = wrap(self.pos_val() + self.width_val() / 2);
                let ds = dist_spec(start, sample.value());
                let de = dist_spec(end, sample.value());
                r == if ds <= de {
                    ds
                } else {
                    de
                }
            }),
    {
        let half = (self.collider.width / 2) as i64;
        let start = self.placement.position.sub(half);
        let end = self.placement.position.add(half);
        let ds = start.distance(sample);
        let de = end.distance(sample);
        if ds <= de {
            ds
        } else {
            de
        }
    }
}

} // verus!
