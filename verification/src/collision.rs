//! Pairwise arc-overlap testing on a shared body.
//!
//! Two occupied arcs on the same body intersect exactly when the circular
//! distance between their centers is smaller than the sum of their half
//! widths; the test is stated doubled (`2 * distance < width_a + width_b`) so
//! it stays exact for odd widths.

use vstd::prelude::*;
use crate::angle::{dist_spec, lemma_distance_symmetric};
use crate::surface::PlacedCollider;

verus! {

/// Whether two placed colliders collide: they reference the same body and
/// their occupied arcs overlap.
pub open spec fn colliding(a: PlacedCollider, b: PlacedCollider) -> bool {
    &&& a.placement.body == b.placement.body
    &&& 2 * dist_spec(a.pos_val(), b.pos_val()) < a.width_val() + b.width_val()
}

/// Tests whether the occupied arcs of `a` and `b` intersect on the circle;
/// `false` whenever they reference different bodies.
pub fn is_colliding(a: &PlacedCollider, b: &PlacedCollider) -> (r: bool)
    ensures
        r == colliding(*a, *b),
{
    if a.placement.body != b.placement.body {
        return false;
    }
    let d = a.placement.position.distance(b.placement.position);
    2 * (d as u64) < a.collider.width as u64 + b.collider.width as u64
}

/// Law: collision testing is symmetric, and placed colliders on different
/// bodies never collide.
pub proof fn lemma_collision_symmetric(a: PlacedCollider, b: PlacedCollider)
    ensures
        colliding(a, b) == colliding(b, a),
        a.placement.body != b.placement.body ==> !colliding(a, b),
{
    lemma_distance_symmetric(a.pos_val(), b.pos_val());
}

/// Law: for two colliders on one body, comparing the sum of the half widths
/// with the separation of the centers decides collision — smaller never
/// collides, larger always collides, and exact equality is the non-colliding
/// boundary.
pub proof fn lemma_collision_threshold(a: PlacedCollider, b: PlacedCollider)
    requires
        a.placement.body == b.placement.body,
    ensures
        a.width_val() + b.width_val() < 2 * dist_spec(a.pos_val(), b.pos_val()) ==> !colliding(
            a,
            b,
        ),
        a.width_val() + b.width_val() > 2 * dist_spec(a.pos_val(), b.pos_val()) ==> colliding(
            a,
            b,
        ),
        a.width_val() + b.width_val() == 2 * dist_spec(a.pos_val(), b.pos_val()) ==> !colliding(
            a,
            b,
        ),
{
}

} // verus!
