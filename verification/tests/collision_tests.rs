use planet_surface::angle::AngularScalar;
use planet_surface::collision::is_colliding;
use planet_surface::surface::{PlacedCollider, SurfaceCollider, SurfacePlacement};

fn placed(body: u64, pos_deg: i64, width_deg: u32) -> PlacedCollider {
    PlacedCollider::new(
        SurfacePlacement { body, position: AngularScalar::new(pos_deg * 1000) },
        SurfaceCollider::new(width_deg * 1000),
    )
}

#[test]
fn separated_then_moved_together() {
    // A at 10 degrees width 8 (arc 6..14), B at 20 degrees width 8 (16..24):
    // disjoint. Moving B to 15 degrees (11..19) makes them overlap.
    let a = placed(7, 10, 8);
    let b = placed(7, 20, 8);
    assert!(!is_colliding(&a, &b));
    let b_moved = placed(7, 15, 8);
    assert!(is_colliding(&a, &b_moved));
}

#[test]
fn half_width_sum_against_separation() {
    // Half widths sum to 8 degrees. Separation 9: never collide. Separation
    // 7: always collide. Separation exactly 8: the boundary, not colliding.
    let a = placed(1, 0, 8);
    assert!(!is_colliding(&a, &placed(1, 9, 8)));
    assert!(is_colliding(&a, &placed(1, 7, 8)));
    assert!(!is_colliding(&a, &placed(1, 8, 8)));
}

#[test]
fn collision_is_symmetric() {
    let cases = [
        (placed(1, 0, 8), placed(1, 7, 8)),
        (placed(1, 0, 8), placed(1, 9, 8)),
        (placed(1, 359, 10), placed(1, 2, 10)),
        (placed(1, 0, 8), placed(2, 0, 8)),
    ];
    for (a, b) in cases.iter() {
        assert_eq!(is_colliding(a, b), is_colliding(b, a));
    }
}

#[test]
fn different_bodies_never_collide() {
    let a = placed(1, 50, 90);
    let b = placed(2, 50, 90);
    assert!(!is_colliding(&a, &b));
}

#[test]
fn arcs_across_the_seam_collide() {
    // 359 degrees width 10 (354..4) and 2 degrees width 10 (357..7) overlap
    // across the 0/360 seam.
    let a = placed(1, 359, 10);
    let b = placed(1, 2, 10);
    assert!(is_colliding(&a, &b));
}

#[test]
fn interval_and_containment() {
    let a = placed(1, 10, 8);
    assert_eq!(a.to_interval(), (6_000, 14_000));
    // An arc near the seam keeps plain out-of-range endpoints.
    let b = placed(1, 1, 8);
    assert_eq!(b.to_interval(), (-3_000, 5_000));
    assert!(a.contains(AngularScalar::new(14_000)));
    assert!(!a.contains(AngularScalar::new(14_001)));
    assert!(b.contains(AngularScalar::new(357_500)));
    assert_eq!(a.edge_distance(AngularScalar::new(16_000)), 2_000);
    assert_eq!(a.edge_distance(AngularScalar::new(5_000)), 1_000);
}
