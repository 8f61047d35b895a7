use planet_surface::angle::AngularScalar;
use planet_surface::query::{AttachState, ClosestSurface};
use planet_surface::storage::{ResourceAmounts, ResourceKind, Storage};
use planet_surface::surface::{PlacedCollider, SurfaceCollider, SurfacePlacement};
use planet_surface::world::{OccupantKind, PlacementError, SurfaceWorld};

fn placed(body: u64, pos_deg: i64, width_deg: u32) -> PlacedCollider {
    PlacedCollider::new(
        SurfacePlacement { body, position: AngularScalar::new(pos_deg * 1000) },
        SurfaceCollider::new(width_deg * 1000),
    )
}

fn stocked_storage(wood: u64, food: u64) -> Storage {
    let mut s = Storage::new(200);
    s.add(ResourceKind::Wood, wood);
    s.add(ResourceKind::Food, food);
    s
}

#[test]
fn try_place_gates_on_body_and_overlap() {
    let mut w = SurfaceWorld::new();
    let planet = w.add_body(0, 0, 100);
    let silo = w
        .try_place(placed(planet, 40, 8), OccupantKind::Building(stocked_storage(10, 0)))
        .unwrap();
    // A second arc overlapping the silo is rejected and nothing is created.
    let r = w.try_place(placed(planet, 45, 8), OccupantKind::Resource(ResourceKind::Wood));
    assert_eq!(r, Err(PlacementError::Overlapping));
    // An unknown body is rejected.
    let r = w.try_place(placed(planet + 100, 0, 8), OccupantKind::Agent);
    assert_eq!(r, Err(PlacementError::NoSuchBody));
    // A clear spot on the planet is accepted with a fresh id.
    let tree = w
        .try_place(placed(planet, 120, 8), OccupantKind::Resource(ResourceKind::Wood))
        .unwrap();
    assert_ne!(silo, tree);
}

#[test]
fn removal_leaves_no_ghost_collisions() {
    // Round trip: place an entity, remove it, and its former arc overlaps
    // nothing again.
    let mut w = SurfaceWorld::new();
    let planet = w.add_body(0, 0, 100);
    let arc = placed(planet, 40, 8);
    let id = w.try_place(arc, OccupantKind::Building(stocked_storage(0, 0))).unwrap();
    assert!(w.overlaps_anything(&arc));
    assert!(w.remove_entity(id));
    assert!(!w.overlaps_anything(&arc));
    // Removing it again finds nothing.
    assert!(!w.remove_entity(id));
}

#[test]
fn random_placement_on_empty_body_succeeds() {
    let mut w = SurfaceWorld::new();
    let planet = w.add_body(0, 0, 100);
    for _ in 0..32 {
        let pos = w.get_random_valid_placement(planet, 8_000, 1);
        let pos = pos.expect("an empty body must yield a placement in one try");
        assert!(pos.get() < 360_000);
        assert!(!w.overlaps_anything(&PlacedCollider::new(
            SurfacePlacement { body: planet, position: pos },
            SurfaceCollider::new(8_000),
        )));
    }
}

#[test]
fn random_placement_gives_up_on_a_covered_body() {
    let mut w = SurfaceWorld::new();
    let planet = w.add_body(0, 0, 100);
    // One collider wider than the whole circle makes every sample collide.
    w.try_place(placed(planet, 0, 720), OccupantKind::Obstacle).unwrap();
    assert!(w.get_random_valid_placement(planet, 8_000, 10).is_none());
}

#[test]
fn placements_returned_by_random_search_fit() {
    let mut w = SurfaceWorld::new();
    let planet = w.add_body(0, 0, 100);
    w.try_place(placed(planet, 0, 170), OccupantKind::Obstacle).unwrap();
    w.try_place(placed(planet, 180, 150), OccupantKind::Obstacle).unwrap();
    for _ in 0..16 {
        if let Some(pos) = w.get_random_valid_placement(planet, 8_000, 10) {
            let cand = PlacedCollider::new(
                SurfacePlacement { body: planet, position: pos },
                SurfaceCollider::new(8_000),
            );
            assert!(!w.overlaps_anything(&cand));
        }
    }
}

#[test]
fn closest_surface_projects_and_measures() {
    // A body centered at the origin with radius 100, queried at (0, 130):
    // surface distance 30 and the offset pointing straight up.
    let mut w = SurfaceWorld::new();
    let planet = w.add_body(0, 0, 100);
    let c: ClosestSurface = w.find_closest_surface(0, 130).unwrap();
    assert_eq!(c.body, planet);
    assert_eq!(c.offset_x, 0);
    assert_eq!(c.offset_y, 130);
    assert_eq!(c.distance, 30);
    // Inside the body the distance is negative.
    let inside = w.find_closest_surface(0, 60).unwrap();
    assert_eq!(inside.distance, -40);
}

#[test]
fn closest_surface_picks_the_nearest_body() {
    let mut w = SurfaceWorld::new();
    let near = w.add_body(0, 0, 100);
    let far = w.add_body(10_000, 0, 100);
    let c = w.find_closest_surface(0, 130).unwrap();
    assert_eq!(c.body, near);
    let c2 = w.find_closest_surface(9_900, 0).unwrap();
    assert_eq!(c2.body, far);
    assert_eq!(c2.distance, 0);
    assert!(SurfaceWorld::new().find_closest_surface(0, 0).is_none());
}

#[test]
fn aggregate_and_affordability() {
    let mut w = SurfaceWorld::new();
    let planet = w.add_body(0, 0, 100);
    let other = w.add_body(5_000, 0, 80);
    w.try_place(placed(planet, 40, 8), OccupantKind::Building(stocked_storage(10, 3))).unwrap();
    w.try_place(placed(planet, 120, 8), OccupantKind::Building(stocked_storage(5, 0))).unwrap();
    w.try_place(placed(other, 40, 8), OccupantKind::Building(stocked_storage(100, 100))).unwrap();
    let totals = w.get_aggregate_on_body(planet);
    assert_eq!(totals.wood, 15);
    assert_eq!(totals.food, 3);
    assert!(w.can_afford(planet, &ResourceAmounts { wood: 15, food: 3 }));
    assert!(!w.can_afford(planet, &ResourceAmounts { wood: 16, food: 0 }));
}

#[test]
fn remove_resources_drains_or_reports_shortage() {
    let mut w = SurfaceWorld::new();
    let planet = w.add_body(0, 0, 100);
    w.try_place(placed(planet, 40, 8), OccupantKind::Building(stocked_storage(10, 0))).unwrap();
    w.try_place(placed(planet, 120, 8), OccupantKind::Building(stocked_storage(5, 2))).unwrap();
    // Draining 12 wood takes all 10 from the first storage and 2 more from
    // the second.
    assert!(w.remove_resources(planet, &ResourceAmounts { wood: 12, food: 1 }).is_ok());
    let totals = w.get_aggregate_on_body(planet);
    assert_eq!(totals.wood, 3);
    assert_eq!(totals.food, 1);
    // Asking for more than is stored fails and changes nothing.
    assert!(w.remove_resources(planet, &ResourceAmounts { wood: 4, food: 0 }).is_err());
    let totals = w.get_aggregate_on_body(planet);
    assert_eq!(totals.wood, 3);
    assert_eq!(totals.food, 1);
}

#[test]
fn resources_in_range_filters_by_body_kind_and_arc() {
    let mut w = SurfaceWorld::new();
    let planet = w.add_body(0, 0, 100);
    let other = w.add_body(5_000, 0, 100);
    let near_tree = w
        .try_place(placed(planet, 10, 8), OccupantKind::Resource(ResourceKind::Wood))
        .unwrap();
    let _far_tree = w
        .try_place(placed(planet, 100, 8), OccupantKind::Resource(ResourceKind::Wood))
        .unwrap();
    let _near_bush = w
        .try_place(placed(planet, 350, 8), OccupantKind::Resource(ResourceKind::Food))
        .unwrap();
    let _other_tree = w
        .try_place(placed(other, 10, 8), OccupantKind::Resource(ResourceKind::Wood))
        .unwrap();
    let origin = SurfacePlacement::new(planet, 0);
    // Arc distance scale: radius 100 times millidegrees; 10 degrees away is
    // 1_000_000 units.
    let found = w.get_resources_in_range(&origin, 2_000_000, ResourceKind::Wood);
    assert_eq!(found, vec![near_tree]);
    // An unknown body yields nothing.
    let nowhere = SurfacePlacement::new(999, 0);
    assert!(w.get_resources_in_range(&nowhere, 2_000_000, ResourceKind::Wood).is_empty());
}

#[test]
fn pairwise_collision_lookup_by_id() {
    let mut w = SurfaceWorld::new();
    let planet = w.add_body(0, 0, 100);
    let a = w.try_place(placed(planet, 10, 8), OccupantKind::Resource(ResourceKind::Wood)).unwrap();
    let b = w.try_place(placed(planet, 20, 8), OccupantKind::Resource(ResourceKind::Wood)).unwrap();
    assert_eq!(w.are_colliding(a, b), Some(false));
    assert_eq!(w.are_colliding(a, a), Some(true));
    assert_eq!(w.are_colliding(a, 999), None);
}

#[test]
fn attachment_preview_classification() {
    let mut w = SurfaceWorld::new();
    let planet = w.add_body(0, 0, 100);
    w.try_place(placed(planet, 40, 8), OccupantKind::Building(stocked_storage(10, 0))).unwrap();
    let cost = ResourceAmounts { wood: 8, food: 0 };
    let closest = w.find_closest_surface(0, 130).unwrap();
    // 30 units away from the surface: too far to attach.
    assert_eq!(
        w.classify_attachment(&closest, AngularScalar::new(0), 8_000, &cost),
        AttachState::Detached
    );
    let close = w.find_closest_surface(0, 110).unwrap();
    assert_eq!(close.distance, 10);
    // Attached on a free spot with enough wood stored.
    assert_eq!(
        w.classify_attachment(&close, AngularScalar::new(0), 8_000, &cost),
        AttachState::AttachedValid
    );
    // Attached over the silo: occupied.
    assert_eq!(
        w.classify_attachment(&close, AngularScalar::new(40_000), 8_000, &cost),
        AttachState::AttachedInvalid
    );
    // Attached but unaffordable.
    let dear = ResourceAmounts { wood: 11, food: 0 };
    assert_eq!(
        w.classify_attachment(&close, AngularScalar::new(0), 8_000, &dear),
        AttachState::AttachedInvalid
    );
}

#[test]
fn storage_bookkeeping_is_exact() {
    let mut s = Storage::new(50);
    s.add(ResourceKind::Wood, 10);
    s.add_many(&ResourceAmounts { wood: 2, food: 5 });
    assert_eq!(s.get_amount(ResourceKind::Wood), 12);
    assert_eq!(s.get_amount(ResourceKind::Food), 5);
    assert_eq!(s.get_stored_amount(), 17);
    assert_eq!(s.max_amount, 50);
    // Removing more than is stored empties the kind and reports the rest.
    assert_eq!(s.remove(ResourceKind::Wood, 15), 3);
    assert_eq!(s.get_amount(ResourceKind::Wood), 0);
    let left = s.remove_many(&ResourceAmounts { wood: 1, food: 2 });
    assert_eq!(left, ResourceAmounts { wood: 1, food: 0 });
    assert_eq!(s.get_amount(ResourceKind::Food), 3);
}

#[test]
fn amounts_cover_and_combine() {
    let a = ResourceAmounts { wood: 8, food: 2 };
    let b = ResourceAmounts { wood: 3, food: 2 };
    assert!(a.contains(&b));
    assert!(!b.contains(&a));
    let c = a.combine(&b);
    assert_eq!(c, ResourceAmounts { wood: 11, food: 4 });
    assert_eq!(c, b.combine(&a));
    assert_eq!(a.get_amount(ResourceKind::Wood), 8);
    assert_eq!(ResourceAmounts::new(), ResourceAmounts { wood: 0, food: 0 });
}

#[test]
fn deposit_into_building_storage() {
    let mut w = SurfaceWorld::new();
    let planet = w.add_body(0, 0, 100);
    let mill = w.try_place(placed(planet, 40, 8), OccupantKind::Building(Storage::new(50))).unwrap();
    let tree = w.try_place(placed(planet, 120, 8), OccupantKind::Resource(ResourceKind::Wood)).unwrap();
    assert!(w.add_to_storage(mill, ResourceKind::Wood, 16));
    assert_eq!(w.get_aggregate_on_body(planet).wood, 16);
    // Only buildings carry storage, and the id must exist.
    assert!(!w.add_to_storage(tree, ResourceKind::Wood, 1));
    assert!(!w.add_to_storage(999, ResourceKind::Wood, 1));
    // An amount the storage cannot take changes nothing.
    assert!(!w.add_to_storage(mill, ResourceKind::Wood, u64::MAX));
    assert_eq!(w.get_aggregate_on_body(planet).wood, 16);
}
