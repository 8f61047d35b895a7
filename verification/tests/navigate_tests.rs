use planet_surface::angle::AngularScalar;
use planet_surface::navigate::{is_obstructing, work_target, NavAgent, StepOutcome};
use planet_surface::occupancy::{count_occupiers, count_workers, WorkerAssignment};
use planet_surface::surface::{PlacedCollider, SurfaceCollider, SurfacePlacement};
use planet_surface::world::{OccupantKind, SurfaceWorld};

fn deg(d: i64) -> AngularScalar {
    AngularScalar::new(d * 1000)
}

fn placed(body: u64, pos_deg: i64, width_deg: u32) -> PlacedCollider {
    PlacedCollider::new(
        SurfacePlacement { body, position: AngularScalar::new(pos_deg * 1000) },
        SurfaceCollider::new(width_deg * 1000),
    )
}

/// A world with one planet of radius 100 and one water obstacle whose arc is
/// centered at 67.5 degrees with width 45 (covering 45 to 90 degrees).
fn world_with_water() -> (SurfaceWorld, u64) {
    let mut w = SurfaceWorld::new();
    let planet = w.add_body(0, 0, 100);
    w.try_place(
        PlacedCollider::new(
            SurfacePlacement { body: planet, position: AngularScalar::new(67_500) },
            SurfaceCollider::new(45_000),
        ),
        OccupantKind::Obstacle,
    )
    .unwrap();
    (w, planet)
}

#[test]
fn obstruction_is_direction_symmetric() {
    let water = placed(1, 30, 20);
    // Sweeping forward from 0 to 100 crosses the obstacle either way the
    // obstacle is described; going backward from 0 to 100 (through 260) does
    // not.
    assert!(is_obstructing(&water, deg(0), deg(100), 1));
    assert!(!is_obstructing(&water, deg(0), deg(100), -1));
    // Ending inside the obstacle blocks both directions.
    assert!(is_obstructing(&water, deg(0), deg(35), 1));
    assert!(is_obstructing(&water, deg(0), deg(35), -1));
    // Starting on the boundary still counts as touching it.
    assert!(is_obstructing(&water, deg(40), deg(100), 1));
}

#[test]
fn detour_is_taken_when_the_short_way_is_blocked() {
    // Agent at 0 degrees, destination 100: the short way crosses the water
    // between 45 and 90, so the engine commits to the long way round.
    let (w, planet) = world_with_water();
    assert_eq!(w.get_walk_dir(planet, deg(0), deg(100)), Some(-1));
    // With the water gone the short way is chosen.
    let mut clear = SurfaceWorld::new();
    let p2 = clear.add_body(0, 0, 100);
    assert_eq!(clear.get_walk_dir(p2, deg(0), deg(100)), Some(1));
}

#[test]
fn blocked_when_destination_is_inside_an_obstacle() {
    // Destination 80 degrees lies inside the water arc (45..90): neither
    // direction can end there, so the agent is blocked and does not move.
    let (w, planet) = world_with_water();
    assert_eq!(w.get_walk_dir(planet, deg(0), deg(80)), None);
    let mut agent = NavAgent {
        placement: SurfacePlacement { body: planet, position: deg(0) },
        destination: Some(deg(80)),
        facing_positive: true,
    };
    assert_eq!(w.step(&mut agent, 5_000), StepOutcome::Blocked);
    assert_eq!(agent.placement.position.get(), 0);
    // Blocked is stable while the obstacles are unchanged.
    assert_eq!(w.step(&mut agent, 5_000), StepOutcome::Blocked);
    assert_eq!(agent.placement.position.get(), 0);
}

#[test]
fn step_moves_the_committed_way_and_updates_facing() {
    let (w, planet) = world_with_water();
    let mut agent = NavAgent {
        placement: SurfacePlacement { body: planet, position: deg(0) },
        destination: Some(deg(100)),
        facing_positive: true,
    };
    // The long way round: one tick of 5 degrees goes to 355.
    assert_eq!(w.step(&mut agent, 5_000), StepOutcome::Moved);
    assert_eq!(agent.placement.position.get(), 355_000);
    assert!(!agent.facing_positive);
    // On a clear circle the short way is walked and the agent faces forward.
    let mut clear = SurfaceWorld::new();
    let p2 = clear.add_body(0, 0, 100);
    let mut runner = NavAgent {
        placement: SurfacePlacement { body: p2, position: deg(0) },
        destination: Some(deg(100)),
        facing_positive: false,
    };
    assert_eq!(clear.step(&mut runner, 5_000), StepOutcome::Moved);
    assert_eq!(runner.placement.position.get(), 5_000);
    assert!(runner.facing_positive);
}

#[test]
fn step_reports_arrival() {
    let w = SurfaceWorld::new();
    let mut idle = NavAgent {
        placement: SurfacePlacement { body: 0, position: deg(10) },
        destination: None,
        facing_positive: true,
    };
    assert_eq!(w.step(&mut idle, 5_000), StepOutcome::Arrived);
    assert_eq!(idle.placement.position.get(), 10_000);
    // Within a tenth of a degree counts as arrived and the agent stays put.
    let mut near = NavAgent {
        placement: SurfacePlacement { body: 0, position: AngularScalar::new(10_050) },
        destination: Some(deg(10)),
        facing_positive: true,
    };
    assert_eq!(w.step(&mut near, 5_000), StepOutcome::Arrived);
    assert_eq!(near.placement.position.get(), 10_050);
}

#[test]
fn work_target_stops_short_outside() {
    // Interior work happens at the occupable itself.
    assert_eq!(work_target(deg(0), deg(30), true).get(), 30_000);
    // Exterior work aims five degrees short, on the agent's side.
    assert_eq!(work_target(deg(0), deg(30), false).get(), 25_000);
    assert_eq!(work_target(deg(60), deg(30), false).get(), 35_000);
}

#[test]
fn worker_counts() {
    let crew = vec![
        WorkerAssignment { current_occupable: 4, current_work: 4 },
        WorkerAssignment { current_occupable: 4, current_work: 9 },
        WorkerAssignment { current_occupable: 2, current_work: 4 },
        WorkerAssignment { current_occupable: 2, current_work: 2 },
    ];
    assert_eq!(count_workers(&crew, 4), 3);
    assert_eq!(count_occupiers(&crew, 4), 2);
    assert_eq!(count_workers(&crew, 7), 0);
    assert_eq!(count_occupiers(&crew, 9), 0);
}
