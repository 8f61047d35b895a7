use planet_surface::angle::{AngularScalar, HALF_PERIOD, PERIOD};

fn deg(d: i64) -> AngularScalar {
    AngularScalar::new(d * 1000)
}

#[test]
fn new_wraps_into_range() {
    // Every raw value lands in [0, PERIOD).
    let samples: [i64; 11] = [
        0,
        359_999,
        360_000,
        360_001,
        -1,
        -10_000,
        -360_000,
        720_000,
        -720_001,
        i64::MAX,
        i64::MIN,
    ];
    for &raw in samples.iter() {
        let v = AngularScalar::new(raw).get();
        assert!(v < PERIOD, "raw {} gave {}", raw, v);
    }
    assert_eq!(AngularScalar::new(-10_000).get(), 350_000);
    assert_eq!(AngularScalar::new(370_000).get(), 10_000);
    assert_eq!(AngularScalar::new(-360_000).get(), 0);
    assert_eq!(AngularScalar::new(720_000).get(), 0);
}

#[test]
fn difference_is_shortest_signed_delta() {
    assert_eq!(deg(0).difference(deg(80)), 80_000);
    assert_eq!(deg(10).difference(deg(350)), -20_000);
    assert_eq!(deg(350).difference(deg(10)), 20_000);
    assert_eq!(deg(90).difference(deg(90)), 0);
}

#[test]
fn difference_tie_picks_positive_half_turn() {
    // Exactly opposite angles: both ways round are equally long; the
    // positive delta is the documented convention.
    assert_eq!(deg(0).difference(deg(180)), HALF_PERIOD as i64);
    assert_eq!(deg(180).difference(deg(0)), HALF_PERIOD as i64);
    assert_eq!(deg(270).difference(deg(90)), HALF_PERIOD as i64);
}

#[test]
fn difference_round_trip_lands_on_target() {
    let pairs: [(i64, i64); 6] = [(0, 80), (10, 350), (350, 10), (0, 180), (123, 4), (359, 1)];
    for &(a, b) in pairs.iter() {
        let start = deg(a);
        let target = deg(b);
        let d = start.difference(target);
        assert!(d.abs() <= HALF_PERIOD as i64);
        assert_eq!(start.add(d).get(), target.get(), "from {} to {}", a, b);
    }
}

#[test]
fn distance_is_symmetric_and_bounded() {
    let pairs: [(i64, i64); 5] = [(0, 80), (10, 350), (0, 180), (123, 4), (359, 1)];
    for &(a, b) in pairs.iter() {
        let ab = deg(a).distance(deg(b));
        let ba = deg(b).distance(deg(a));
        assert_eq!(ab, ba);
        assert!(ab <= HALF_PERIOD);
    }
    assert_eq!(deg(10).distance(deg(350)), 20_000);
}

#[test]
fn direction_is_sign_of_difference() {
    assert_eq!(deg(0).direction(deg(80)), 1);
    assert_eq!(deg(10).direction(deg(350)), -1);
    assert_eq!(deg(42).direction(deg(42)), 0);
    assert_eq!(deg(0).direction(deg(180)), 1);
}

#[test]
fn arithmetic_wraps() {
    assert_eq!(deg(350).add(20_000).get(), 10_000);
    assert_eq!(deg(10).sub(20_000).get(), 350_000);
    assert_eq!(deg(90).mul(5).get(), 90_000);
    assert_eq!(deg(90).mul(-1).get(), 270_000);
    assert_eq!(deg(90).div(2).get(), 45_000);
    assert_eq!(deg(90).div(-2).get(), 315_000);
    assert_eq!(deg(350).add_angle(deg(20)).get(), 10_000);
    assert_eq!(deg(10).sub_angle(deg(20)).get(), 350_000);
    // 2000 * 200 millidegree units wrap to 40_000.
    assert_eq!(AngularScalar::new(2_000).mul_angle(AngularScalar::new(200)).get(), 40_000);
    assert_eq!(deg(90).div_angle(AngularScalar::new(2_000)).get(), 45);
}

#[test]
fn betweenness_handles_the_seam() {
    // Walking forward from 350 degrees to 10 degrees passes 0 but not 180.
    assert!(AngularScalar::is_between(deg(0), deg(350), deg(10), true));
    assert!(AngularScalar::is_between(deg(355), deg(350), deg(10), true));
    assert!(!AngularScalar::is_between(deg(180), deg(350), deg(10), true));
    // Walking backward from 10 degrees to 350 degrees also passes 0.
    assert!(AngularScalar::is_between(deg(0), deg(10), deg(350), false));
    assert!(!AngularScalar::is_between(deg(180), deg(10), deg(350), false));
    // Endpoints lie on the walk.
    assert!(AngularScalar::is_between(deg(350), deg(350), deg(10), true));
    assert!(AngularScalar::is_between(deg(10), deg(350), deg(10), true));
}
