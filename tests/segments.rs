use engine::points::{PointCartesian, PointPolar};
use engine::{OutOfBoundsError, Segment, MAX_RADIUS, MID_RADIUS, MIN_RADIUS};

const QUARTER_TURN: i32 = 1_570_796;

fn angle(p: &PointCartesian) -> i32 {
    ((p.y as f64).atan2(p.x as f64) * 1_000_000.0).round() as i32
}

fn polar(p: &PointCartesian) -> Result<PointPolar, OutOfBoundsError> {
    p.as_polar(angle(p))
}

fn step_polar(segment: &Segment, distance: i64) -> Option<PointPolar> {
    segment.step(distance).map(|p| polar(&p).unwrap())
}

#[test]
fn test_new_segment() -> Result<(), OutOfBoundsError> {
    let mid = MID_RADIUS as i32;
    let segment = Segment::try_new(PointCartesian::new(mid, 0), PointCartesian::new(0, mid))?;

    assert_eq!(segment.point_a(), PointCartesian { x: mid, y: 0 });
    assert_eq!(segment.point_b(), PointCartesian { x: 0, y: mid });

    Ok(())
}

#[test]
fn test_new_segment_out_of_bounds() {
    let mid = MID_RADIUS as i32;
    let min = MIN_RADIUS as i32;
    let segment_crosses_max_rot =
        Segment::try_new(PointCartesian::new(mid, 1000), PointCartesian::new(mid, -1000));
    let segment_crosses_dead_zone =
        Segment::try_new(PointCartesian::new(-mid, min - 1000), PointCartesian::new(mid, min - 1000));

    assert_eq!(segment_crosses_max_rot, Err(OutOfBoundsError::CrossesRotationMax));
    match segment_crosses_dead_zone {
        Err(OutOfBoundsError::CrossesDeadZone(_)) => (),
        Ok(_) => panic!("Doesn't cross dead zone."),
        _ => panic!("Other failure."),
    }
}

#[test]
fn test_segment_distance() -> Result<(), OutOfBoundsError> {
    let min = MIN_RADIUS as i32;
    let segment = Segment::try_new(PointCartesian::new(min, min), PointCartesian::new(-min, min))?;

    assert_eq!(MIN_RADIUS * 2, segment.distance());

    Ok(())
}

#[test]
fn test_segment_step() -> Result<(), OutOfBoundsError> {
    let min = MIN_RADIUS as i32;
    let (point_a, point_b) = (PointCartesian::new(min, min), PointCartesian::new(-min, min));
    let (polar_a, polar_b) = (polar(&point_a)?, polar(&point_b)?);
    let polar_middle = PointPolar::try_new(MIN_RADIUS, QUARTER_TURN)?;
    let segment = Segment::try_new(point_a, point_b)?;

    assert_eq!(Some(polar_a), step_polar(&segment, 0));
    assert_eq!(Some(polar_b), step_polar(&segment, MIN_RADIUS * 2));
    assert_eq!(Some(polar_middle), step_polar(&segment, MIN_RADIUS));
    assert_eq!(None, segment.step(-1000));
    assert_eq!(None, segment.step(MIN_RADIUS * 2 + 1000));

    Ok(())
}

#[test]
fn scenario_rotation_max() {
    assert_eq!(
        Segment::try_new(PointCartesian::new(22_500, 1_000), PointCartesian::new(22_500, -1_000)),
        Err(OutOfBoundsError::CrossesRotationMax)
    );
}

#[test]
fn scenario_dead_zone_distance() {
    assert_eq!(
        Segment::try_new(PointCartesian::new(-22_500, 13_000), PointCartesian::new(22_500, 13_000)),
        Err(OutOfBoundsError::CrossesDeadZone(13_000))
    );
}

#[test]
fn scenario_step_to_midpoint() {
    let segment =
        Segment::try_new(PointCartesian::new(22_500, 0), PointCartesian::new(0, 22_500)).unwrap();
    assert_eq!(segment.distance(), 31_819);
    // 22.5 mm * sqrt(2) / 2, rounded to the micrometre.
    let mid = segment.step(15_910).unwrap();
    assert_eq!(mid, PointCartesian::new(11_249, 11_250));
    let p = polar(&mid).unwrap();
    assert!((p.radius() - 15_910).abs() <= 2);
    assert!((p.theta() - 785_398).abs() <= 100);
}

#[test]
fn rotation_max_needs_both_x_non_negative() {
    // One endpoint left of the axis: the rotation check passes, and the
    // dead-zone check decides.
    assert_eq!(
        Segment::try_new(PointCartesian::new(-1, 20_000), PointCartesian::new(20_000, -20_000)),
        Err(OutOfBoundsError::CrossesDeadZone(8_943))
    );
    // y = 0 counts as non-negative: these endpoints share a sign.
    assert!(Segment::try_new(PointCartesian::new(22_500, 0), PointCartesian::new(0, 22_500)).is_ok());
    // x = 0 counts as non-negative.
    assert_eq!(
        Segment::try_new(PointCartesian::new(0, 20_000), PointCartesian::new(0, -20_000)),
        Err(OutOfBoundsError::CrossesRotationMax)
    );
}

#[test]
fn rotation_check_comes_before_dead_zone() {
    // This segment both crosses the stop and passes through the centre.
    assert_eq!(
        Segment::try_new(PointCartesian::new(10, 10), PointCartesian::new(10, -10)),
        Err(OutOfBoundsError::CrossesRotationMax)
    );
}

#[test]
fn dead_zone_checks_the_whole_line() {
    // Both endpoints are far out, but the line through them passes the centre
    // at 10 mm, beyond the segment's own extent.
    assert_eq!(
        Segment::try_new(PointCartesian::new(20_000, 10_000), PointCartesian::new(25_000, 10_000)),
        Err(OutOfBoundsError::CrossesDeadZone(10_000))
    );
    // A line exactly at the minimum radius is accepted.
    assert!(Segment::try_new(PointCartesian::new(-20_000, 14_000), PointCartesian::new(20_000, 14_000)).is_ok());
}

#[test]
fn degenerate_segment_steps_only_at_zero() {
    let p = PointCartesian::new(-20_000, 0);
    let segment = Segment::try_new(p, p).unwrap();
    assert_eq!(segment.distance(), 0);
    assert_eq!(segment.step(0), Some(p));
    assert_eq!(segment.step(1), None);
}

#[test]
fn step_ends_are_the_endpoints() {
    let a = PointCartesian::new(-17_000, 9_000);
    let b = PointCartesian::new(3_000, 26_000);
    let segment = Segment::try_new(a, b).unwrap();
    let len = segment.distance();
    assert_eq!(len, 26_248);
    assert_eq!(segment.step(0), Some(a));
    assert_eq!(segment.step(len), Some(b));
    assert_eq!(segment.step(len + 1), None);
    assert_eq!(segment.step(-1), None);
    // Each axis is rounded towards the centre.
    assert_eq!(segment.step(1), Some(PointCartesian::new(-16_999, 9_000)));
    assert_eq!(segment.step(10_000), Some(PointCartesian::new(-9_380, 15_476)));
}

#[test]
fn waypoints_near_the_dead_zone_stay_in_the_band() {
    // Both endpoints lie about 14.87 mm out and the line passes 14000.6 um
    // from the centre. Rounding towards the centre would give (8398, 11201),
    // 13999 um out; the waypoint is rounded away from the centre instead.
    let a = PointCartesian::new(4_401, 14_200);
    let b = PointCartesian::new(12_401, 8_200);
    let segment = Segment::try_new(a, b).unwrap();
    assert_eq!(segment.distance(), 10_000);
    let w = segment.step(4_997).unwrap();
    assert_eq!(w, PointCartesian::new(8_399, 11_202));
    assert_eq!(polar(&w).unwrap().radius(), 14_001);
    for d in 0..=segment.distance() {
        let p = polar(&segment.step(d).unwrap()).unwrap();
        assert!(MIN_RADIUS <= p.radius() && p.radius() <= MAX_RADIUS);
    }
}

#[test]
fn waypoints_near_the_outer_edge_stay_in_the_band() {
    let a = PointCartesian::new(30_999, 17);
    let b = PointCartesian::new(-17, 30_999);
    let segment = Segment::try_new(a, b).unwrap();
    for d in (0..=segment.distance()).step_by(7) {
        let p = polar(&segment.step(d).unwrap()).unwrap();
        assert!(MIN_RADIUS <= p.radius() && p.radius() <= MAX_RADIUS);
    }
}

#[test]
fn try_new_is_deterministic() {
    let a = PointCartesian::new(15_000, 2_000);
    let b = PointCartesian::new(-15_000, 30_000);
    assert_eq!(Segment::try_new(a, b), Segment::try_new(a, b));
    let c = PointCartesian::new(22_500, 1_000);
    let d = PointCartesian::new(22_500, -1_000);
    assert_eq!(Segment::try_new(c, d), Segment::try_new(c, d));
}
