use engine::points::{PointCartesian, PointPolar};
use engine::{OutOfBoundsError, MAX_RADIUS, MIN_RADIUS};

const HALF_TURN: i32 = 3_141_593;
const QUARTER_TURN: i32 = 1_570_796;

/// The point's angle in whole microradians.
fn angle(p: &PointCartesian) -> i32 {
    ((p.y as f64).atan2(p.x as f64) * 1_000_000.0).round() as i32
}

fn polar(p: &PointCartesian) -> Result<PointPolar, OutOfBoundsError> {
    p.as_polar(angle(p))
}

#[test]
fn test_new_point_cartesian() {
    let point = PointCartesian::new(2000, 1000);
    assert_eq!(point, PointCartesian { x: 2000, y: 1000 });
}

#[test]
fn test_cartesian_to_polar() -> Result<(), OutOfBoundsError> {
    let points = [
        PointCartesian::new(15000, 0),
        PointCartesian::new(0, 15000),
        PointCartesian::new(-15000, 0),
        PointCartesian::new(0, -15000),
    ];

    assert_eq!(polar(&points[0])?, PointPolar::try_new(15000, 0)?);
    assert_eq!(polar(&points[1])?, PointPolar::try_new(15000, QUARTER_TURN)?);
    assert_eq!(polar(&points[2])?, PointPolar::try_new(15000, HALF_TURN)?);
    assert_eq!(polar(&points[3])?, PointPolar::try_new(15000, -QUARTER_TURN)?);
    assert_eq!(polar(&points[3])?.radius(), 15000);
    assert_eq!(polar(&points[3])?.theta(), -QUARTER_TURN);

    Ok(())
}

#[test]
fn test_min_radius() {
    match PointPolar::try_new(MIN_RADIUS - 1000, 0) {
        Err(OutOfBoundsError::BelowMinimumRadius { .. }) => (),
        _ => panic!("Radius isn't below minimum!"),
    }
    let half = (MIN_RADIUS / 2) as i32;
    match PointCartesian::new(half, half).as_polar(785_398) {
        Err(OutOfBoundsError::BelowMinimumRadius { .. }) => (),
        _ => panic!("Radius isn't below minimum!"),
    }
}

#[test]
fn test_max_radius() {
    match PointPolar::try_new(MAX_RADIUS + 1000, 0) {
        Err(OutOfBoundsError::AboveMaximumRadius { .. }) => (),
        _ => panic!("Radius isn't above maximum!"),
    }
    let max = MAX_RADIUS as i32;
    match PointCartesian::new(max, max).as_polar(785_398) {
        Err(OutOfBoundsError::AboveMaximumRadius { .. }) => (),
        _ => panic!("Radius isn't above maximum!"),
    }
}

#[test]
fn polar_bounds_are_inclusive() {
    assert_eq!(PointPolar::try_new(MIN_RADIUS, 5).unwrap().radius(), MIN_RADIUS);
    assert_eq!(PointPolar::try_new(MAX_RADIUS, 5).unwrap().theta(), 5);
    assert_eq!(
        PointPolar::try_new(MAX_RADIUS + 1, 7),
        Err(OutOfBoundsError::AboveMaximumRadius { radius: MAX_RADIUS + 1, theta: 7 })
    );
    assert_eq!(
        PointPolar::try_new(MIN_RADIUS - 1, -7),
        Err(OutOfBoundsError::BelowMinimumRadius { radius: MIN_RADIUS - 1, theta: -7 })
    );
    assert_eq!(
        PointPolar::try_new(-5, 0),
        Err(OutOfBoundsError::BelowMinimumRadius { radius: -5, theta: 0 })
    );
}

#[test]
fn as_polar_carries_radius_and_angle_in_errors() {
    // 3-4-5 triangle: the distance is exactly 50 mm.
    let far = PointCartesian::new(30_000, 40_000);
    assert_eq!(far.hypot(), 50_000);
    assert_eq!(
        far.as_polar(927_295),
        Err(OutOfBoundsError::AboveMaximumRadius { radius: 50_000, theta: 927_295 })
    );
    let near = PointCartesian::new(-3_000, -4_000);
    assert_eq!(
        near.as_polar(-2_214_297),
        Err(OutOfBoundsError::BelowMinimumRadius { radius: 5_000, theta: -2_214_297 })
    );
}

#[test]
fn as_polar_band_edges() {
    let max = MAX_RADIUS as i32;
    let min = MIN_RADIUS as i32;
    assert_eq!(polar(&PointCartesian::new(max, 0)).unwrap().radius(), MAX_RADIUS);
    assert_eq!(polar(&PointCartesian::new(0, -min)).unwrap().radius(), MIN_RADIUS);
    // Just beyond the outer edge: the distance rounds down to 31000, but the
    // point is refused, carrying its distance rounded up.
    assert_eq!(PointCartesian::new(max, 1).hypot(), MAX_RADIUS);
    assert_eq!(
        PointCartesian::new(max, 1).as_polar(32),
        Err(OutOfBoundsError::AboveMaximumRadius { radius: MAX_RADIUS + 1, theta: 32 })
    );
    // Within the band the radius is the distance rounded down.
    assert_eq!(polar(&PointCartesian::new(30_999, 17)).unwrap().radius(), 30_999);
    assert!(matches!(
        polar(&PointCartesian::new(max + 1, 0)),
        Err(OutOfBoundsError::AboveMaximumRadius { radius: 31_001, .. })
    ));
    assert!(matches!(
        polar(&PointCartesian::new(min - 1, 0)),
        Err(OutOfBoundsError::BelowMinimumRadius { radius: 13_999, .. })
    ));
    // 14000² - 1 is below the band even though its root is within a micrometre of it.
    assert_eq!(PointCartesian::new(9_899, 9_899).hypot(), 13_999);
}

#[test]
fn hypot_of_extreme_coordinates() {
    let p = PointCartesian::new(i32::MIN, i32::MIN);
    assert_eq!(p.hypot(), 3_037_000_499);
    assert_eq!(PointCartesian::new(0, 0).hypot(), 0);
}

#[test]
fn scenario_polar_of_axis_points() {
    assert_eq!(polar(&PointCartesian::new(15_000, 0)).unwrap(), PointPolar::try_new(15_000, 0).unwrap());
    assert_eq!(
        polar(&PointCartesian::new(0, -15_000)).unwrap(),
        PointPolar::try_new(15_000, -QUARTER_TURN).unwrap()
    );
    assert!(matches!(
        PointPolar::try_new(13_000, 0),
        Err(OutOfBoundsError::BelowMinimumRadius { radius: 13_000, theta: 0 })
    ));
}
