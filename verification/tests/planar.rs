use peak_reconcile::config::DEFAULT_PROJECTION_ZONE;
use peak_reconcile::planar::{integer_sqrt, PlanarPoint};

#[test]
fn squared_distance_is_the_sum_of_squares() {
    let a = PlanarPoint::new(0, 0);
    let b = PlanarPoint::new(3, 4);
    assert_eq!(a.squared_distance_to(&b), 25);
    assert_eq!(b.squared_distance_to(&a), 25);
    assert_eq!(a.squared_distance_to(&a), 0);
    let c = PlanarPoint::new(-300, 0);
    assert_eq!(a.squared_distance_to(&c), 90_000);
}

#[test]
fn squared_distance_is_exact_at_the_corners() {
    let low = PlanarPoint::new(i32::MIN, i32::MIN);
    let high = PlanarPoint::new(i32::MAX, i32::MAX);
    assert_eq!(low.squared_distance_to(&high), 36_893_488_130_239_234_050);
    let side = PlanarPoint::new(i32::MIN, i32::MAX);
    assert_eq!(side.squared_distance_to(&high), 18_446_744_065_119_617_025);
}

#[test]
fn integer_sqrt_rounds_down() {
    assert_eq!(integer_sqrt(0), 0);
    assert_eq!(integer_sqrt(1), 1);
    assert_eq!(integer_sqrt(2), 1);
    assert_eq!(integer_sqrt(3), 1);
    assert_eq!(integer_sqrt(4), 2);
    assert_eq!(integer_sqrt(24), 4);
    assert_eq!(integer_sqrt(25), 5);
    assert_eq!(integer_sqrt(89_999), 299);
    assert_eq!(integer_sqrt(90_000), 300);
    assert_eq!(integer_sqrt(90_001), 300);
}

#[test]
fn integer_sqrt_holds_at_the_top() {
    assert_eq!(integer_sqrt(u64::MAX), 4_294_967_295);
    assert_eq!(integer_sqrt(18_446_744_065_119_617_025), 4_294_967_295);
    assert_eq!(integer_sqrt(18_446_744_065_119_617_024), 4_294_967_294);
}

#[test]
fn integer_sqrt_brackets_every_small_number() {
    for n in 0u64..5_000 {
        let r = integer_sqrt(n) as u64;
        assert!(r * r <= n && n < (r + 1) * (r + 1), "{}", n);
    }
}

fn on_grid(lat: f64, lon: f64) -> PlanarPoint {
    let (northing, easting, _) = utm::to_utm_wgs84(lat, lon, DEFAULT_PROJECTION_ZONE);
    PlanarPoint::new(northing.round() as i32, easting.round() as i32)
}

#[test]
fn projecting_twice_gives_the_same_point() {
    let first = on_grid(36.5786, -118.2920);
    let second = on_grid(36.5786, -118.2920);
    assert_eq!(first, second);
    assert!(first.northing > 4_000_000 && first.northing < 4_100_000);
    assert!(first.easting > 300_000 && first.easting < 500_000);
}

#[test]
fn one_second_of_arc_is_some_tens_of_metres_on_the_grid() {
    let here = on_grid(36.5786, -118.2920);
    let north = on_grid(36.5786 + 1.0 / 3600.0, -118.2920);
    let d = here.squared_distance_to(&north);
    assert!(d > 29 * 29 && d < 32 * 32, "{}", d);
}
