use peak_reconcile::error::LoadError;
use peak_reconcile::planar::PlanarPoint;
use peak_reconcile::survey::{round_to_metres, sort_by_name, SurveyPeak};

fn peak(name: &str, lat: i32) -> SurveyPeak {
    SurveyPeak { name: name.to_string(), lat, lon: 0, ele: 0, position: PlanarPoint::new(0, 0) }
}

#[test]
fn from_feet_converts_to_metres_at_once() {
    let at = PlanarPoint::new(4_048_950, 384_350);
    let p = SurveyPeak::from_feet(
        "Mount Whitney".to_string(),
        365_786_000,
        -1_182_920_000,
        14_505_000,
        at,
    )
    .unwrap();
    assert_eq!(p.name, "Mount Whitney");
    assert_eq!(p.lat, 365_786_000);
    assert_eq!(p.lon, -1_182_920_000);
    assert_eq!(p.ele, 44_211_240_000);
    assert_eq!(p.position, at);
    assert_eq!(p.rounded_metres(), 4421);
}

#[test]
fn from_feet_multiplies_by_the_length_of_a_foot() {
    let at = PlanarPoint::new(0, 0);
    let one = SurveyPeak::from_feet("a".to_string(), 0, 0, 1_000, at).unwrap();
    assert_eq!(one.ele, 3_048_000);
    let below = SurveyPeak::from_feet("b".to_string(), 0, 0, -282_000, at).unwrap();
    assert_eq!(below.ele, -859_536_000);
    let none = SurveyPeak::from_feet("c".to_string(), 0, 0, 0, at).unwrap();
    assert_eq!(none.ele, 0);
}

#[test]
fn from_feet_refuses_what_does_not_fit() {
    let at = PlanarPoint::new(0, 0);
    let most = 3_026_040_694_506_160;
    let fits = SurveyPeak::from_feet("a".to_string(), 0, 0, most, at).unwrap();
    assert_eq!(fits.ele, 9_223_372_036_854_775_680);
    assert_eq!(
        SurveyPeak::from_feet("a".to_string(), 0, 0, most + 1, at),
        Err(LoadError::ElevationOutOfRange)
    );
    assert_eq!(
        SurveyPeak::from_feet("a".to_string(), 0, 0, i64::MAX, at),
        Err(LoadError::ElevationOutOfRange)
    );
    assert_eq!(
        SurveyPeak::from_feet("a".to_string(), 0, 0, i64::MIN, at),
        Err(LoadError::ElevationOutOfRange)
    );
    assert!(SurveyPeak::from_feet("a".to_string(), 0, 0, -most, at).is_ok());
    assert_eq!(
        SurveyPeak::from_feet("a".to_string(), 0, 0, -most - 1, at),
        Err(LoadError::ElevationOutOfRange)
    );
}

#[test]
fn round_to_metres_takes_the_nearest_whole_metre() {
    assert_eq!(round_to_metres(0), 0);
    assert_eq!(round_to_metres(4_999_999), 0);
    assert_eq!(round_to_metres(5_000_000), 1);
    assert_eq!(round_to_metres(14_999_999), 1);
    assert_eq!(round_to_metres(15_000_000), 2);
    assert_eq!(round_to_metres(13_500_000_000), 1350);
    assert_eq!(round_to_metres(44_211_240_000), 4421);
}

#[test]
fn round_to_metres_keeps_the_sign() {
    assert_eq!(round_to_metres(-1), 0);
    assert_eq!(round_to_metres(-4_999_999), 0);
    assert_eq!(round_to_metres(-5_000_000), -1);
    assert_eq!(round_to_metres(-14_999_999), -1);
    assert_eq!(round_to_metres(-15_000_000), -2);
    assert_eq!(round_to_metres(-856_000_000), -86);
    assert_eq!(round_to_metres(-854_000_000), -85);
    assert_eq!(round_to_metres(-859_536_000), -86);
}

#[test]
fn round_to_metres_holds_at_both_ends() {
    assert_eq!(round_to_metres(42_949_672_955_000_000), 4_294_967_296);
    assert_eq!(round_to_metres(i64::MAX), 922_337_203_685);
    assert_eq!(round_to_metres(i64::MIN), -922_337_203_685);
    assert_eq!(round_to_metres(i64::MAX - 4_775_807), 922_337_203_685);
    assert_eq!(round_to_metres(i64::MAX - 9_775_808), 922_337_203_684);
}

#[test]
fn a_record_below_sea_level_states_a_negative_height() {
    let at = PlanarPoint::new(0, 0);
    let p = SurveyPeak::from_feet("Badwater".to_string(), 362_500_000, -1_167_500_000, -282_000, at)
        .unwrap();
    assert_eq!(p.ele, -859_536_000);
    assert_eq!(p.rounded_metres(), -86);
}

#[test]
fn sort_by_name_orders_and_keeps_equals_in_place() {
    let records = vec![
        peak("Baker", 1),
        peak("Adams", 2),
        peak("Baker", 3),
        peak("Adams", 4),
        peak("Clark", 5),
        peak("Adams", 6),
    ];
    let sorted = sort_by_name(records);
    let seen: Vec<(&str, i32)> = sorted.iter().map(|p| (p.name.as_str(), p.lat)).collect();
    assert_eq!(
        seen,
        vec![("Adams", 2), ("Adams", 4), ("Adams", 6), ("Baker", 1), ("Baker", 3), ("Clark", 5)]
    );
}

#[test]
fn sort_by_name_agrees_with_a_stable_sort() {
    let names = [
        "Mount Whitney", "mount whitney", "Mount", "", "Zebra", "apple", "Étoile", "Mount",
        "Adams", "Zebra", "", "Mount Whitney", "山", "Baker", "Adams", "A",
    ];
    let records: Vec<SurveyPeak> =
        names.iter().enumerate().map(|(i, n)| peak(n, i as i32)).collect();
    let mut expected = records.clone();
    expected.sort_by(|a, b| a.name.cmp(&b.name));
    assert_eq!(sort_by_name(records), expected);
}

#[test]
fn sort_by_name_leaves_short_lists_alone() {
    assert_eq!(sort_by_name(Vec::new()), Vec::new());
    assert_eq!(sort_by_name(vec![peak("Only", 1)]), vec![peak("Only", 1)]);
    let sorted = vec![peak("A", 1), peak("B", 2), peak("C", 3)];
    assert_eq!(sort_by_name(sorted.clone()), sorted);
    let reversed = vec![peak("C", 3), peak("B", 2), peak("A", 1)];
    assert_eq!(sort_by_name(reversed), sorted);
}
