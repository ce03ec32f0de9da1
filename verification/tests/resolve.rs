use peak_reconcile::index::{build_index, Candidate};
use peak_reconcile::node::MapNode;
use peak_reconcile::planar::PlanarPoint;
use peak_reconcile::resolve::{
    decide, filter_by_name, names_match, provisional_id, resolve_all, MatchDecision, SkipReason,
};
use peak_reconcile::survey::SurveyPeak;
use peak_reconcile::tags::Tag;

fn node(id: i64, name: &str, northing: i32, easting: i32) -> MapNode {
    MapNode {
        id,
        version: 2,
        position: Some(PlanarPoint::new(northing, easting)),
        tags: vec![Tag::new("natural", "peak"), Tag::new("name", name)],
    }
}

fn peak(name: &str, northing: i32, easting: i32) -> SurveyPeak {
    SurveyPeak {
        name: name.to_string(),
        lat: 0,
        lon: 0,
        ele: 0,
        position: PlanarPoint::new(northing, easting),
    }
}

#[test]
fn names_match_is_exact() {
    let n = node(1, "Mount X", 0, 0);
    assert!(names_match(&n, "Mount X"));
    assert!(!names_match(&n, "mount x"));
    assert!(!names_match(&n, "Mount"));
    assert!(!names_match(&n, "Mount X "));
    let unnamed = MapNode { id: 2, version: 1, position: None, tags: Vec::new() };
    assert!(!names_match(&unnamed, ""));
    assert!(!names_match(&unnamed, "Mount X"));
}

#[test]
fn filter_by_name_keeps_the_namesakes_in_order() {
    let a = node(1, "Mount X", 0, 0);
    let b = node(2, "Mount Y", 0, 0);
    let c = node(3, "Mount X", 0, 0);
    let found = vec![
        Candidate { distance_squared: 9, node: &a },
        Candidate { distance_squared: 4, node: &b },
        Candidate { distance_squared: 1, node: &c },
    ];
    assert_eq!(
        filter_by_name(&found, "Mount X"),
        vec![
            Candidate { distance_squared: 9, node: &a },
            Candidate { distance_squared: 1, node: &c },
        ]
    );
    assert!(filter_by_name(&found, "Mount Z").is_empty());
}

#[test]
fn provisional_id_counts_from_minus_one() {
    assert_eq!(provisional_id(0), -1);
    assert_eq!(provisional_id(1), -2);
    assert_eq!(provisional_id(41), -42);
    assert_eq!(provisional_id(i64::MAX as usize), i64::MIN);
}

#[test]
fn a_record_without_a_namesake_nearby_is_created() {
    let nodes = vec![node(1, "Mount Y", 0, 0), node(2, "Mount X", 0, 301)];
    let index = build_index(&nodes);
    let record = peak("Mount X", 0, 0);
    assert_eq!(
        decide(&index, &record, 0, 90_000),
        MatchDecision::Create { record: &record, id: -1 }
    );
    assert_eq!(
        decide(&index, &record, 4, 90_000),
        MatchDecision::Create { record: &record, id: -5 }
    );
}

#[test]
fn a_record_with_one_namesake_nearby_updates_it() {
    let nodes = vec![node(1, "Mount Y", 0, 0), node(2, "Mount X", 30, 40), node(3, "Mount X", 0, 301)];
    let index = build_index(&nodes);
    let record = peak("Mount X", 0, 0);
    let d = decide(&index, &record, 0, 90_000);
    assert_eq!(
        d,
        MatchDecision::Update { record: &record, node: &nodes[1], distance_squared: 2_500 }
    );
    assert_eq!(d.distance(), Some(50));
    assert_eq!(d.record(), &record);
}

#[test]
fn two_namesakes_within_the_radius_are_ambiguous() {
    let nodes = vec![node(1, "Mount X", 0, 100), node(2, "Mount X", 0, -100)];
    let index = build_index(&nodes);
    let record = peak("Mount X", 0, 0);
    let d = decide(&index, &record, 0, 90_000);
    assert_eq!(
        d,
        MatchDecision::Skip { record: &record, reason: SkipReason::Ambiguous { candidates: 2 } }
    );
    assert_eq!(d.distance(), None);
}

#[test]
fn a_narrower_radius_resolves_an_ambiguity() {
    let nodes = vec![node(1, "Mount X", 0, 10), node(2, "Mount X", 0, -100)];
    let index = build_index(&nodes);
    let record = peak("Mount X", 0, 0);
    assert_eq!(
        decide(&index, &record, 0, 50 * 50),
        MatchDecision::Update { record: &record, node: &nodes[0], distance_squared: 100 }
    );
    assert_eq!(
        decide(&index, &record, 0, 100 * 100),
        MatchDecision::Skip { record: &record, reason: SkipReason::Ambiguous { candidates: 2 } }
    );
    assert_eq!(decide(&index, &record, 0, 9 * 9), MatchDecision::Create { record: &record, id: -1 });
}

#[test]
fn distance_of_a_decision_is_rounded_down() {
    let nodes = vec![node(1, "Mount X", 1, 1)];
    let index = build_index(&nodes);
    let record = peak("Mount X", 0, 0);
    let d = decide(&index, &record, 0, 90_000);
    assert_eq!(
        d,
        MatchDecision::Update { record: &record, node: &nodes[0], distance_squared: 2 }
    );
    assert_eq!(d.distance(), Some(1));
    let created = MatchDecision::Create { record: &record, id: -1 };
    assert_eq!(created.distance(), None);
}

#[test]
fn every_record_gets_one_decision_in_order() {
    let nodes = vec![
        node(1, "Adams", 0, 0),
        node(2, "Baker", 1_000, 0),
        node(3, "Baker", 1_000, 10),
    ];
    let index = build_index(&nodes);
    let survey = vec![
        peak("Adams", 0, 5),
        peak("Baker", 1_000, 5),
        peak("Clark", 2_000, 0),
        peak("Adams", 5_000, 5_000),
    ];
    let made = resolve_all(&index, &survey, 90_000);
    assert_eq!(made.len(), survey.len());
    for (d, r) in made.iter().zip(survey.iter()) {
        assert_eq!(d.record(), r);
    }
    assert_eq!(
        made,
        vec![
            MatchDecision::Update { record: &survey[0], node: &nodes[0], distance_squared: 25 },
            MatchDecision::Skip {
                record: &survey[1],
                reason: SkipReason::Ambiguous { candidates: 2 },
            },
            MatchDecision::Create { record: &survey[2], id: -3 },
            MatchDecision::Create { record: &survey[3], id: -4 },
        ]
    );
    assert!(resolve_all(&index, &Vec::new(), 90_000).is_empty());
}

#[test]
fn provisional_ids_are_negative_and_distinct() {
    let nodes: Vec<MapNode> = Vec::new();
    let index = build_index(&nodes);
    let survey: Vec<SurveyPeak> = (0..50).map(|i| peak("Same", i, i)).collect();
    let made = resolve_all(&index, &survey, 90_000);
    let mut seen: Vec<i64> = Vec::new();
    for d in &made {
        match d {
            MatchDecision::Create { id, .. } => {
                assert!(*id < 0);
                assert!(!seen.contains(id));
                seen.push(*id);
            }
            other => panic!("{:?}", other),
        }
    }
    assert_eq!(seen.len(), 50);
    assert_eq!(seen[0], -1);
    assert_eq!(seen[49], -50);
}
