use peak_reconcile::config::{Config, DEFAULT_PROJECTION_ZONE, DEFAULT_SEARCH_RADIUS};
use peak_reconcile::emit::{
    create_edit, edit_for, emit, fresh_tags, modify_edit, reconcile, reconcile_tags, EditAction,
    NodeEdit,
};
use peak_reconcile::node::MapNode;
use peak_reconcile::planar::PlanarPoint;
use peak_reconcile::index::build_index;
use peak_reconcile::resolve::{decide, resolve_all, MatchDecision, SkipReason};
use peak_reconcile::survey::SurveyPeak;
use peak_reconcile::tags::Tag;

fn tag(key: &str, value: &str) -> Tag {
    Tag::new(key, value)
}

fn node(id: i64, northing: i32, easting: i32, tags: Vec<Tag>) -> MapNode {
    MapNode { id, version: 7, position: Some(PlanarPoint::new(northing, easting)), tags }
}

fn peak(name: &str, metres: i64, northing: i32, easting: i32) -> SurveyPeak {
    SurveyPeak {
        name: name.to_string(),
        lat: 365_786_000,
        lon: -1_182_920_000,
        ele: metres * 10_000_000,
        position: PlanarPoint::new(northing, easting),
    }
}

#[test]
fn the_defaults_are_the_documented_ones() {
    assert_eq!(DEFAULT_SEARCH_RADIUS, 300);
    assert_eq!(DEFAULT_PROJECTION_ZONE, 11);
    let c = Config::default();
    assert_eq!(c, Config { search_radius: 300, projection_zone: 11 });
}

#[test]
fn radius_squared_is_the_square() {
    assert_eq!(Config::default().radius_squared(), 90_000);
    assert_eq!(Config { search_radius: 0, projection_zone: 11 }.radius_squared(), 0);
    assert_eq!(Config { search_radius: 1, projection_zone: 11 }.radius_squared(), 1);
    assert_eq!(Config { search_radius: 100, projection_zone: 11 }.radius_squared(), 10_000);
    assert_eq!(
        Config { search_radius: u32::MAX, projection_zone: 11 }.radius_squared(),
        18_446_744_065_119_617_025
    );
}

#[test]
fn fresh_tags_are_name_elevation_and_kind() {
    let p = peak("Mount X", 1350, 0, 0);
    assert_eq!(
        fresh_tags(&p),
        vec![tag("name", "Mount X"), tag("ele", "1350"), tag("natural", "peak")]
    );
}

#[test]
fn create_edit_has_no_version_and_the_survey_position() {
    let p = peak("Mount X", 1350, 0, 0);
    assert_eq!(
        create_edit(-3, &p),
        NodeEdit {
            action: EditAction::Create,
            id: -3,
            version: None,
            lat: 365_786_000,
            lon: -1_182_920_000,
            tags: vec![tag("name", "Mount X"), tag("ele", "1350"), tag("natural", "peak")],
        }
    );
}

#[test]
fn an_existing_elevation_is_never_overwritten() {
    let n = node(9, 0, 0, vec![tag("name", "Mount X"), tag("ele", "4400"), tag("natural", "peak")]);
    let p = peak("Mount X", 1350, 0, 0);
    let tags = reconcile_tags(&n, &p);
    assert_eq!(tags, n.tags);
    let edit = modify_edit(&n, &p);
    assert!(edit.tags.contains(&tag("ele", "4400")));
    assert!(!edit.tags.contains(&tag("ele", "1350")));
    assert_eq!(edit.tags.iter().filter(|t| t.key == "ele").count(), 1);
}

#[test]
fn an_empty_elevation_counts_as_existing() {
    let n = node(9, 0, 0, vec![tag("ele", ""), tag("name", "Mount X")]);
    let p = peak("Mount X", 1350, 0, 0);
    assert_eq!(reconcile_tags(&n, &p), n.tags);
}

#[test]
fn a_missing_elevation_is_added_after_the_other_tags() {
    let n = node(9, 0, 0, vec![tag("natural", "peak"), tag("name", "Mount X"), tag("source", "gps")]);
    let p = peak("Mount X", 1350, 0, 0);
    assert_eq!(
        reconcile_tags(&n, &p),
        vec![
            tag("natural", "peak"),
            tag("name", "Mount X"),
            tag("source", "gps"),
            tag("ele", "1350"),
        ]
    );
    let bare = node(10, 0, 0, Vec::new());
    assert_eq!(reconcile_tags(&bare, &p), vec![tag("ele", "1350")]);
}

#[test]
fn a_height_below_sea_level_is_written_with_its_sign() {
    let n = MapNode { id: 1, version: 1, position: None, tags: vec![tag("name", "Badwater")] };
    let p = SurveyPeak {
        name: "Badwater".to_string(),
        lat: 362_500_000,
        lon: -1_167_500_000,
        ele: -856_000_000,
        position: PlanarPoint::new(0, 0),
    };
    assert_eq!(reconcile_tags(&n, &p), vec![tag("name", "Badwater"), tag("ele", "-86")]);
    assert_eq!(modify_edit(&n, &p).tags, vec![tag("name", "Badwater"), tag("ele", "-86")]);
    assert_eq!(
        fresh_tags(&p),
        vec![tag("name", "Badwater"), tag("ele", "-86"), tag("natural", "peak")]
    );
    let shallow = SurveyPeak { ele: -4_000_000, ..p.clone() };
    assert_eq!(reconcile_tags(&n, &shallow), vec![tag("name", "Badwater"), tag("ele", "0")]);
}

#[test]
fn modify_edit_keeps_identifier_and_version() {
    let n = node(358_915_477, 0, 0, vec![tag("name", "Mount X")]);
    let p = peak("Mount X", 1350, 0, 0);
    assert_eq!(
        modify_edit(&n, &p),
        NodeEdit {
            action: EditAction::Modify,
            id: 358_915_477,
            version: Some(7),
            lat: 365_786_000,
            lon: -1_182_920_000,
            tags: vec![tag("name", "Mount X"), tag("ele", "1350")],
        }
    );
}

#[test]
fn the_loaded_node_is_left_as_it_was() {
    let n = node(9, 0, 0, vec![tag("name", "Mount X")]);
    let before = n.clone();
    let p = peak("Mount X", 1350, 0, 0);
    let _ = modify_edit(&n, &p);
    assert_eq!(n, before);
}

#[test]
fn a_skip_gives_no_element() {
    let n = node(9, 0, 0, vec![tag("name", "Mount X")]);
    let p = peak("Mount X", 1350, 0, 0);
    let skip = MatchDecision::Skip { record: &p, reason: SkipReason::Ambiguous { candidates: 2 } };
    assert_eq!(edit_for(&skip), None);
    let create = MatchDecision::Create { record: &p, id: -1 };
    assert_eq!(edit_for(&create), Some(create_edit(-1, &p)));
    let update = MatchDecision::Update { record: &p, node: &n, distance_squared: 0 };
    assert_eq!(edit_for(&update), Some(modify_edit(&n, &p)));
}

#[test]
fn emit_follows_the_order_of_the_decisions() {
    let n = node(9, 0, 0, vec![tag("name", "B")]);
    let a = peak("A", 10, 0, 0);
    let b = peak("B", 20, 0, 0);
    let c = peak("C", 30, 0, 0);
    let d = peak("D", 40, 0, 0);
    let made = vec![
        MatchDecision::Create { record: &a, id: -1 },
        MatchDecision::Update { record: &b, node: &n, distance_squared: 4 },
        MatchDecision::Skip { record: &c, reason: SkipReason::Ambiguous { candidates: 3 } },
        MatchDecision::Create { record: &d, id: -4 },
    ];
    assert_eq!(
        emit(&made),
        vec![create_edit(-1, &a), modify_edit(&n, &b), create_edit(-4, &d)]
    );
    assert_eq!(emit(&Vec::new()), Vec::new());
}

#[test]
fn whitney_is_updated_with_the_survey_elevation() {
    let at = PlanarPoint::new(4_048_950, 384_350);
    let n = MapNode::new(
        358_915_477,
        Some(7),
        Some(at),
        vec![tag("name", "Mount Whitney"), tag("natural", "peak")],
    )
    .unwrap();
    let p = SurveyPeak::from_feet(
        "Mount Whitney".to_string(),
        365_786_000,
        -1_182_920_000,
        14_505_000,
        at,
    )
    .unwrap();
    let edits = reconcile(&vec![n], &vec![p], &Config::default());
    assert_eq!(
        edits,
        vec![NodeEdit {
            action: EditAction::Modify,
            id: 358_915_477,
            version: Some(7),
            lat: 365_786_000,
            lon: -1_182_920_000,
            tags: vec![tag("name", "Mount Whitney"), tag("natural", "peak"), tag("ele", "4421")],
        }]
    );
}

#[test]
fn two_nodes_named_alike_leave_the_record_out_of_the_diff() {
    let nodes = vec![
        node(1, 1_000, 1_000, vec![tag("name", "Mount X"), tag("natural", "peak")]),
        node(2, 1_100, 1_100, vec![tag("name", "Mount X"), tag("natural", "peak")]),
    ];
    let survey = vec![peak("Mount X", 1350, 1_050, 1_050)];
    assert_eq!(reconcile(&nodes, &survey, &Config::default()), Vec::new());
}

#[test]
fn reconcile_uses_the_configured_radius() {
    let nodes = vec![node(1, 0, 200, vec![tag("name", "Mount X")])];
    let survey = vec![peak("Mount X", 1350, 0, 0)];
    let wide = reconcile(&nodes, &survey, &Config { search_radius: 300, projection_zone: 11 });
    assert_eq!(wide, vec![modify_edit(&nodes[0], &survey[0])]);
    let narrow = reconcile(&nodes, &survey, &Config { search_radius: 100, projection_zone: 11 });
    assert_eq!(narrow, vec![create_edit(-1, &survey[0])]);
    let rim = reconcile(&nodes, &survey, &Config { search_radius: 200, projection_zone: 11 });
    assert_eq!(rim, vec![modify_edit(&nodes[0], &survey[0])]);
}

#[test]
fn reconcile_passes_over_nodes_without_coordinates() {
    let lost = MapNode { id: 5, version: 1, position: None, tags: vec![tag("name", "Mount X")] };
    let survey = vec![peak("Mount X", 1350, 0, 0)];
    assert_eq!(
        reconcile(&vec![lost], &survey, &Config::default()),
        vec![create_edit(-1, &survey[0])]
    );
}

#[test]
fn reconcile_gives_each_new_peak_its_own_identifier() {
    let survey = vec![peak("A", 1, 0, 0), peak("B", 2, 0, 0), peak("C", 3, 0, 0)];
    let edits = reconcile(&Vec::new(), &survey, &Config::default());
    let ids: Vec<i64> = edits.iter().map(|e| e.id).collect();
    assert_eq!(ids, vec![-1, -2, -3]);
    assert!(edits.iter().all(|e| e.action == EditAction::Create && e.version.is_none()));
}

#[test]
fn elements_and_skips_are_as_many_as_the_records() {
    let nodes = vec![
        node(1, 0, 0, vec![tag("name", "A")]),
        node(2, 1_000, 0, vec![tag("name", "B")]),
        node(3, 1_000, 50, vec![tag("name", "B")]),
        node(4, 2_000, 0, vec![tag("name", "C")]),
        node(5, 2_000, 10, vec![tag("name", "C")]),
        node(6, 2_000, 20, vec![tag("name", "C")]),
    ];
    let survey = vec![
        peak("A", 1, 0, 10),
        peak("B", 2, 1_000, 10),
        peak("C", 3, 2_000, 10),
        peak("D", 4, 3_000, 10),
        peak("A", 5, 9_000, 9_000),
    ];
    let index = build_index(&nodes);
    let made = resolve_all(&index, &survey, 90_000);
    let skips = made.iter().filter(|d| matches!(d, MatchDecision::Skip { .. })).count();
    let edits = emit(&made);
    assert_eq!(skips, 2);
    assert_eq!(edits.len() + skips, survey.len());
    assert_eq!(
        edits,
        vec![
            modify_edit(&nodes[0], &survey[0]),
            create_edit(-4, &survey[3]),
            create_edit(-5, &survey[4]),
        ]
    );
}

#[test]
fn a_wider_radius_never_turns_an_update_into_a_create() {
    let nodes = vec![
        node(1, 0, 40, vec![tag("name", "Mount X")]),
        node(2, 0, 250, vec![tag("name", "Mount X")]),
        node(3, 0, 10, vec![tag("name", "Mount Y")]),
    ];
    let index = build_index(&nodes);
    let record = peak("Mount X", 1, 0, 0);
    let radii: [u64; 6] = [0, 39, 40, 249, 250, 1_000];
    let mut updated = false;
    let mut skipped = false;
    for r in radii {
        match decide(&index, &record, 0, r * r) {
            MatchDecision::Create { id, .. } => {
                assert!(!updated && !skipped);
                assert_eq!(id, -1);
            }
            MatchDecision::Update { node, distance_squared, .. } => {
                assert!(!skipped);
                assert_eq!(node.id, 1);
                assert_eq!(distance_squared, 1_600);
                updated = true;
            }
            MatchDecision::Skip { .. } => {
                assert!(updated);
                skipped = true;
            }
        }
    }
    assert!(updated && skipped);
}

#[test]
fn a_namesake_without_coordinates_does_not_stand_in_the_way() {
    let lost = MapNode {
        id: 5,
        version: 1,
        position: None,
        tags: vec![tag("name", "Mount X"), tag("wikidata", "Q1")],
    };
    let other = node(6, 0, 0, vec![tag("name", "Mount Y")]);
    let survey = vec![peak("Mount X", 1350, 0, 0)];
    let edits = reconcile(&vec![lost, other], &survey, &Config::default());
    assert_eq!(edits, vec![create_edit(-1, &survey[0])]);
    assert!(edits[0].id != 5);
    assert!(!edits[0].tags.contains(&tag("wikidata", "Q1")));
}
