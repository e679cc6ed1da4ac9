use fleet_suggest::db::{fleet_event_targets, parse_db, Value};
use fleet_suggest::types::{HazardEntry, HazardSource};

fn text(s: &str) -> Value {
    Value::Text(s.to_string())
}

#[test]
fn value_readers() {
    assert_eq!(text("a").as_text(), Some("a"));
    assert_eq!(Value::Int(3).as_text(), None);
    assert_eq!(Value::Int(3).as_int(), Some(3));
    assert_eq!(Value::Real(-2).as_int(), Some(-2));
    assert_eq!(text("3").as_int(), None);
    assert_eq!(Value::Null.as_int(), None);
    assert_eq!(Value::Null.as_text(), None);
}

#[test]
fn targets_read_from_json() {
    assert_eq!(
        fleet_event_targets(r#"[{"fleet_event":"g1_b2"},{"x":1},{"fleet_event":3},{"fleet_event":"g1_b3"}]"#),
        vec!["g1_b2".to_string(), "g1_b3".to_string()]
    );
    assert_eq!(fleet_event_targets("[]"), Vec::<String>::new());
    assert_eq!(fleet_event_targets("not json"), Vec::<String>::new());
    assert_eq!(fleet_event_targets(r#"{"fleet_event":"g1"}"#), Vec::<String>::new());
}

#[test]
fn tables_from_rows() {
    let events = vec![
        vec![text("g1_b1"), text("ALPHA")],
        vec![text("g1_b2"), text("BETA")],
        vec![text("g2_b1"), text("GAMMA")],
        vec![text("x"), Value::Null],
        vec![text("g1_b1"), text("DUP")],
    ];
    let hazards = vec![
        vec![text("g1_b1"), text("storm"), Value::Int(1), text(r#"[{"fleet_event":"g1_b2"},{"fleet_event":"g1_b1"}]"#)],
        vec![text("g1_b1"), Value::Null, Value::Null, Value::Null],
        vec![Value::Int(5), text("lost"), Value::Int(0), text("[]")],
        vec![text("g2_b1"), text("fog"), Value::Real(0), text(r#"[{"fleet_event":"g1_b2"}]"#)],
    ];
    let ships = vec![
        vec![text("Fighter"), text("f1.png")],
        vec![text("Corvette"), text("")],
        vec![text("Fighter"), text("f2.png")],
        vec![text("Frigate")],
    ];
    let mods = vec![vec![text("m1"), text("i1.png")], vec![Value::Null, text("i2.png")]];
    let d = parse_db(&events, &hazards, &ships, &mods);

    assert_eq!(d.rows.len(), 5);
    assert_eq!(d.rows[0].name, "ALPHA");
    assert_eq!(
        d.rows[0].hazards,
        vec![
            HazardEntry {
                hazard_type: "storm".to_string(),
                repeat: true,
                nodes_effected: vec!["g1_b2".to_string(), "g1_b1".to_string()]
            },
            HazardEntry { hazard_type: "?".to_string(), repeat: false, nodes_effected: vec![] },
        ]
    );
    assert_eq!(d.rows[3].name, "");
    // Only the first row with an id takes its hazards.
    assert!(d.rows[4].hazards.is_empty());

    assert_eq!(d.ship_sprites, vec![("Fighter".to_string(), "f2.png".to_string())]);
    assert_eq!(d.mod_icons, vec![("m1".to_string(), "i1.png".to_string())]);
    assert_eq!(
        d.rows_by_galaxy,
        vec![("1".to_string(), vec![0, 1, 4]), ("2".to_string(), vec![2])]
    );
    assert_eq!(d.hazards_by_target.len(), 2);
    assert_eq!(d.hazards_by_target[0].0, "g1_b2");
    assert_eq!(
        d.hazards_by_target[0].1,
        vec![
            HazardSource {
                source_id: "g1_b1".to_string(),
                source_name: "ALPHA".to_string(),
                hazard_type: "storm".to_string(),
                repeat: true,
                is_self: false
            },
            HazardSource {
                source_id: "g2_b1".to_string(),
                source_name: "GAMMA".to_string(),
                hazard_type: "fog".to_string(),
                repeat: false,
                is_self: false
            },
        ]
    );
    assert_eq!(d.hazards_by_target[1].0, "g1_b1");
    assert!(d.hazards_by_target[1].1[0].is_self);
}

#[test]
fn galaxy_indices_point_at_their_rows() {
    let events: Vec<Vec<Value>> = ["g3_b1", "g10_b2", "x", "g3_b7", "g1"]
        .iter()
        .map(|id| vec![text(id), text("N")])
        .collect();
    let d = parse_db(&events, &vec![], &vec![], &vec![]);
    for (g, idxs) in &d.rows_by_galaxy {
        for &i in idxs {
            assert_eq!(fleet_suggest::parser::bucket_for(&d.rows[i].id).as_ref(), Some(g));
        }
    }
    let keys: Vec<&String> = d.rows_by_galaxy.iter().map(|(k, _)| k).collect();
    assert_eq!(keys, vec!["3", "10", "1"]);
}

#[test]
fn galaxy_lists_hold_every_row_in_order() {
    let events: Vec<Vec<Value>> = ["g2_b1", "g1_b1", "g2_b2", "x", "g2_b3", "g1_b2"]
        .iter()
        .map(|id| vec![text(id), text("N")])
        .collect();
    let d = parse_db(&events, &vec![], &vec![], &vec![]);
    assert_eq!(
        d.rows_by_galaxy,
        vec![("2".to_string(), vec![0, 2, 4]), ("1".to_string(), vec![1, 5])]
    );
}
