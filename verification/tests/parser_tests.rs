use fleet_suggest::parser::{
    bucket_for, build_fleet_ship, find_fleet_event_id, parse_fleet_layout, split_fleet_line, ShipText,
};
use fleet_suggest::types::{FleetEvent, FleetShip};

fn event(id: &str, name: &str) -> FleetEvent {
    FleetEvent { id: id.to_string(), name: name.to_string(), hazards: Vec::new() }
}

#[test]
fn bucket_is_the_digits_after_g() {
    assert_eq!(bucket_for("g12_b3"), Some("12".to_string()));
    assert_eq!(bucket_for("g7"), Some("7".to_string()));
    assert_eq!(bucket_for("gx1"), None);
    assert_eq!(bucket_for("x12"), None);
    assert_eq!(bucket_for("g"), None);
    assert_eq!(bucket_for(""), None);
}

#[test]
fn event_found_by_galaxy_and_upper_name() {
    let rows = vec![event("g12_b3", "ALPHA"), event("g1_b2", "ALPHA"), event("g1_b4", "BETA")];
    assert_eq!(find_fleet_event_id(&rows, 1, "alpha"), Some("g1_b2".to_string()));
    assert_eq!(find_fleet_event_id(&rows, 12, "Alpha"), Some("g12_b3".to_string()));
    assert_eq!(find_fleet_event_id(&rows, 1, "beta"), Some("g1_b4".to_string()));
    assert_eq!(find_fleet_event_id(&rows, 2, "alpha"), None);
    assert_eq!(find_fleet_event_id(&rows, 1, "gamma"), None);
}

#[test]
fn event_name_must_match_exactly_after_upper_casing() {
    let rows = vec![event("g3_b1", "Mixed")];
    assert_eq!(find_fleet_event_id(&rows, 3, "mixed"), None);
    let rows = vec![event("g3", "STRASSE")];
    assert_eq!(find_fleet_event_id(&rows, 3, "straße"), Some("g3".to_string()));
}

#[test]
fn fleet_line_parts() {
    let l = parse_fleet_layout("  100,200,3.5|x|Fighter;m1,,m2;1,2.3,4;5|Null;a|7.5  ").unwrap();
    assert_eq!(l.header, vec!["100".to_string(), "200".to_string(), "3.5".to_string()]);
    assert_eq!(l.ships.len(), 1);
    let s = &l.ships[0];
    assert_eq!(s.ship_type, "Fighter");
    assert_eq!(s.mods, vec!["m1".to_string(), "m2".to_string()]);
    assert_eq!(
        s.coords,
        vec![("1".to_string(), "2".to_string()), ("3".to_string(), "4".to_string())]
    );
    assert_eq!(s.count, Some("5".to_string()));
    assert_eq!(l.tail, Some("7.5".to_string()));
}

#[test]
fn v2_lines_separate_positions_with_stars() {
    let l = parse_fleet_layout("V2100,200|x|Corvette;;1,2*3,4").unwrap();
    assert_eq!(l.header, vec!["100".to_string(), "200".to_string()]);
    let s = &l.ships[0];
    assert_eq!(s.ship_type, "Corvette");
    assert!(s.mods.is_empty());
    assert_eq!(
        s.coords,
        vec![("1".to_string(), "2".to_string()), ("3".to_string(), "4".to_string())]
    );
    assert_eq!(s.count, None);
    assert_eq!(l.tail, None);
}

#[test]
fn ship_parts_stop_at_the_tail() {
    let l = parse_fleet_layout("1,2|x||Fighter;;|12|Cruiser;;").unwrap();
    assert_eq!(l.ships.len(), 1);
    assert_eq!(l.ships[0].ship_type, "Fighter");
    assert_eq!(l.tail, None);
}

#[test]
fn line_with_one_part_is_refused() {
    assert_eq!(parse_fleet_layout("abc"), None);
    assert_eq!(parse_fleet_layout("   "), None);
}

#[test]
fn console_reading_keeps_first_two_coordinates() {
    let l = split_fleet_line("1,2|x|Frigate;m;1,2,9*3,4", true).unwrap();
    assert_eq!(
        l.ships[0].coords,
        vec![("1".to_string(), "2".to_string()), ("3".to_string(), "4".to_string())]
    );
    let w = split_fleet_line("1,2|x|Frigate;m;1,2,9*3,4", false).unwrap();
    assert_eq!(w.ships[0].coords, vec![("1".to_string(), "2,9*3,4".to_string())]);
}

#[test]
fn fleet_ship_from_text() {
    let t = ShipText {
        ship_type: "Fighter".to_string(),
        mods: vec!["m1".to_string()],
        coords: Vec::new(),
        count: Some("5".to_string()),
    };
    let s = build_fleet_ship(&t, &vec![Some((1, 2)), None, Some((3, 4))]);
    assert_eq!(
        s,
        FleetShip {
            ship_type: "Fighter".to_string(),
            mods: vec!["m1".to_string()],
            positions: vec![(1, 2), (3, 4)],
            count: 5
        }
    );
    let t2 = ShipText { count: Some("x".to_string()), ..t.clone() };
    assert_eq!(build_fleet_ship(&t2, &vec![Some((1, 2)), None]).count, 1);
    let t3 = ShipText { count: None, ..t };
    assert_eq!(build_fleet_ship(&t3, &vec![]).count, 0);
}
