use fleet_suggest::fleet_cli::{asks_boss, boss_reply, build_placement, find_event_in_csv, format_mods, render_grid, reply_lines, ship_abbrev, ShipPlacement};
use fleet_suggest::parser::{numbered_lines, split_fleet_line, ShipText};

fn place(ty: &str, positions: Vec<(u8, u8)>) -> ShipPlacement {
    ShipPlacement { ship_type: ty.to_string(), mods: vec![], positions, count: 1 }
}

#[test]
fn abbreviations() {
    assert_eq!(ship_abbrev("Fighter"), ">");
    assert_eq!(ship_abbrev("HeavyCruiser"), "H");
    assert_eq!(ship_abbrev("PlayerCommandShip"), "@");
    assert_eq!(ship_abbrev("Tug"), "?");
}

#[test]
fn empty_grid() {
    assert_eq!(
        render_grid(&vec![]),
        "   B   A\n1 [ ] [ ]\n2 [ ] [ ]\n3 [ ] [ ]\n4 [ ] [ ]\n5 [ ] [ ]\n"
    );
}

#[test]
fn grid_with_ships_last_one_wins() {
    let ships = vec![
        place("Fighter", vec![(0, 0), (1, 4)]),
        place("Cruiser", vec![(1, 2), (0, 0)]),
        place("Tug", vec![(5, 1)]),
    ];
    assert_eq!(
        render_grid(&ships),
        "   B   A\n1 [ ] [R]\n2 [ ] [ ]\n3 [R] [ ]\n4 [ ] [ ]\n5 [>] [ ]\n"
    );
}

#[test]
fn mods_list() {
    assert_eq!(format_mods(&vec![]), "none");
    assert_eq!(format_mods(&vec!["a".to_string(), "b".to_string()]), "a, b");
}

#[test]
fn placement_from_console_line() {
    let l = split_fleet_line("V21,2|x|Frigate;m1,m2;1,2*0,4,7*9;3", true).unwrap();
    let t: &ShipText = &l.ships[0];
    let p = build_placement(t, &vec![Some((1, 2)), Some((0, 4))]);
    assert_eq!(p.ship_type, "Frigate");
    assert_eq!(p.mods, vec!["m1".to_string(), "m2".to_string()]);
    assert_eq!(p.positions, vec![(1, 2), (0, 4)]);
    assert_eq!(p.count, 3);
    let t2 = ShipText { count: Some("-1".to_string()), ..t.clone() };
    assert_eq!(build_placement(&t2, &vec![Some((1, 2)), None]).count, 1);
}

#[test]
fn event_in_csv() {
    let csv = "id,name\r\ng1_b1,ALPHA\r\ng12_b1,BETA\r\ng1_b2,BETA\r\nbad\r\n";
    assert_eq!(find_event_in_csv(csv, 1, "beta"), Some("g1_b2".to_string()));
    assert_eq!(find_event_in_csv(csv, 12, "Beta"), Some("g12_b1".to_string()));
    assert_eq!(find_event_in_csv(csv, 2, "alpha"), None);
    assert_eq!(find_event_in_csv("g1_b1,ALPHA\n", 1, "alpha"), None);
}

#[test]
fn boss_question() {
    assert!(asks_boss("BB3"));
    assert!(asks_boss("bB1"));
    assert!(!asks_boss("B1"));
    assert!(!asks_boss("b"));
    assert!(boss_reply(""));
    assert!(boss_reply("Yes"));
    assert!(boss_reply("y"));
    assert!(!boss_reply("n"));
    assert!(!boss_reply(" y"));
}

#[test]
fn service_reply_lines() {
    assert_eq!(reply_lines(r#"["a", " b "]"#), Some(vec!["a".to_string(), " b ".to_string()]));
    assert_eq!(reply_lines(r#"["a", 1]"#), None);
    assert_eq!(reply_lines("{}"), None);
    assert_eq!(reply_lines("[]"), Some(vec![]));
}

#[test]
fn lines_numbered_from_one() {
    let lines: Vec<String> = vec!["  x|y ".into(), "".into(), "   ".into(), "z".into()];
    assert_eq!(numbered_lines(&lines), vec![(1, "x|y".to_string()), (4, "z".to_string())]);
}
