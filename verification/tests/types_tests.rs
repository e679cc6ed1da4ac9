use fleet_suggest::types::{is_wide_grid, ship_kind, ship_types, skin_folder, skins, ShipKind};

#[test]
fn ship_kind_known_and_unknown() {
    assert_eq!(ship_kind("Fighter"), ShipKind { name: "Fighter", color: "#ffd23f", abbr: "Ft" });
    assert_eq!(ship_kind("HeavyCruiser"), ShipKind { name: "HeavyCruiser", color: "#ef476f", abbr: "HC" });
    assert_eq!(ship_kind("fighter"), ShipKind { name: "?", color: "#888", abbr: "?" });
    assert_eq!(ship_kind(""), ShipKind { name: "?", color: "#888", abbr: "?" });
}

#[test]
fn ship_table_in_order() {
    let t = ship_types();
    assert_eq!(t.len(), 7);
    assert_eq!(t[2].color, "#6bcB77");
    assert_eq!(t[6].name, "PlayerCommandShip");
}

#[test]
fn skin_folders() {
    assert_eq!(skin_folder("speed_racer"), "racer");
    assert_eq!(skin_folder("spaceversary"), "anniversary");
    assert_eq!(skin_folder("default"), "");
    assert_eq!(skin_folder("unknown"), "");
    let s = skins();
    assert_eq!(s.len(), 12);
    assert!(!s[10].show);
}

#[test]
fn wide_grid_events() {
    assert!(is_wide_grid("g9_b18"));
    assert!(is_wide_grid("g10_b22"));
    assert!(!is_wide_grid("g9_b1"));
    assert!(!is_wide_grid("g6_b46 "));
}
