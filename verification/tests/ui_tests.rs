use fleet_suggest::db::{parse_db, Value};
use fleet_suggest::types::FleetShip;
use fleet_suggest::ui::{
    clamp_index, filter_status, fleet_fits, format_grouped, grid_cell, grid_columns, grid_template,
    hazards_for_node, html_escape, key_action, mod_icons_html, mod_visual_html, mods_text, node_options,
    positions_text, ship_visual_html, tables_consistent, toggle_hazard, KeyAction,
};

fn s(x: &str) -> String {
    x.to_string()
}

fn ship(ty: &str, positions: Vec<(i32, i32)>, count: i32) -> FleetShip {
    FleetShip { ship_type: s(ty), mods: vec![], positions, count }
}

#[test]
fn html_escape_all_five() {
    assert_eq!(html_escape("a&b<c>d\"e'f"), "a&amp;b&lt;c&gt;d&quot;e&#39;f");
    assert_eq!(html_escape("plain"), "plain");
    assert_eq!(html_escape(""), "");
}

#[test]
fn ship_picture_without_sprite_is_the_drawing() {
    let v = ship_visual_html("Fighter", "blue", &vec![]);
    assert!(v.starts_with("<svg viewBox=\"0 0 100 100\""));
    assert!(v.contains("aria-label=\"Fighter\""));
}

#[test]
fn ship_picture_with_sprite_is_an_image() {
    let sprites = vec![(s("Bob's"), s("ships/bob.png"))];
    let v = ship_visual_html("Bob's", "golden", &sprites);
    let url = fleet_suggest::sprites::ship_svg_data_url("Bob's").replace('\'', "%27");
    assert_eq!(
        v,
        format!(
            "<img class=\"ship-img\" alt=\"Bob's\" src=\"ships/golden/bob.png\" onerror=\"this.onerror=null;this.src='{url}'\">"
        )
    );
    assert!(url.contains("Bob%27s"));
}

#[test]
fn mod_pictures() {
    let icons = vec![(s("m<1>"), s("icons/a&b.png")), (s("m2"), s("m2.png"))];
    assert_eq!(
        mod_visual_html("m<1>", &icons),
        "<img class=\"mod-img\" alt=\"m&lt;1&gt;\" title=\"m&lt;1&gt;\" src=\"icons/a&amp;b.png\" onerror=\"this.style.display='none'\">"
    );
    assert_eq!(mod_visual_html("m3", &icons), "");
    let all = mod_icons_html(&vec![s("m3"), s("m2")], &icons);
    assert_eq!(
        all,
        "<img class=\"mod-img\" alt=\"m2\" title=\"m2\" src=\"m2.png\" onerror=\"this.style.display='none'\">"
    );
}

#[test]
fn grid_shape() {
    assert_eq!(grid_columns("g9_b18"), 3);
    assert_eq!(grid_columns("g1_b1"), 2);
    assert_eq!(grid_template(3), "1.5rem repeat(3, 60px)");
}

#[test]
fn grid_cells_show_last_ship_and_count() {
    let ships = vec![
        ship("Fighter", vec![(0, 0), (1, 2)], 2),
        ship("Cruiser", vec![(0, 0)], 1),
        ship("Frigate", vec![(1, 2), (1, 2)], 2),
    ];
    assert_eq!(grid_cell(&ships, 0, 0), Some((s("Cruiser"), 2)));
    assert_eq!(grid_cell(&ships, 1, 2), Some((s("Frigate"), 3)));
    assert_eq!(grid_cell(&ships, 1, 1), None);
}

#[test]
fn ship_row_texts() {
    assert_eq!(mods_text(&vec![]), "no mods");
    assert_eq!(mods_text(&vec![s("a"), s("b")]), "a, b");
    assert_eq!(positions_text(&vec![]), "no positions");
    assert_eq!(positions_text(&vec![(0, 0), (-1, 4)]), "(0,1) (-1,5)");
}

fn sample_db() -> fleet_suggest::types::DbData {
    let t = |x: &str| Value::Text(x.to_string());
    let events = vec![
        vec![t("g1_b1"), t("ALPHA")],
        vec![t("g1_b2"), t("BETA")],
        vec![t("g12_b1"), t("BETA")],
        vec![t("g1_b3"), t("ALPHA")],
        vec![t("g1_b4"), t("")],
    ];
    let hazards = vec![vec![t("g1_b1"), t("storm"), Value::Int(0), t(r#"[{"fleet_event":"g1_b2"}]"#)]];
    parse_db(&events, &hazards, &vec![], &vec![])
}

#[test]
fn node_names_of_a_galaxy() {
    let d = sample_db();
    assert_eq!(node_options(&d, 1), vec![s("ALPHA"), s("BETA")]);
    assert_eq!(node_options(&d, 12), vec![s("BETA")]);
    assert_eq!(node_options(&d, 3), Vec::<String>::new());
}

#[test]
fn hazards_of_a_typed_node() {
    let d = sample_db();
    let h = hazards_for_node(&d, 1, "  beta ");
    assert_eq!(h.len(), 1);
    assert_eq!(h[0].source_id, "g1_b1");
    assert_eq!(h[0].hazard_type, "storm");
    assert!(!h[0].is_self);
    assert!(hazards_for_node(&d, 1, "alpha").is_empty());
    assert!(hazards_for_node(&d, 1, "   ").is_empty());
    assert!(hazards_for_node(&d, 2, "beta").is_empty());
}

#[test]
fn ticking_and_unticking() {
    let mut sel = vec![s("a"), s("b"), s("a")];
    toggle_hazard(&mut sel, "c", true);
    assert_eq!(sel, vec![s("a"), s("b"), s("a"), s("c")]);
    toggle_hazard(&mut sel, "c", true);
    assert_eq!(sel.len(), 4);
    toggle_hazard(&mut sel, "a", false);
    assert_eq!(sel, vec![s("b"), s("c")]);
    toggle_hazard(&mut sel, "c", false);
    toggle_hazard(&mut sel, "c", false);
    assert_eq!(sel, vec![s("b")]);
}

#[test]
fn inventory_fit() {
    let ships = vec![ship("Fighter", vec![(0, 0), (0, 1)], 5), ship("Cruiser", vec![(0, 2)], 0)];
    assert!(fleet_fits(&ships, &vec![(s("Fighter"), 2)]));
    assert!(!fleet_fits(&ships, &vec![(s("Fighter"), 1)]));
    assert!(!fleet_fits(&vec![ship("Cruiser", vec![(0, 2)], 1)], &vec![]));
    assert!(fleet_fits(&vec![], &vec![]));
}

#[test]
fn status_lines() {
    assert_eq!(filter_status(0, 1, true, "g1"), "0 of 1 suggestion match your ship inventory.");
    assert_eq!(filter_status(0, 3, true, "g1"), "0 of 3 suggestions match your ship inventory.");
    assert_eq!(filter_status(1, 4, true, "g1_b2"), "1 suggestion (of 4) for g1_b2.");
    assert_eq!(filter_status(4, 4, true, "g1_b2"), "4 suggestions for g1_b2.");
    assert_eq!(filter_status(2, 4, false, "g1_b2"), "2 suggestions for g1_b2.");
}

#[test]
fn keys() {
    assert_eq!(key_action("Enter", true, false, 0, 0), KeyAction::Run);
    assert_eq!(key_action("Enter", true, true, 0, 3), KeyAction::Ignore);
    assert_eq!(key_action("Enter", false, false, 0, 3), KeyAction::Ignore);
    assert_eq!(key_action("ArrowLeft", false, false, 0, 3), KeyAction::Ignore);
    assert_eq!(key_action("ArrowLeft", false, false, 2, 3), KeyAction::Show(1));
    assert_eq!(key_action("ArrowRight", false, false, 1, 3), KeyAction::Show(2));
    assert_eq!(key_action("ArrowRight", false, false, 2, 3), KeyAction::Ignore);
    assert_eq!(key_action("ArrowRight", false, false, 0, 0), KeyAction::Ignore);
    assert_eq!(clamp_index(7, 3), 2);
    assert_eq!(clamp_index(1, 3), 1);
}

#[test]
fn grouped_numbers() {
    assert_eq!(format_grouped("1234567", Some("50"), false), "1,234,567.50");
    assert_eq!(format_grouped("123", None, true), "-123");
    assert_eq!(format_grouped("1000", None, false), "1,000");
    assert_eq!(format_grouped("", Some("5"), false), ".5");
}

#[test]
fn consistent_tables() {
    let mut d = sample_db();
    assert!(tables_consistent(&d));
    d.rows_by_galaxy.push(("9".to_string(), vec![0, 99]));
    assert!(!tables_consistent(&d));
}
