use fleet_suggest::sprites::{apply_skin_to_path, ship_svg, ship_svg_data_url};

#[test]
fn skin_goes_before_the_file_name() {
    assert_eq!(apply_skin_to_path("ships/fighter.png", "blue"), "ships/blue/fighter.png");
    assert_eq!(apply_skin_to_path("a/b/c.png", "speed_racer"), "a/b/racer/c.png");
    assert_eq!(apply_skin_to_path("fighter.png", "golden"), "golden/fighter.png");
}

#[test]
fn skin_without_folder_keeps_path() {
    assert_eq!(apply_skin_to_path("ships/fighter.png", "default"), "ships/fighter.png");
    assert_eq!(apply_skin_to_path("ships/fighter.png", "nope"), "ships/fighter.png");
    assert_eq!(apply_skin_to_path("", "blue"), "");
    assert_eq!(apply_skin_to_path("dir/", "blue"), "dir/blue/");
}

#[test]
fn fighter_drawing() {
    assert_eq!(
        ship_svg("Fighter"),
        "<svg viewBox=\"0 0 100 100\" xmlns=\"http://www.w3.org/2000/svg\" aria-label=\"Fighter\">\
<polygon points=\"50,15 65,70 50,60 35,70\" fill=\"#ffd23f\" stroke=\"#000\" stroke-width=\"2\"/></svg>"
    );
}

#[test]
fn frigate_drawing_has_two_shapes() {
    assert_eq!(
        ship_svg("Frigate"),
        "<svg viewBox=\"0 0 100 100\" xmlns=\"http://www.w3.org/2000/svg\" aria-label=\"Frigate\">\
<polygon points=\"50,8 72,50 62,80 38,80 28,50\" fill=\"#6bcB77\" stroke=\"#000\" stroke-width=\"2\"/>\
<rect x=\"42\" y=\"55\" width=\"16\" height=\"25\" fill=\"#000\" opacity=\"0.3\"/></svg>"
    );
}

#[test]
fn unknown_ship_drawing() {
    assert_eq!(
        ship_svg("Blob"),
        "<svg viewBox=\"0 0 100 100\" xmlns=\"http://www.w3.org/2000/svg\" aria-label=\"Blob\">\
<rect x=\"20\" y=\"20\" width=\"60\" height=\"60\" fill=\"#888\" stroke=\"#000\" stroke-width=\"2\"/></svg>"
    );
}

#[test]
fn data_url_escapes_markup() {
    let u = ship_svg_data_url("Fighter");
    assert_eq!(
        u,
        "data:image/svg+xml;utf8,%3Csvg viewBox=%220 0 100 100%22 xmlns=%22http://www.w3.org/2000/svg%22 aria-label=%22Fighter%22%3E\
%3Cpolygon points=%2250,15 65,70 50,60 35,70%22 fill=%22%23ffd23f%22 stroke=%22%23000%22 stroke-width=%222%22/%3E%3C/svg%3E"
    );
    let tail = &u["data:image/svg+xml;utf8,".len()..];
    assert!(!tail.contains('<') && !tail.contains('>') && !tail.contains('"') && !tail.contains('#'));
}

#[test]
fn data_url_replaces_tabs_and_line_breaks() {
    let u = ship_svg_data_url("A\tB\nC");
    assert!(u.contains("aria-label=%22A B C%22"));
}
