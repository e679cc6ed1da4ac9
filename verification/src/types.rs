//! The data the library works on: ship kinds, skins, fleet ships, fleet events with their
//! hazards, and the tables read from the game database.
use vstd::prelude::*;
use crate::text::{chars_of, chars_eq, copy_strings, views};

verus! {

/// A ship kind shown in the interface: its game name, colour and abbreviation.
#[derive(Clone, Copy, Debug, PartialEq, Eq)]
pub struct ShipKind {
    pub name: &'static str,
    pub color: &'static str,
    pub abbr: &'static str,
}

/// The known ship kinds, in display order.
pub open spec fn ship_table() -> Seq<ShipKind> {
    seq![
        ShipKind { name: "Fighter", color: "#ffd23f", abbr: "Ft" },
        ShipKind { name: "Corvette", color: "#4ecdc4", abbr: "Co" },
        ShipKind { name: "Frigate", color: "#6bcB77", abbr: "Fr" },
        ShipKind { name: "Cruiser", color: "#ff9f45", abbr: "Cr" },
        ShipKind { name: "HeavyCruiser", color: "#ef476f", abbr: "HC" },
        ShipKind { name: "Destroyer", color: "#b388ff", abbr: "Ds" },
        ShipKind { name: "PlayerCommandShip", color: "#ffffff", abbr: "CS" },
    ]
}

/// The kind shown for a ship type that is not in the table.
pub open spec fn unknown_ship_kind() -> ShipKind {
    ShipKind { name: "?", color: "#888", abbr: "?" }
}

/// The first entry of `table` from index `i` on whose name is `name`, or the unknown kind.
pub open spec fn ship_kind_from(table: Seq<ShipKind>, i: int, name: Seq<char>) -> ShipKind
    decreases table.len() - i,
{
    if i < 0 || i >= table.len() {
        unknown_ship_kind()
    } else if table[i].name@ == name {
        table[i]
    } else {
        ship_kind_from(table, i + 1, name)
    }
}

/// The ship kind for a ship type name.
pub open spec fn ship_kind_of(name: Seq<char>) -> ShipKind {
    ship_kind_from(ship_table(), 0, name)
}

/// The known ship kinds, in display order.
pub fn ship_types() -> (r: Vec<ShipKind>)
    ensures
        r@ == ship_table(),
{
    let r = vec![
        ShipKind { name: "Fighter", color: "#ffd23f", abbr: "Ft" },
        ShipKind { name: "Corvette", color: "#4ecdc4", abbr: "Co" },
        ShipKind { name: "Frigate", color: "#6bcB77", abbr: "Fr" },
        ShipKind { name: "Cruiser", color: "#ff9f45", abbr: "Cr" },
        ShipKind { name: "HeavyCruiser", color: "#ef476f", abbr: "HC" },
        ShipKind { name: "Destroyer", color: "#b388ff", abbr: "Ds" },
        ShipKind { name: "PlayerCommandShip", color: "#ffffff", abbr: "CS" },
    ];
    assert(r@ =~= ship_table());
    r
}

/// The ship kind for a ship type name: the first table entry with that name, or `?`.
pub fn ship_kind(name: &str) -> (r: ShipKind)
    ensures
        r == ship_kind_of(name@),
{
    let table = ship_types();
    let nv = chars_of(name);
    let mut i: usize = 0;
    while i < table.len()
        invariant
            i <= table.len(),
            table@ == ship_table(),
            nv@ == name@,
            ship_kind_from(table@, 0, name@) == ship_kind_from(table@, i as int, name@),
        decreases table.len() - i,
    {
        let k = table[i];
        let kv = chars_of(k.name);
        if chars_eq(&kv, &nv) {
            return k;
        }
        i = i + 1;
    }
    ShipKind { name: "?", color: "#888", abbr: "?" }
}

/// A ship skin: its key, the name shown, the asset folder, and whether it is offered.
#[derive(Clone, Copy, Debug, PartialEq, Eq)]
pub struct Skin {
    pub key: &'static str,
    pub display_name: &'static str,
    pub folder: &'static str,
    pub show: bool,
}

/// The known skins, in display order.
pub open spec fn skin_table() -> Seq<Skin> {
    seq![
        Skin { key: "default", display_name: "Default", folder: "", show: true },
        Skin { key: "blue", display_name: "Blue", folder: "blue", show: true },
        Skin { key: "green", display_name: "Green", folder: "green", show: true },
        Skin { key: "steampunk", display_name: "Steampunk", folder: "steampunk", show: true },
        Skin { key: "speed_racer", display_name: "Speedster", folder: "racer", show: true },
        Skin { key: "spacemas", display_name: "Spacemas", folder: "spacemas", show: true },
        Skin { key: "spaceversary", display_name: "Spaceversary", folder: "anniversary", show: true },
        Skin { key: "retrofuture", display_name: "Retro Future", folder: "retrofuture", show: true },
        Skin { key: "advanced", display_name: "Advanced", folder: "advanced", show: true },
        Skin { key: "golden", display_name: "Golden", folder: "golden", show: true },
        Skin { key: "alien", display_name: "Alien", folder: "alien", show: false },
        Skin { key: "haunted", display_name: "Haunted", folder: "haunted", show: true },
    ]
}

/// The known skins, in display order.
pub fn skins() -> (r: Vec<Skin>)
    ensures
        r@ == skin_table(),
{
    let r = vec![
        Skin { key: "default", display_name: "Default", folder: "", show: true },
        Skin { key: "blue", display_name: "Blue", folder: "blue", show: true },
        Skin { key: "green", display_name: "Green", folder: "green", show: true },
        Skin { key: "steampunk", display_name: "Steampunk", folder: "steampunk", show: true },
        Skin { key: "speed_racer", display_name: "Speedster", folder: "racer", show: true },
        Skin { key: "spacemas", display_name: "Spacemas", folder: "spacemas", show: true },
        Skin { key: "spaceversary", display_name: "Spaceversary", folder: "anniversary", show: true },
        Skin { key: "retrofuture", display_name: "Retro Future", folder: "retrofuture", show: true },
        Skin { key: "advanced", display_name: "Advanced", folder: "advanced", show: true },
        Skin { key: "golden", display_name: "Golden", folder: "golden", show: true },
        Skin { key: "alien", display_name: "Alien", folder: "alien", show: false },
        Skin { key: "haunted", display_name: "Haunted", folder: "haunted", show: true },
    ];
    assert(r@ =~= skin_table());
    r
}

/// The folder of the first skin from index `i` on whose key is `key`, or the empty folder.
pub open spec fn skin_folder_from(table: Seq<Skin>, i: int, key: Seq<char>) -> Seq<char>
    decreases table.len() - i,
{
    if i < 0 || i >= table.len() {
        Seq::empty()
    } else if table[i].key@ == key {
        table[i].folder@
    } else {
        skin_folder_from(table, i + 1, key)
    }
}

/// The asset folder of a skin key; empty for the default skin and for unknown keys.
pub open spec fn skin_folder_of(key: Seq<char>) -> Seq<char> {
    skin_folder_from(skin_table(), 0, key)
}

/// The asset folder of a skin key; empty for the default skin and for unknown keys.
pub fn skin_folder(key: &str) -> (r: &'static str)
    ensures
        r@ == skin_folder_of(key@),
{
    let table = skins();
    let kv = chars_of(key);
    let mut i: usize = 0;
    while i < table.len()
        invariant
            i <= table.len(),
            table@ == skin_table(),
            kv@ == key@,
            skin_folder_from(table@, 0, key@) == skin_folder_from(table@, i as int, key@),
        decreases table.len() - i,
    {
        let s = table[i];
        let sv = chars_of(s.key);
        if chars_eq(&sv, &kv) {
            return s.folder;
        }
        i = i + 1;
    }
    proof {
        reveal_strlit("");
    }
    ""
}

/// The fleet events whose grid has three columns instead of two.
pub open spec fn wide_grid_events() -> Seq<Seq<char>> {
    seq!["g6_b46"@, "g7_b7"@, "g8_b17"@, "g9_b18"@, "g9_b19"@, "g10_b21"@, "g10_b22"@]
}

/// The fleet events with the three-column grid are exactly g6_b46, g7_b7, g8_b17, g9_b18,
/// g9_b19, g10_b21 and g10_b22.
pub proof fn law_wide_grid_events(id: Seq<char>)
    ensures
        wide_grid_events().contains(id) <==> (id == "g6_b46"@ || id == "g7_b7"@ || id == "g8_b17"@ || id
            == "g9_b18"@ || id == "g9_b19"@ || id == "g10_b21"@ || id == "g10_b22"@),
{
    let w = wide_grid_events();
    if id == "g6_b46"@ {
        assert(w[0] == id);
    } else if id == "g7_b7"@ {
        assert(w[1] == id);
    } else if id == "g8_b17"@ {
        assert(w[2] == id);
    } else if id == "g9_b18"@ {
        assert(w[3] == id);
    } else if id == "g9_b19"@ {
        assert(w[4] == id);
    } else if id == "g10_b21"@ {
        assert(w[5] == id);
    } else if id == "g10_b22"@ {
        assert(w[6] == id);
    }
}

/// Whether a fleet event uses the three-column grid.
pub fn is_wide_grid(event_id: &str) -> (r: bool)
    ensures
        r == wide_grid_events().contains(event_id@),
{
    let ids: [&'static str; 7] = ["g6_b46", "g7_b7", "g8_b17", "g9_b18", "g9_b19", "g10_b21", "g10_b22"];
    let ev = chars_of(event_id);
    assert(ids@.map_values(|s: &'static str| s@) =~= wide_grid_events());
    let mut i: usize = 0;
    while i < 7
        invariant
            i <= 7,
            ev@ == event_id@,
            ids@.map_values(|s: &'static str| s@) == wide_grid_events(),
            forall|j: int| 0 <= j < i ==> wide_grid_events()[j] != event_id@,
        decreases 7 - i,
    {
        let iv = chars_of(ids[i]);
        assert(iv@ == wide_grid_events()[i as int]);
        if chars_eq(&iv, &ev) {
            assert(wide_grid_events()[i as int] == event_id@);
            return true;
        }
        i = i + 1;
    }
    false
}

/// One ship type of a fleet: its mods, its grid positions `(column, row)` and how many.
#[derive(Clone, Debug, PartialEq)]
pub struct FleetShip {
    pub ship_type: String,
    pub mods: Vec<String>,
    pub positions: Vec<(i32, i32)>,
    pub count: i32,
}

/// A fleet ship by its plain values.
pub struct FleetShipView {
    pub ship_type: Seq<char>,
    pub mods: Seq<Seq<char>>,
    pub positions: Seq<(i32, i32)>,
    pub count: i32,
}

impl View for FleetShip {
    type V = FleetShipView;

    open spec fn view(&self) -> FleetShipView {
        FleetShipView {
            ship_type: self.ship_type@,
            mods: views(self.mods@),
            positions: self.positions@,
            count: self.count,
        }
    }
}

/// A hazard that a fleet event places on other nodes.
#[derive(Clone, Debug, PartialEq)]
pub struct HazardEntry {
    pub hazard_type: String,
    pub repeat: bool,
    pub nodes_effected: Vec<String>,
}

/// A hazard entry by its plain values.
pub struct HazardEntryView {
    pub hazard_type: Seq<char>,
    pub repeat: bool,
    pub nodes_effected: Seq<Seq<char>>,
}

impl View for HazardEntry {
    type V = HazardEntryView;

    open spec fn view(&self) -> HazardEntryView {
        HazardEntryView {
            hazard_type: self.hazard_type@,
            repeat: self.repeat,
            nodes_effected: views(self.nodes_effected@),
        }
    }
}

/// The views of a list of hazard entries.
pub open spec fn hazard_views(v: Seq<HazardEntry>) -> Seq<HazardEntryView> {
    v.map_values(|h: HazardEntry| h@)
}

/// A fleet event (a map node): its id, its name and the hazards it places.
#[derive(Clone, Debug, PartialEq)]
pub struct FleetEvent {
    pub id: String,
    pub name: String,
    pub hazards: Vec<HazardEntry>,
}

/// A fleet event by its plain values.
pub struct FleetEventView {
    pub id: Seq<char>,
    pub name: Seq<char>,
    pub hazards: Seq<HazardEntryView>,
}

impl View for FleetEvent {
    type V = FleetEventView;

    open spec fn view(&self) -> FleetEventView {
        FleetEventView { id: self.id@, name: self.name@, hazards: hazard_views(self.hazards@) }
    }
}

/// The views of a list of fleet events.
pub open spec fn event_views(v: Seq<FleetEvent>) -> Seq<FleetEventView> {
    v.map_values(|e: FleetEvent| e@)
}

/// A hazard that reaches a node, with the event it comes from.
#[derive(Clone, Debug, PartialEq)]
pub struct HazardSource {
    pub source_id: String,
    pub source_name: String,
    pub hazard_type: String,
    pub repeat: bool,
    pub is_self: bool,
}

/// A hazard source by its plain values.
pub struct HazardSourceView {
    pub source_id: Seq<char>,
    pub source_name: Seq<char>,
    pub hazard_type: Seq<char>,
    pub repeat: bool,
    pub is_self: bool,
}

impl View for HazardSource {
    type V = HazardSourceView;

    open spec fn view(&self) -> HazardSourceView {
        HazardSourceView {
            source_id: self.source_id@,
            source_name: self.source_name@,
            hazard_type: self.hazard_type@,
            repeat: self.repeat,
            is_self: self.is_self,
        }
    }
}

/// The tables read from the game database. Each keyed table is a list of `(key, value)`
/// pairs in which no key occurs twice, in the order the keys were first met.
#[derive(Clone, Debug, Default)]
pub struct DbData {
    pub rows: Vec<FleetEvent>,
    pub ship_sprites: Vec<(String, String)>,
    pub mod_icons: Vec<(String, String)>,
    pub rows_by_galaxy: Vec<(String, Vec<usize>)>,
    pub hazards_by_target: Vec<(String, Vec<HazardSource>)>,
}

impl HazardEntry {
    /// A copy of this entry.
    pub fn copy(&self) -> (r: HazardEntry)
        ensures
            r@ == self@,
    {
        HazardEntry {
            hazard_type: self.hazard_type.clone(),
            repeat: self.repeat,
            nodes_effected: copy_strings(&self.nodes_effected),
        }
    }
}

impl HazardSource {
    /// A copy of this source.
    pub fn copy(&self) -> (r: HazardSource)
        ensures
            r@ == self@,
    {
        HazardSource {
            source_id: self.source_id.clone(),
            source_name: self.source_name.clone(),
            hazard_type: self.hazard_type.clone(),
            repeat: self.repeat,
            is_self: self.is_self,
        }
    }
}

/// A keyed table of strings by its plain values.
pub open spec fn string_pairs(v: Seq<(String, String)>) -> Seq<(Seq<char>, Seq<char>)> {
    v.map_values(|p: (String, String)| (p.0@, p.1@))
}

/// A keyed table of lists by its plain values.
pub open spec fn group_view<V: View>(v: Seq<(String, Vec<V>)>) -> Seq<(Seq<char>, Seq<V::V>)> {
    v.map_values(|p: (String, Vec<V>)| (p.0@, p.1@.map_values(|x: V| x@)))
}

/// The game tables by their plain values.
pub struct DbDataView {
    pub rows: Seq<FleetEventView>,
    pub ship_sprites: Seq<(Seq<char>, Seq<char>)>,
    pub mod_icons: Seq<(Seq<char>, Seq<char>)>,
    pub rows_by_galaxy: Seq<(Seq<char>, Seq<usize>)>,
    pub hazards_by_target: Seq<(Seq<char>, Seq<HazardSourceView>)>,
}

/// Every index kept under a galaxy points at an event row.
pub open spec fn indices_valid(data: DbDataView) -> bool {
    forall|g: int, k: int|
        0 <= g < data.rows_by_galaxy.len() && 0 <= k < data.rows_by_galaxy[g].1.len()
            ==> #[trigger] data.rows_by_galaxy[g].1[k] < data.rows.len()
}

impl View for DbData {
    type V = DbDataView;

    open spec fn view(&self) -> DbDataView {
        DbDataView {
            rows: event_views(self.rows@),
            ship_sprites: string_pairs(self.ship_sprites@),
            mod_icons: string_pairs(self.mod_icons@),
            rows_by_galaxy: group_view(self.rows_by_galaxy@),
            hazards_by_target: group_view(self.hazards_by_target@),
        }
    }
}

} // verus!
