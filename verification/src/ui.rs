//! What the interface shows, computed from plain values: ship and mod pictures as HTML, the
//! cells of the fleet grid, the text of a ship row, the hazards of a node, the node names of a
//! galaxy, which fleets the inventory can build, status lines, key handling and number grouping.
use vstd::prelude::*;
use crate::text::{
    chars_of, chars_eq, concat, decimal, join, push_chars, push_decimal, push_signed_decimal,
    push_str, seen_contains, signed_decimal, str_eq, string_of, trim, trim_str, views, vviews,
};
use crate::keyed::{
    find_key_str, key_pos, keys_of, law_group_all_lists, lemma_key_pos, lemma_values_under_has, lookup, values_under,
};
use crate::db::{Value, db_of, lemma_target_pairs_has, source_for, target_pairs};
use crate::sprites::{apply_skin_to_path, ship_svg, ship_svg_data_url, ship_svg_of, ship_svg_url_of, skinned_path};
use crate::types::{
    DbData, DbDataView, FleetShip, FleetShipView, HazardSource, HazardSourceView, event_views,
    group_view, indices_valid, is_wide_grid, skin_folder_of, string_pairs, wide_grid_events,
};
use crate::parser::{find_fleet_event_id, first_event_from, galaxy_prefix, upper_case};

verus! {

broadcast use vstd::seq_lib::group_seq_properties;

// ---------------------------------------------------------------------------
// HTML escaping
// ---------------------------------------------------------------------------

/// How one character is written in HTML text or an attribute.
pub open spec fn html_char(ch: char) -> Seq<char> {
    if ch == '&' {
        "&amp;"@
    } else if ch == '<' {
        "&lt;"@
    } else if ch == '>' {
        "&gt;"@
    } else if ch == '"' {
        "&quot;"@
    } else if ch == '\'' {
        "&#39;"@
    } else {
        seq![ch]
    }
}

/// A text escaped for HTML, character by character.
pub open spec fn html_escaped(s: Seq<char>) -> Seq<char>
    decreases s.len(),
{
    if s.len() == 0 {
        Seq::empty()
    } else {
        html_escaped(s.drop_last()) + html_char(s.last())
    }
}

/// Escapes `&`, `<`, `>`, `"` and `'` for HTML.
pub fn html_escape(s: &str) -> (r: String)
    ensures
        r@ == html_escaped(s@),
{
    let v = chars_of(s);
    let mut out = String::new();
    let mut i: usize = 0;
    while i < v.len()
        invariant
            i <= v.len(),
            out@ == html_escaped(v@.take(i as int)),
        decreases v.len() - i,
    {
        let ch = v[i];
        assert(v@.take(i + 1).drop_last() =~= v@.take(i as int));
        assert(v@.take(i + 1).last() == ch);
        if ch == '&' {
            push_str(&mut out, "&amp;");
        } else if ch == '<' {
            push_str(&mut out, "&lt;");
        } else if ch == '>' {
            push_str(&mut out, "&gt;");
        } else if ch == '"' {
            push_str(&mut out, "&quot;");
        } else if ch == '\'' {
            push_str(&mut out, "&#39;");
        } else {
            out.push(ch);
        }
        assert(out@ =~= html_escaped(v@.take(i + 1)));
        i = i + 1;
    }
    assert(v@.take(v.len() as int) =~= v@);
    out
}

/// `s` with every `'` written as `%27`.
pub open spec fn quote_escaped(s: Seq<char>) -> Seq<char>
    decreases s.len(),
{
    if s.len() == 0 {
        Seq::empty()
    } else {
        quote_escaped(s.drop_last()) + if s.last() == '\'' { "%27"@ } else { seq![s.last()] }
    }
}

fn escape_quotes(s: &str) -> (r: String)
    ensures
        r@ == quote_escaped(s@),
{
    let v = chars_of(s);
    let mut out = String::new();
    let mut i: usize = 0;
    while i < v.len()
        invariant
            i <= v.len(),
            out@ == quote_escaped(v@.take(i as int)),
        decreases v.len() - i,
    {
        let ch = v[i];
        assert(v@.take(i + 1).drop_last() =~= v@.take(i as int));
        assert(v@.take(i + 1).last() == ch);
        if ch == '\'' {
            push_str(&mut out, "%27");
        } else {
            out.push(ch);
        }
        assert(out@ =~= quote_escaped(v@.take(i + 1)));
        i = i + 1;
    }
    assert(v@.take(v.len() as int) =~= v@);
    out
}

// ---------------------------------------------------------------------------
// Ship and mod pictures
// ---------------------------------------------------------------------------

/// The picture of a ship type: the built-in drawing when the database has no sprite for it,
/// otherwise an `<img>` of the skinned sprite that falls back to the drawing.
pub open spec fn ship_visual_of(ty: Seq<char>, skin: Seq<char>, sprites: Seq<(Seq<char>, Seq<char>)>) -> Seq<char> {
    match lookup(sprites, ty) {
        None => ship_svg_of(ty),
        Some(b) => "<img class=\"ship-img\" alt=\""@ + ty + "\" src=\""@
            + skinned_path(b, skin_folder_of(skin))
            + "\" onerror=\"this.onerror=null;this.src='"@ + quote_escaped(ship_svg_url_of(ty))
            + "'\">"@,
    }
}

/// The picture of a ship type as HTML.
pub fn ship_visual_html(ty: &str, skin: &str, sprites: &Vec<(String, String)>) -> (r: String)
    ensures
        r@ == ship_visual_of(ty@, skin@, string_pairs(sprites@)),
{
    let ghost sp = string_pairs(sprites@);
    assert(keys_of(sp) =~= sprites@.map_values(|p: (String, String)| p.0@));
    match find_key_str(sprites, ty) {
        None => ship_svg(ty),
        Some(i) => {
            let b = &sprites[i].1;
            let path = apply_skin_to_path(b.as_str(), skin);
            let fb = ship_svg_data_url(ty);
            let fb_safe = escape_quotes(fb.as_str());
            let mut r = String::new();
            push_str(&mut r, "<img class=\"ship-img\" alt=\"");
            push_str(&mut r, ty);
            push_str(&mut r, "\" src=\"");
            push_str(&mut r, path.as_str());
            push_str(&mut r, "\" onerror=\"this.onerror=null;this.src='");
            push_str(&mut r, fb_safe.as_str());
            push_str(&mut r, "'\">");
            assert(lookup(sp, ty@) == Some(b@));
            assert(r@ =~= ship_visual_of(ty@, skin@, sp));
            r
        },
    }
}

/// The icon of a mod as HTML; empty when the database has no icon for it.
pub open spec fn mod_visual_of(id: Seq<char>, icons: Seq<(Seq<char>, Seq<char>)>) -> Seq<char> {
    match lookup(icons, id) {
        None => Seq::empty(),
        Some(p) => "<img class=\"mod-img\" alt=\""@ + html_escaped(id) + "\" title=\""@
            + html_escaped(id) + "\" src=\""@ + html_escaped(p)
            + "\" onerror=\"this.style.display='none'\">"@,
    }
}

/// The icon of a mod as HTML; empty when the database has no icon for it.
pub fn mod_visual_html(mod_id: &str, mod_icons: &Vec<(String, String)>) -> (r: String)
    ensures
        r@ == mod_visual_of(mod_id@, string_pairs(mod_icons@)),
{
    let ghost ic = string_pairs(mod_icons@);
    assert(keys_of(ic) =~= mod_icons@.map_values(|p: (String, String)| p.0@));
    match find_key_str(mod_icons, mod_id) {
        None => String::new(),
        Some(i) => {
            let path = &mod_icons[i].1;
            let safe_id = html_escape(mod_id);
            let safe_path = html_escape(path.as_str());
            let mut r = String::new();
            push_str(&mut r, "<img class=\"mod-img\" alt=\"");
            push_str(&mut r, safe_id.as_str());
            push_str(&mut r, "\" title=\"");
            push_str(&mut r, safe_id.as_str());
            push_str(&mut r, "\" src=\"");
            push_str(&mut r, safe_path.as_str());
            push_str(&mut r, "\" onerror=\"this.style.display='none'\">");
            assert(lookup(ic, mod_id@) == Some(path@));
            assert(r@ =~= mod_visual_of(mod_id@, ic));
            r
        },
    }
}

/// The icons of a ship's mods, one after another; mods without an icon add nothing.
pub open spec fn mod_icons_of(mods: Seq<Seq<char>>, icons: Seq<(Seq<char>, Seq<char>)>) -> Seq<char>
    decreases mods.len(),
{
    if mods.len() == 0 {
        Seq::empty()
    } else {
        mod_icons_of(mods.drop_last(), icons) + mod_visual_of(mods.last(), icons)
    }
}

/// The icons of a ship's mods as HTML, one after another.
pub fn mod_icons_html(mods: &Vec<String>, mod_icons: &Vec<(String, String)>) -> (r: String)
    ensures
        r@ == mod_icons_of(views(mods@), string_pairs(mod_icons@)),
{
    let mut r = String::new();
    let mut i: usize = 0;
    while i < mods.len()
        invariant
            i <= mods.len(),
            r@ == mod_icons_of(views(mods@).take(i as int), string_pairs(mod_icons@)),
        decreases mods.len() - i,
    {
        assert(views(mods@).take(i + 1).drop_last() =~= views(mods@).take(i as int));
        assert(views(mods@).take(i + 1).last() == mods@[i as int]@);
        let h = mod_visual_html(mods[i].as_str(), mod_icons);
        push_str(&mut r, h.as_str());
        i = i + 1;
    }
    assert(views(mods@).take(mods.len() as int) =~= views(mods@));
    r
}

// ---------------------------------------------------------------------------
// The fleet grid
// ---------------------------------------------------------------------------

/// The number of grid columns for an event: three on the wide-grid events, else two.
pub fn grid_columns(event_id: &str) -> (r: usize)
    ensures
        r == if wide_grid_events().contains(event_id@) { 3usize } else { 2usize },
{
    if is_wide_grid(event_id) { 3 } else { 2 }
}

/// The CSS column template of a grid with `cols` ship columns.
pub fn grid_template(cols: usize) -> (r: String)
    ensures
        r@ == "1.5rem repeat("@ + decimal(cols as nat) + ", 60px)"@,
{
    let mut r = String::new();
    push_str(&mut r, "1.5rem repeat(");
    push_decimal(&mut r, cols as u64);
    push_str(&mut r, ", 60px)");
    r
}

/// How many times `cell` occurs among `positions`.
pub open spec fn count_in(positions: Seq<(i32, i32)>, cell: (i32, i32)) -> int
    decreases positions.len(),
{
    if positions.len() == 0 {
        0
    } else {
        count_in(positions.drop_last(), cell) + if positions.last() == cell { 1int } else { 0int }
    }
}

/// How many ship positions fall on `cell`, over all ships.
pub open spec fn cell_count(ships: Seq<FleetShipView>, cell: (i32, i32)) -> int
    decreases ships.len(),
{
    if ships.len() == 0 {
        0
    } else {
        cell_count(ships.drop_last(), cell) + count_in(ships.last().positions, cell)
    }
}

/// The type of the last ship (in fleet order) with a position on `cell`.
pub open spec fn cell_ship(ships: Seq<FleetShipView>, cell: (i32, i32)) -> Option<Seq<char>>
    decreases ships.len(),
{
    if ships.len() == 0 {
        None
    } else if ships.last().positions.contains(cell) {
        Some(ships.last().ship_type)
    } else {
        cell_ship(ships.drop_last(), cell)
    }
}

/// The views of a list of fleet ships.
pub open spec fn ship_views(v: Seq<FleetShip>) -> Seq<FleetShipView> {
    v.map_values(|s: FleetShip| s@)
}

proof fn lemma_count_in_nonneg(positions: Seq<(i32, i32)>, cell: (i32, i32))
    ensures
        count_in(positions, cell) >= 0,
        count_in(positions, cell) > 0 <==> positions.contains(cell),
    decreases positions.len(),
{
    if positions.len() > 0 {
        lemma_count_in_nonneg(positions.drop_last(), cell);
        if positions.drop_last().contains(cell) {
            let k = choose|k: int| 0 <= k < positions.drop_last().len() && positions.drop_last()[k] == cell;
            assert(positions[k] == cell);
        }
        if positions.contains(cell) && positions.last() != cell {
            let k = choose|k: int| 0 <= k < positions.len() && positions[k] == cell;
            assert(positions.drop_last()[k] == cell);
        }
    }
}

proof fn lemma_cell_count_nonneg(ships: Seq<FleetShipView>, cell: (i32, i32))
    ensures
        cell_count(ships, cell) >= 0,
        cell_count(ships, cell) > 0 <==> cell_ship(ships, cell) is Some,
    decreases ships.len(),
{
    if ships.len() > 0 {
        lemma_cell_count_nonneg(ships.drop_last(), cell);
        lemma_count_in_nonneg(ships.last().positions, cell);
    }
}

proof fn lemma_cell_count_prefix(ships: Seq<FleetShipView>, k: int, cell: (i32, i32))
    requires
        0 <= k <= ships.len(),
    ensures
        cell_count(ships.take(k), cell) <= cell_count(ships, cell),
    decreases ships.len() - k,
{
    if k < ships.len() {
        lemma_cell_count_prefix(ships.drop_last(), k, cell);
        assert(ships.drop_last().take(k) == ships.take(k));
        lemma_count_in_nonneg(ships.last().positions, cell);
    } else {
        assert(ships.take(k) == ships);
    }
}

proof fn lemma_count_in_prefix(positions: Seq<(i32, i32)>, k: int, cell: (i32, i32))
    requires
        0 <= k <= positions.len(),
    ensures
        count_in(positions.take(k), cell) <= count_in(positions, cell),
    decreases positions.len() - k,
{
    if k < positions.len() {
        lemma_count_in_prefix(positions.drop_last(), k, cell);
        assert(positions.drop_last().take(k) == positions.take(k));
    } else {
        assert(positions.take(k) == positions);
    }
}

/// What grid cell `(col, row)` shows: the type of the last ship placed there and how many
/// ship positions fall on it; `None` for an empty cell.
pub fn grid_cell(ships: &Vec<FleetShip>, col: i32, row: i32) -> (r: Option<(String, i32)>)
    requires
        cell_count(ship_views(ships@), (col, row)) <= i32::MAX,
    ensures
        match r {
            Some((ty, n)) => cell_ship(ship_views(ships@), (col, row)) == Some(ty@)
                && n == cell_count(ship_views(ships@), (col, row)),
            None => cell_ship(ship_views(ships@), (col, row)) is None,
        },
{
    let ghost sv = ship_views(ships@);
    let ghost cell = (col, row);
    let mut ty: Option<String> = None;
    let mut n: i32 = 0;
    let mut i: usize = 0;
    while i < ships.len()
        invariant
            i <= ships.len(),
            sv == ship_views(ships@),
            cell == (col, row),
            cell_count(sv, cell) <= i32::MAX,
            n == cell_count(sv.take(i as int), cell),
            match ty {
                Some(t) => cell_ship(sv.take(i as int), cell) == Some(t@),
                None => cell_ship(sv.take(i as int), cell) is None,
            },
        decreases ships.len() - i,
    {
        let s = &ships[i];
        assert(sv.take(i + 1).drop_last() =~= sv.take(i as int));
        assert(sv.take(i + 1).last() == s@);
        proof {
            lemma_cell_count_prefix(sv, i + 1, cell);
            lemma_cell_count_nonneg(sv.take(i as int), cell);
        }
        let mut j: usize = 0;
        let mut here = false;
        while j < s.positions.len()
            invariant
                j <= s.positions.len(),
                cell == (col, row),
                n == cell_count(sv.take(i as int), cell) + count_in(s.positions@.take(j as int), cell),
                cell_count(sv.take(i as int), cell) + count_in(s.positions@, cell) <= i32::MAX,
                here == s.positions@.take(j as int).contains(cell),
            decreases s.positions.len() - j,
        {
            assert(s.positions@.take(j + 1).drop_last() =~= s.positions@.take(j as int));
            assert(s.positions@.take(j + 1).last() == s.positions@[j as int]);
            proof {
                lemma_count_in_prefix(s.positions@, j + 1, cell);
                lemma_count_in_nonneg(s.positions@.take(j as int), cell);
            }
            let p = s.positions[j];
            if p.0 == col && p.1 == row {
                n = n + 1;
                here = true;
                assert(s.positions@.take(j + 1)[j as int] == cell);
            } else {
                proof {
                    if s.positions@.take(j + 1).contains(cell) {
                        let k = choose|k: int| 0 <= k < j + 1 && #[trigger] s.positions@.take(j + 1)[k] == cell;
                        assert(s.positions@.take(j as int)[k] == cell);
                    }
                }
            }
            proof {
                if here && s.positions@.take(j as int).contains(cell) {
                    let k = choose|k: int| 0 <= k < j && #[trigger] s.positions@.take(j as int)[k] == cell;
                    assert(s.positions@.take(j + 1)[k] == cell);
                }
            }
            j = j + 1;
        }
        assert(s.positions@.take(j as int) =~= s.positions@);
        if here {
            ty = Some(s.ship_type.clone());
        }
        i = i + 1;
    }
    assert(sv.take(ships.len() as int) =~= sv);
    match ty {
        Some(t) => Some((t, n)),
        None => None,
    }
}

// ---------------------------------------------------------------------------
// Ship rows
// ---------------------------------------------------------------------------

/// The mods of a ship as text: `no mods`, or the mods separated by `, `.
pub open spec fn mods_text_of(mods: Seq<Seq<char>>) -> Seq<char> {
    if mods.len() == 0 { "no mods"@ } else { join(mods, ", "@) }
}

/// A position as text, with the row counted from one: `(col,row)`.
pub open spec fn position_text(p: (i32, i32)) -> Seq<char> {
    seq!['('] + signed_decimal(p.0 as int) + seq![','] + signed_decimal(p.1 + 1) + seq![')']
}

/// The positions of a ship as text, separated by spaces; `no positions` when there are none.
pub open spec fn positions_text_of(ps: Seq<(i32, i32)>) -> Seq<char> {
    if ps.len() == 0 {
        "no positions"@
    } else {
        join(ps.map_values(|p: (i32, i32)| position_text(p)), " "@)
    }
}

/// The mods of a ship as text.
pub fn mods_text(mods: &Vec<String>) -> (r: String)
    ensures
        r@ == mods_text_of(views(mods@)),
{
    if mods.len() == 0 {
        String::from_str("no mods")
    } else {
        crate::text::join_strings(mods, ", ")
    }
}

/// The positions of a ship as text.
pub fn positions_text(positions: &Vec<(i32, i32)>) -> (r: String)
    requires
        forall|i: int| 0 <= i < positions@.len() ==> positions@[i].1 < i32::MAX,
    ensures
        r@ == positions_text_of(positions@),
{
    if positions.len() == 0 {
        return String::from_str("no positions");
    }
    let ghost parts = positions@.map_values(|p: (i32, i32)| position_text(p));
    let mut r = String::new();
    let mut i: usize = 0;
    while i < positions.len()
        invariant
            i <= positions.len(),
            parts == positions@.map_values(|p: (i32, i32)| position_text(p)),
            forall|k: int| 0 <= k < positions@.len() ==> positions@[k].1 < i32::MAX,
            r@ == join(parts.take(i as int), " "@),
        decreases positions.len() - i,
    {
        assert(parts.take(i + 1).drop_last() =~= parts.take(i as int));
        let (c, row) = positions[i];
        if i > 0 {
            push_str(&mut r, " ");
        }
        let ghost before = r@;
        r.push('(');
        push_signed_decimal(&mut r, c as i64);
        r.push(',');
        push_signed_decimal(&mut r, (row + 1) as i64);
        r.push(')');
        assert(r@ =~= before + position_text((c, row)));
        assert(parts.take(i + 1).last() == position_text((c, row)));
        if i == 0 {
            assert(parts.take(1) =~= seq![position_text((c, row))]);
        }
        i = i + 1;
    }
    assert(parts.take(positions.len() as int) =~= parts);
    r
}

// ---------------------------------------------------------------------------
// Hazards of a node
// ---------------------------------------------------------------------------

/// The views of a list of hazard sources.
pub open spec fn source_views(v: Seq<HazardSource>) -> Seq<HazardSourceView> {
    v.map_values(|h: HazardSource| h@)
}

/// The hazards that reach the node a user typed: none while the trimmed name is empty or the
/// node is not found in the galaxy.
pub open spec fn node_hazards_of(data: DbDataView, galaxy: u32, node: Seq<char>) -> Seq<HazardSourceView> {
    if trim(node).len() == 0 {
        Seq::empty()
    } else {
        match first_event_from(data.rows, 0, galaxy_prefix(galaxy), upper_case(trim(node))) {
            None => Seq::empty(),
            Some(id) => match lookup(data.hazards_by_target, id) {
                Some(hs) => hs,
                None => Seq::empty(),
            },
        }
    }
}

/// The hazards shown for a node found in the tables that `parse_db` builds are the whole list
/// of sources stored under the node's id: one for each node of each hazard entry of each event
/// row that names the id, in row order; so every event whose hazard reaches the node is shown.
pub proof fn law_node_hazards_complete(
    events: Seq<Seq<Value>>,
    hazards: Seq<Seq<Value>>,
    ships: Seq<Seq<Value>>,
    mods: Seq<Seq<Value>>,
    galaxy: u32,
    node: Seq<char>,
    id: Seq<char>,
)
    requires
        trim(node).len() > 0,
        first_event_from(
            db_of(events, hazards, ships, mods).rows,
            0,
            galaxy_prefix(galaxy),
            upper_case(trim(node)),
        ) == Some(id),
    ensures
        node_hazards_of(db_of(events, hazards, ships, mods), galaxy, node) == values_under(
            target_pairs(db_of(events, hazards, ships, mods).rows),
            id,
        ),
        forall|e: int, h: int, t: int|
            #![trigger db_of(events, hazards, ships, mods).rows[e].hazards[h].nodes_effected[t]]
            0 <= e < db_of(events, hazards, ships, mods).rows.len() && 0 <= h < db_of(
                events,
                hazards,
                ships,
                mods,
            ).rows[e].hazards.len() && 0 <= t < db_of(events, hazards, ships, mods).rows[e].hazards[h].nodes_effected.len()
                && db_of(events, hazards, ships, mods).rows[e].hazards[h].nodes_effected[t] == id
                ==> node_hazards_of(db_of(events, hazards, ships, mods), galaxy, node).contains(
                source_for(
                    db_of(events, hazards, ships, mods).rows[e],
                    db_of(events, hazards, ships, mods).rows[e].hazards[h],
                    id,
                ),
            ),
{
    let d = db_of(events, hazards, ships, mods);
    let tp = target_pairs(d.rows);
    let g = d.hazards_by_target;
    law_group_all_lists(tp);
    lemma_key_pos(keys_of(g), id);
    match key_pos(keys_of(g), id) {
        Some(x) => {
            assert(keys_of(g)[x] == g[x].0);
            assert(g[x].1 == values_under(tp, id));
        },
        None => {
            if values_under(tp, id).len() > 0 {
                let x = choose|x: int| 0 <= x < g.len() && g[x].0 == id;
                assert(keys_of(g)[x] == g[x].0);
            }
            assert(values_under(tp, id) =~= Seq::<HazardSourceView>::empty());
        },
    }
    lemma_target_pairs_has(d.rows);
    lemma_values_under_has(tp, id);
    assert forall|e: int, h: int, t: int|
        #![trigger d.rows[e].hazards[h].nodes_effected[t]]
        0 <= e < d.rows.len() && 0 <= h < d.rows[e].hazards.len() && 0 <= t < d.rows[e].hazards[h].nodes_effected.len()
            && d.rows[e].hazards[h].nodes_effected[t] == id implies values_under(tp, id).contains(
        source_for(d.rows[e], d.rows[e].hazards[h], id),
    ) by {
        let p = (d.rows[e].hazards[h].nodes_effected[t], source_for(d.rows[e], d.rows[e].hazards[h], id));
        assert(tp.contains(p));
        let w = choose|w: int| 0 <= w < tp.len() && tp[w] == p;
        assert(tp[w].0 == id);
    }
}

/// The hazards that reach the node a user typed.
pub fn hazards_for_node(data: &DbData, galaxy: u32, node: &str) -> (r: Vec<HazardSource>)
    ensures
        source_views(r@) == node_hazards_of(data@, galaxy, node@),
{
    let t = trim_str(node);
    if t.len() == 0 {
        return Vec::new();
    }
    let ts = string_of(&t);
    match find_fleet_event_id(&data.rows, galaxy, ts.as_str()) {
        None => Vec::new(),
        Some(id) => {
            let ghost ht = group_view(data.hazards_by_target@);
            assert(keys_of(ht) =~= data.hazards_by_target@.map_values(
                |p: (String, Vec<HazardSource>)| p.0@,
            ));
            match find_key_str(&data.hazards_by_target, id.as_str()) {
                None => Vec::new(),
                Some(i) => {
                    let list = &data.hazards_by_target[i].1;
                    let mut r: Vec<HazardSource> = Vec::new();
                    let mut j: usize = 0;
                    while j < list.len()
                        invariant
                            j <= list.len(),
                            r@.len() == j,
                            forall|k: int| 0 <= k < j ==> r@[k]@ == list@[k]@,
                        decreases list.len() - j,
                    {
                        r.push(list[j].copy());
                        j = j + 1;
                    }
                    assert(source_views(r@) =~= list@.map_values(|x: HazardSource| x@));
                    r
                },
            }
        },
    }
}

/// The list without any occurrence of `id`.
pub open spec fn without(s: Seq<Seq<char>>, id: Seq<char>) -> Seq<Seq<char>>
    decreases s.len(),
{
    if s.len() == 0 {
        Seq::empty()
    } else if s.last() == id {
        without(s.drop_last(), id)
    } else {
        without(s.drop_last(), id).push(s.last())
    }
}

/// The selection after ticking (`on`) or unticking a hazard source: ticking adds the id at the
/// end unless it is already there; unticking removes every occurrence.
pub open spec fn toggled(selected: Seq<Seq<char>>, id: Seq<char>, on: bool) -> Seq<Seq<char>> {
    if on {
        if selected.contains(id) { selected } else { selected.push(id) }
    } else {
        without(selected, id)
    }
}

/// Whether `id` is among the strings.
fn contains_str(v: &Vec<String>, id: &str) -> (r: bool)
    ensures
        r == views(v@).contains(id@),
{
    let mut i: usize = 0;
    while i < v.len()
        invariant
            i <= v.len(),
            forall|k: int| 0 <= k < i ==> v@[k]@ != id@,
        decreases v.len() - i,
    {
        if str_eq(v[i].as_str(), id) {
            assert(views(v@)[i as int] == id@);
            return true;
        }
        i = i + 1;
    }
    proof {
        if views(v@).contains(id@) {
            let k = choose|k: int| 0 <= k < views(v@).len() && views(v@)[k] == id@;
            assert(v@[k]@ == id@);
        }
    }
    false
}

/// Ticks or unticks a hazard source in the selection.
pub fn toggle_hazard(selected: &mut Vec<String>, id: &str, on: bool)
    ensures
        views(final(selected)@) == toggled(views(old(selected)@), id@, on),
{
    let ghost before = views(selected@);
    if on {
        if !contains_str(selected, id) {
            selected.push(String::from_str(id));
            assert(views(selected@) =~= before.push(id@));
        }
    } else {
        let mut kept: Vec<String> = Vec::new();
        let mut i: usize = 0;
        while i < selected.len()
            invariant
                i <= selected.len(),
                before == views(selected@),
                views(kept@) == without(before.take(i as int), id@),
            decreases selected.len() - i,
        {
            assert(before.take(i + 1).drop_last() =~= before.take(i as int));
            assert(before.take(i + 1).last() == selected@[i as int]@);
            if !str_eq(selected[i].as_str(), id) {
                let ghost k0 = kept@;
                kept.push(selected[i].clone());
                assert(views(kept@) =~= views(k0).push(selected@[i as int]@));
            }
            i = i + 1;
        }
        assert(before.take(selected.len() as int) =~= before);
        *selected = kept;
    }
}

// ---------------------------------------------------------------------------
// Node names of a galaxy
// ---------------------------------------------------------------------------

/// The node names offered for a galaxy, from the given row indices: non-empty names, each once,
/// in row order.
pub open spec fn names_from(rows: Seq<crate::types::FleetEventView>, idxs: Seq<usize>) -> Seq<Seq<char>>
    decreases idxs.len(),
{
    if idxs.len() == 0 {
        Seq::empty()
    } else {
        let prev = names_from(rows, idxs.drop_last());
        let name = rows[idxs.last() as int].name;
        if name.len() == 0 || prev.contains(name) { prev } else { prev.push(name) }
    }
}

/// The node names offered for a galaxy.
pub open spec fn node_options_of(data: DbDataView, galaxy: u32) -> Seq<Seq<char>> {
    match lookup(data.rows_by_galaxy, decimal(galaxy as nat)) {
        Some(idxs) => names_from(data.rows, idxs),
        None => Seq::empty(),
    }
}

/// The node names offered for a galaxy: the non-empty names of its events, each once.
pub fn node_options(data: &DbData, galaxy: u32) -> (r: Vec<String>)
    requires
        indices_valid(data@),
    ensures
        views(r@) == node_options_of(data@, galaxy),
{
    let g = crate::text::decimal_string(galaxy as u64);
    let ghost gv = group_view(data.rows_by_galaxy@);
    assert(keys_of(gv) =~= data.rows_by_galaxy@.map_values(|p: (String, Vec<usize>)| p.0@));
    match find_key_str(&data.rows_by_galaxy, g.as_str()) {
        None => Vec::new(),
        Some(gi) => {
            let idxs = &data.rows_by_galaxy[gi].1;
            assert(gv[gi as int].1 =~= idxs@);
            let ghost rv = event_views(data.rows@);
            let mut out: Vec<String> = Vec::new();
            let mut seen: Vec<Vec<char>> = Vec::new();
            let mut k: usize = 0;
            while k < idxs.len()
                invariant
                    k <= idxs.len(),
                    rv == event_views(data.rows@),
                    gv == group_view(data.rows_by_galaxy@),
                    gi < gv.len(),
                    gv[gi as int].1 == idxs@,
                    indices_valid(data@),
                    views(out@) == names_from(rv, idxs@.take(k as int)),
                    vviews(seen@) == views(out@),
                decreases idxs.len() - k,
            {
                let ix = idxs[k];
                assert(gv[gi as int].1[k as int] == ix);
                assert(data@.rows_by_galaxy[gi as int].1[k as int] == ix);
                assert(ix < data@.rows.len());
                assert(ix < data.rows.len());
                let name = &data.rows[ix].name;
                assert(rv[ix as int].name == name@);
                assert(idxs@.take(k + 1).drop_last() =~= idxs@.take(k as int));
                assert(idxs@.take(k + 1).last() == ix);
                let nv = chars_of(name.as_str());
                if nv.len() > 0 && !seen_contains(&seen, &nv) {
                    let ghost o0 = out@;
                    let ghost s0 = seen@;
                    out.push(name.clone());
                    seen.push(nv);
                    assert(views(out@) =~= views(o0).push(name@));
                    assert(vviews(seen@) =~= vviews(s0).push(nv@));
                }
                k = k + 1;
            }
            assert(idxs@.take(idxs.len() as int) =~= idxs@);
            out
        },
    }
}

// ---------------------------------------------------------------------------
// Inventory filter and status lines
// ---------------------------------------------------------------------------

/// The ships of a kind a fleet needs: its count, but no more than its positions (their number
/// taken as an `i32`, as the page does).
pub open spec fn required_of(s: FleetShipView) -> int {
    let placed = s.positions.len() as i32;
    if s.count < placed { s.count as int } else { placed as int }
}

/// Whether the inventory holds enough of every ship kind of a fleet (a kind missing from the
/// inventory counts as none).
pub open spec fn fits(ships: Seq<FleetShipView>, inv: Seq<(Seq<char>, i32)>) -> bool {
    forall|i: int| 0 <= i < ships.len() ==> {
        let have: int = match lookup(inv, (#[trigger] ships[i]).ship_type) {
            Some(n) => n as int,
            None => 0,
        };
        have >= required_of(ships[i])
    }
}

/// The inventory by its plain values.
pub open spec fn inventory_view(inv: Seq<(String, i32)>) -> Seq<(Seq<char>, i32)> {
    inv.map_values(|p: (String, i32)| (p.0@, p.1))
}

/// Whether the inventory can build a fleet.
pub fn fleet_fits(ships: &Vec<FleetShip>, inv: &Vec<(String, i32)>) -> (r: bool)
    ensures
        r == fits(ship_views(ships@), inventory_view(inv@)),
{
    let ghost sv = ship_views(ships@);
    let ghost iv = inventory_view(inv@);
    assert(keys_of(iv) =~= inv@.map_values(|p: (String, i32)| p.0@));
    let mut i: usize = 0;
    while i < ships.len()
        invariant
            i <= ships.len(),
            sv == ship_views(ships@),
            iv == inventory_view(inv@),
            keys_of(iv) == inv@.map_values(|p: (String, i32)| p.0@),
            forall|k: int| 0 <= k < i ==> {
                let have: int = match lookup(iv, (#[trigger] sv[k]).ship_type) {
                    Some(n) => n as int,
                    None => 0,
                };
                have >= required_of(sv[k])
            },
        decreases ships.len() - i,
    {
        let s = &ships[i];
        assert(sv[i as int] == s@);
        let plen = s.positions.len() as i32;
        let required = if s.count < plen { s.count } else { plen };
        let have: i32 = match find_key_str(inv, s.ship_type.as_str()) {
            Some(j) => inv[j].1,
            None => 0,
        };
        if have < required {
            assert(!fits(sv, iv));
            return false;
        }
        i = i + 1;
    }
    true
}

/// A fleet fits exactly when both of its parts fit: every ship kind is checked, wherever it
/// stands in the fleet.
pub proof fn law_fits_concat(a: Seq<FleetShipView>, b: Seq<FleetShipView>, inv: Seq<(Seq<char>, i32)>)
    ensures
        fits(a + b, inv) <==> fits(a, inv) && fits(b, inv),
{
    let ab = a + b;
    if fits(ab, inv) {
        assert forall|i: int| 0 <= i < a.len() implies {
            let have: int = match lookup(inv, (#[trigger] a[i]).ship_type) {
                Some(n) => n as int,
                None => 0,
            };
            have >= required_of(a[i])
        } by {
            assert(ab[i] == a[i]);
        }
        assert forall|i: int| 0 <= i < b.len() implies {
            let have: int = match lookup(inv, (#[trigger] b[i]).ship_type) {
                Some(n) => n as int,
                None => 0,
            };
            have >= required_of(b[i])
        } by {
            assert(ab[a.len() + i] == b[i]);
        }
    }
    if fits(a, inv) && fits(b, inv) {
        assert forall|i: int| 0 <= i < ab.len() implies {
            let have: int = match lookup(inv, (#[trigger] ab[i]).ship_type) {
                Some(n) => n as int,
                None => 0,
            };
            have >= required_of(ab[i])
        } by {
            if i < a.len() {
                assert(ab[i] == a[i]);
            } else {
                assert(ab[i] == b[i - a.len()]);
            }
        }
    }
}

/// One ship kind fits exactly when the inventory's first entry for its type (none when the
/// type is missing) is at least the smaller of its count and its number of positions.
pub proof fn law_fits_single(s: FleetShipView, inv: Seq<(Seq<char>, i32)>)
    ensures
        fits(seq![s], inv) <==> (match lookup(inv, s.ship_type) {
            Some(n) => n as int,
            None => 0int,
        }) >= (if s.count < s.positions.len() as i32 {
            s.count as int
        } else {
            s.positions.len() as i32 as int
        }),
{
    if !fits(seq![s], inv) {
        let i = choose|i: int| 0 <= i < 1 && !({
            let have: int = match lookup(inv, (#[trigger] seq![s][i]).ship_type) {
                Some(n) => n as int,
                None => 0,
            };
            have >= required_of(seq![s][i])
        });
        assert(i == 0);
    } else {
        assert(seq![s][0] == s);
    }
}

/// A fleet with a ship kind, at any position, that needs at least one ship of a type the
/// inventory does not hold does not fit.
pub proof fn law_fits_missing_kind(ships: Seq<FleetShipView>, inv: Seq<(Seq<char>, i32)>, i: int)
    requires
        0 <= i < ships.len(),
        forall|j: int| 0 <= j < inv.len() ==> (#[trigger] inv[j]).0 != ships[i].ship_type,
        0 < ships[i].count,
        0 < ships[i].positions.len() <= i32::MAX,
    ensures
        !fits(ships, inv),
{
    lemma_key_pos(keys_of(inv), ships[i].ship_type);
    assert forall|j: int| 0 <= j < keys_of(inv).len() implies keys_of(inv)[j] != ships[i].ship_type by {
        assert(keys_of(inv)[j] == inv[j].0);
    }
    if key_pos(keys_of(inv), ships[i].ship_type) is Some {
        let x = key_pos(keys_of(inv), ships[i].ship_type).unwrap();
        assert(keys_of(inv)[x] == inv[x].0);
    }
    assert(lookup(inv, ships[i].ship_type) is None);
    assert(required_of(ships[i]) > 0);
}

/// The status line after filtering: `n` of `total` suggestions shown, for event `event_id`,
/// with the inventory filter `on` or off.
pub open spec fn filter_status_of(n: nat, total: nat, on: bool, event_id: Seq<char>) -> Seq<char> {
    if n == 0 {
        "0 of "@ + decimal(total) + " suggestion"@ + (if total == 1 { ""@ } else { "s"@ })
            + " match your ship inventory."@
    } else {
        decimal(n) + " suggestion"@ + (if n == 1 { ""@ } else { "s"@ }) + (if on && n != total {
            " (of "@ + decimal(total) + ")"@
        } else {
            ""@
        }) + " for "@ + event_id + "."@
    }
}

/// The status line after filtering the suggestions.
pub fn filter_status(n: usize, total: usize, on: bool, event_id: &str) -> (r: String)
    ensures
        r@ == filter_status_of(n as nat, total as nat, on, event_id@),
{
    let mut r = String::new();
    if n == 0 {
        push_str(&mut r, "0 of ");
        push_decimal(&mut r, total as u64);
        push_str(&mut r, " suggestion");
        if total != 1 {
            push_str(&mut r, "s");
        } else {
            push_str(&mut r, "");
        }
        push_str(&mut r, " match your ship inventory.");
    } else {
        push_decimal(&mut r, n as u64);
        push_str(&mut r, " suggestion");
        if n != 1 {
            push_str(&mut r, "s");
        } else {
            push_str(&mut r, "");
        }
        if on && n != total {
            push_str(&mut r, " (of ");
            push_decimal(&mut r, total as u64);
            push_str(&mut r, ")");
        } else {
            push_str(&mut r, "");
        }
        push_str(&mut r, " for ");
        push_str(&mut r, event_id);
        push_str(&mut r, ".");
    }
    assert(r@ =~= filter_status_of(n as nat, total as nat, on, event_id@));
    r
}

// ---------------------------------------------------------------------------
// Keys and the result index
// ---------------------------------------------------------------------------

/// What a key press does.
#[derive(Clone, Copy, Debug, PartialEq, Eq)]
pub enum KeyAction {
    /// Ask for suggestions.
    Run,
    /// Show the suggestion at this index.
    Show(usize),
    /// Nothing.
    Ignore,
}

/// What a key press does: Enter in a text field starts a request unless one is running; the
/// left and right arrows move between the `n` suggestions, within bounds.
pub open spec fn key_action_of(key: Seq<char>, typing: bool, working: bool, idx: usize, n: usize) -> KeyAction {
    if key == "Enter"@ && typing && !working {
        KeyAction::Run
    } else if n == 0 {
        KeyAction::Ignore
    } else if key == "ArrowLeft"@ && idx > 0 {
        KeyAction::Show((idx - 1) as usize)
    } else if key == "ArrowRight"@ && idx + 1 < n {
        KeyAction::Show((idx + 1) as usize)
    } else {
        KeyAction::Ignore
    }
}

/// What a key press does.
pub fn key_action(key: &str, typing: bool, working: bool, idx: usize, n: usize) -> (r: KeyAction)
    ensures
        r == key_action_of(key@, typing, working, idx, n),
{
    if str_eq(key, "Enter") && typing && !working {
        KeyAction::Run
    } else if n == 0 {
        KeyAction::Ignore
    } else if str_eq(key, "ArrowLeft") && idx > 0 {
        KeyAction::Show(idx - 1)
    } else if str_eq(key, "ArrowRight") && idx < n - 1 {
        KeyAction::Show(idx + 1)
    } else {
        KeyAction::Ignore
    }
}

/// The suggestion shown for a stored index: the index, or the last suggestion when past the end.
pub fn clamp_index(idx: usize, n: usize) -> (r: usize)
    requires
        n > 0,
    ensures
        r == if idx >= n { (n - 1) as usize } else { idx },
{
    if idx >= n { n - 1 } else { idx }
}

// ---------------------------------------------------------------------------
// Grouping digits
// ---------------------------------------------------------------------------

/// Digits with a `,` between each group of three, counted from the right.
pub open spec fn grouped(s: Seq<char>) -> Seq<char>
    decreases s.len(),
{
    if s.len() <= 3 {
        s
    } else {
        grouped(s.take(s.len() - 3)) + seq![','] + s.skip(s.len() - 3)
    }
}

/// A formatted number: its sign, its integer digits grouped by thousands, and its fraction.
pub open spec fn formatted(int_part: Seq<char>, frac: Option<Seq<char>>, negative: bool) -> Seq<char> {
    (if negative { "-"@ } else { ""@ }) + grouped(int_part) + match frac {
        Some(f) => seq!['.'] + f,
        None => Seq::empty(),
    }
}

fn group_chars(s: &[char], len: usize, out: &mut String)
    requires
        len <= s@.len(),
    ensures
        final(out)@ == old(out)@ + grouped(s@.take(len as int)),
    decreases len,
{
    let ghost t = s@.take(len as int);
    if len <= 3 {
        let head = crate::text::slice_chars(s, 0, len);
        push_chars(out, &head);
        assert(head@ =~= t);
    } else {
        group_chars(s, len - 3, out);
        out.push(',');
        let tail = crate::text::slice_chars(s, len - 3, len);
        push_chars(out, &tail);
        assert(t.take(t.len() - 3) =~= s@.take(len - 3));
        assert(tail@ =~= t.skip(t.len() - 3));
        assert(final(out)@ =~= old(out)@ + grouped(t));
    }
}

/// Writes a number from its digits: the sign, the integer digits grouped by thousands, and the
/// fraction after a `.` if there is one.
pub fn format_grouped(int_part: &str, frac: Option<&str>, negative: bool) -> (r: String)
    ensures
        r@ == formatted(
            int_part@,
            match frac {
                Some(f) => Some(f@),
                None => None,
            },
            negative,
        ),
{
    let v = chars_of(int_part);
    let mut r = String::new();
    if negative {
        push_str(&mut r, "-");
    } else {
        push_str(&mut r, "");
    }
    group_chars(&v, v.len(), &mut r);
    assert(v@.take(v.len() as int) =~= v@);
    match frac {
        Some(f) => {
            r.push('.');
            push_str(&mut r, f);
        },
        None => {},
    }
    assert(r@ =~= formatted(
        int_part@,
        match frac {
            Some(f) => Some(f@),
            None => None,
        },
        negative,
    ));
    r
}

proof fn lemma_html_escaped_safe(s: Seq<char>)
    ensures
        forall|i: int| 0 <= i < html_escaped(s).len() ==> {
            let c = #[trigger] html_escaped(s)[i];
            c != '<' && c != '>' && c != '"' && c != '\''
        },
    decreases s.len(),
{
    if s.len() > 0 {
        lemma_html_escaped_safe(s.drop_last());
        let a = html_escaped(s.drop_last());
        let b = html_char(s.last());
        reveal_strlit("&amp;");
        reveal_strlit("&lt;");
        reveal_strlit("&gt;");
        reveal_strlit("&quot;");
        reveal_strlit("&#39;");
        assert forall|i: int| 0 <= i < (a + b).len() implies {
            let c = #[trigger] (a + b)[i];
            c != '<' && c != '>' && c != '"' && c != '\''
        } by {
            if i >= a.len() {
                assert((a + b)[i] == b[i - a.len()]);
            } else {
                assert((a + b)[i] == a[i]);
            }
        }
    }
}

/// Escaped text holds no `<`, `>`, `"` or `'`: it cannot open a tag or close an attribute.
pub proof fn law_html_escape_safe(s: Seq<char>)
    ensures
        forall|i: int| 0 <= i < html_escaped(s).len() ==> {
            let c = #[trigger] html_escaped(s)[i];
            c != '<' && c != '>' && c != '"' && c != '\''
        },
{
    lemma_html_escaped_safe(s);
}

proof fn lemma_without(s: Seq<Seq<char>>, id: Seq<char>)
    ensures
        !without(s, id).contains(id),
        forall|o: Seq<char>| o != id ==> (#[trigger] without(s, id).contains(o) == s.contains(o)),
        !s.contains(id) ==> without(s, id) == s,
        without(without(s, id), id) == without(s, id),
    decreases s.len(),
{
    if s.len() > 0 {
        let init = s.drop_last();
        lemma_without(init, id);
        let w = without(init, id);
        assert(s == init.push(s.last()));
        assert forall|o: Seq<char>| o != id implies (#[trigger] without(s, id).contains(o) == s.contains(o)) by {
            if s.last() != id {
                assert(without(s, id) == w.push(s.last()));
                if s.contains(o) && !init.contains(o) {
                    let k = choose|k: int| 0 <= k < s.len() && s[k] == o;
                    if k < init.len() {
                        assert(init[k] == o);
                    }
                    assert(w.push(s.last())[w.len() as int] == o);
                }
                if w.push(s.last()).contains(o) && !w.contains(o) {
                    let k = choose|k: int| 0 <= k < w.len() + 1 && w.push(s.last())[k] == o;
                    if k < w.len() {
                        assert(w[k] == o);
                    }
                    assert(s[s.len() - 1] == o);
                }
                if init.contains(o) {
                    let k = choose|k: int| 0 <= k < init.len() && init[k] == o;
                    assert(s[k] == o);
                }
                if w.contains(o) {
                    let k = choose|k: int| 0 <= k < w.len() && w[k] == o;
                    assert(w.push(s.last())[k] == o);
                }
            } else {
                if s.contains(o) {
                    let k = choose|k: int| 0 <= k < s.len() && s[k] == o;
                    assert(k < init.len());
                    assert(init[k] == o);
                }
                if init.contains(o) {
                    let k = choose|k: int| 0 <= k < init.len() && init[k] == o;
                    assert(s[k] == o);
                }
            }
        }
        if s.last() != id {
            let ws = w.push(s.last());
            assert(without(s, id) == ws);
            if ws.contains(id) {
                let k = choose|k: int| 0 <= k < ws.len() && ws[k] == id;
                assert(k < w.len());
                assert(w[k] == id);
            }
            if !s.contains(id) {
                assert forall|k: int| 0 <= k < init.len() implies init[k] != id by {
                    assert(s[k] == init[k]);
                }
                assert(w == init);
            }
            assert(ws.drop_last() =~= w);
            assert(without(ws, id) == without(w, id).push(s.last()));
        } else {
            assert(s.contains(id));
        }
    }
}

/// Ticking a hazard source puts it in the selection and unticking takes it out, each leaving the
/// other sources as they were; doing either twice is doing it once; and unticking a source that
/// was just ticked (and not selected before) restores the selection.
pub proof fn law_toggle(selected: Seq<Seq<char>>, id: Seq<char>)
    ensures
        toggled(selected, id, true).contains(id),
        !toggled(selected, id, false).contains(id),
        forall|o: Seq<char>, on: bool| o != id ==> (#[trigger] toggled(selected, id, on).contains(o)
            == selected.contains(o)),
        toggled(toggled(selected, id, true), id, true) == toggled(selected, id, true),
        toggled(toggled(selected, id, false), id, false) == toggled(selected, id, false),
        !selected.contains(id) ==> toggled(toggled(selected, id, true), id, false) == selected,
{
    lemma_without(selected, id);
    let t = toggled(selected, id, true);
    if !selected.contains(id) {
        let p = selected.push(id);
        assert(p[selected.len() as int] == id);
        lemma_without(p, id);
        assert(p.drop_last() =~= selected);
        assert(without(p, id) == without(selected, id));
    }
    assert forall|o: Seq<char>, on: bool| o != id implies (#[trigger] toggled(selected, id, on).contains(o)
        == selected.contains(o)) by {
        if on && !selected.contains(id) {
            let p = selected.push(id);
            if p.contains(o) {
                let k = choose|k: int| 0 <= k < p.len() && p[k] == o;
                assert(k < selected.len());
                assert(selected[k] == o);
            }
            if selected.contains(o) {
                let k = choose|k: int| 0 <= k < selected.len() && selected[k] == o;
                assert(p[k] == o);
            }
        }
    }
}

proof fn lemma_names_from(rows: Seq<crate::types::FleetEventView>, idxs: Seq<usize>)
    ensures
        forall|i: int| 0 <= i < names_from(rows, idxs).len() ==> (#[trigger] names_from(rows, idxs)[i]).len() > 0,
        forall|a: int, b: int| 0 <= a < b < names_from(rows, idxs).len() ==> names_from(rows, idxs)[a]
            != names_from(rows, idxs)[b],
    decreases idxs.len(),
{
    if idxs.len() > 0 {
        lemma_names_from(rows, idxs.drop_last());
        let prev = names_from(rows, idxs.drop_last());
        let name = rows[idxs.last() as int].name;
        if !(name.len() == 0 || prev.contains(name)) {
            let cur = prev.push(name);
            assert(names_from(rows, idxs) == cur);
            assert forall|i: int| 0 <= i < cur.len() implies (#[trigger] cur[i]).len() > 0 by {
                if i < prev.len() {
                    assert(cur[i] == prev[i]);
                }
            }
            assert forall|a: int, b: int| 0 <= a < b < cur.len() implies cur[a] != cur[b] by {
                if b == prev.len() {
                    assert(cur[a] == prev[a]);
                    assert(prev.contains(prev[a]));
                } else {
                    assert(cur[a] == prev[a] && cur[b] == prev[b]);
                }
            }
        } else {
            assert(names_from(rows, idxs) == prev);
        }
    }
}

/// The node names offered for a galaxy are non-empty and none is offered twice.
pub proof fn law_node_options(data: DbDataView, galaxy: u32)
    ensures
        forall|i: int| 0 <= i < node_options_of(data, galaxy).len() ==> (#[trigger] node_options_of(data, galaxy)[i]).len()
            > 0,
        forall|a: int, b: int| 0 <= a < b < node_options_of(data, galaxy).len() ==> node_options_of(data, galaxy)[a]
            != node_options_of(data, galaxy)[b],
{
    match lookup(data.rows_by_galaxy, decimal(galaxy as nat)) {
        Some(idxs) => lemma_names_from(data.rows, idxs),
        None => {},
    }
}

/// Whether every row index kept under a galaxy points at an event row: what `node_options`
/// needs of the tables (tables built by `parse_db` always pass).
pub fn tables_consistent(data: &DbData) -> (r: bool)
    ensures
        r == indices_valid(data@),
{
    let n = data.rows.len();
    let ghost gv = group_view(data.rows_by_galaxy@);
    let mut g: usize = 0;
    while g < data.rows_by_galaxy.len()
        invariant
            g <= data.rows_by_galaxy@.len(),
            n == data@.rows.len(),
            gv == data@.rows_by_galaxy,
            forall|a: int, k: int| 0 <= a < g && 0 <= k < gv[a].1.len() ==> #[trigger] gv[a].1[k] < n,
        decreases data.rows_by_galaxy@.len() - g,
    {
        let idxs = &data.rows_by_galaxy[g].1;
        assert(gv[g as int].1 == idxs@);
        let mut k: usize = 0;
        while k < idxs.len()
            invariant
                k <= idxs@.len(),
                n == data@.rows.len(),
                g < gv.len(),
                gv == data@.rows_by_galaxy,
                gv[g as int].1 == idxs@,
                forall|j: int| 0 <= j < k ==> #[trigger] idxs@[j] < n,
            decreases idxs@.len() - k,
        {
            if idxs[k] >= n {
                assert(!indices_valid(data@)) by {
                    assert(gv[g as int].1[k as int] >= n);
                }
                return false;
            }
            k = k + 1;
        }
        assert forall|a: int, j: int| 0 <= a < g + 1 && 0 <= j < gv[a].1.len() implies #[trigger] gv[a].1[j] < n by {
            if a == g {
                assert(gv[a].1[j] == idxs@[j]);
            }
        }
        g = g + 1;
    }
    true
}

} // verus!
