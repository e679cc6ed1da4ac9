//! The console fleet tool: reading its ship placements, drawing the two-column grid, listing
//! mods, and finding a fleet event in the exported event table.
use vstd::prelude::*;
use crate::text::{
    chars_of, chars_eq, decimal, has_prefix, join, push_decimal, push_str, split, split_chars,
    string_of, views, vviews, parse_integer, parse_u32,
};
use crate::parser::{ShipText, ShipTextView, kept_positions_of, to_upper, upper_case};

verus! {

broadcast use vstd::seq_lib::group_seq_properties;

/// One ship type of a console fleet: its mods, its `(column, row)` positions and how many.
#[derive(Clone, Debug, PartialEq)]
pub struct ShipPlacement {
    pub ship_type: String,
    pub mods: Vec<String>,
    pub positions: Vec<(u8, u8)>,
    pub count: u32,
}

/// A placement by its plain values.
pub struct ShipPlacementView {
    pub ship_type: Seq<char>,
    pub mods: Seq<Seq<char>>,
    pub positions: Seq<(u8, u8)>,
    pub count: u32,
}

impl View for ShipPlacement {
    type V = ShipPlacementView;

    open spec fn view(&self) -> ShipPlacementView {
        ShipPlacementView {
            ship_type: self.ship_type@,
            mods: views(self.mods@),
            positions: self.positions@,
            count: self.count,
        }
    }
}

/// The placement of a ship part, given the value of each of its coordinate pairs (`None` for a
/// pair that does not read as two numbers): the positions are the pairs that read, the count
/// is the count text read as a `u32`, or else the number of positions.
pub fn build_placement(text: &ShipText, coords: &Vec<Option<(u8, u8)>>) -> (r: ShipPlacement)
    ensures
        r@.ship_type == text@.ship_type,
        r@.mods == text@.mods,
        r@.positions == kept_positions_of(coords@),
        r@.count == match text@.count {
            Some(c) => match parse_integer(c, false, 0, u32::MAX as int) {
                Some(v) => v as u32,
                None => kept_positions_of(coords@).len() as u32,
            },
            None => kept_positions_of(coords@).len() as u32,
        },
{
    let mut positions: Vec<(u8, u8)> = Vec::new();
    let mut i: usize = 0;
    while i < coords.len()
        invariant
            i <= coords.len(),
            positions@ == kept_positions_of(coords@.take(i as int)),
        decreases coords.len() - i,
    {
        assert(coords@.take(i + 1).drop_last() =~= coords@.take(i as int));
        match coords[i] {
            Some(p) => positions.push(p),
            None => {},
        }
        i = i + 1;
    }
    assert(coords@.take(coords.len() as int) =~= coords@);
    let fallback = positions.len() as u32;
    let count = match &text.count {
        Some(c) => match parse_u32(c.as_str()) {
            Some(v) => v,
            None => fallback,
        },
        None => fallback,
    };
    let mods = crate::text::copy_strings(&text.mods);
    ShipPlacement { ship_type: text.ship_type.clone(), mods, positions, count }
}

/// The grid letter of a ship type.
pub open spec fn abbrev_of(ty: Seq<char>) -> Seq<char> {
    if ty == "Fighter"@ {
        ">"@
    } else if ty == "Corvette"@ {
        "C"@
    } else if ty == "Frigate"@ {
        "F"@
    } else if ty == "Cruiser"@ {
        "R"@
    } else if ty == "HeavyCruiser"@ {
        "H"@
    } else if ty == "Destroyer"@ {
        "D"@
    } else if ty == "PlayerCommandShip"@ {
        "@"@
    } else {
        "?"@
    }
}

/// Each of the seven known ship types has its own grid letter (Fighter `>`, Corvette `C`,
/// Frigate `F`, Cruiser `R`, HeavyCruiser `H`, Destroyer `D`, PlayerCommandShip `@`), and `?`
/// is given exactly to the names outside that table.
pub proof fn law_abbrev_table(ty: Seq<char>)
    ensures
        abbrev_of("Fighter"@) == ">"@,
        abbrev_of("Corvette"@) == "C"@,
        abbrev_of("Frigate"@) == "F"@,
        abbrev_of("Cruiser"@) == "R"@,
        abbrev_of("HeavyCruiser"@) == "H"@,
        abbrev_of("Destroyer"@) == "D"@,
        abbrev_of("PlayerCommandShip"@) == "@"@,
        abbrev_of(ty) == "?"@ <==> !(ty == "Fighter"@ || ty == "Corvette"@ || ty == "Frigate"@ || ty == "Cruiser"@
            || ty == "HeavyCruiser"@ || ty == "Destroyer"@ || ty == "PlayerCommandShip"@),
{
    reveal_strlit("Fighter");
    reveal_strlit("Corvette");
    reveal_strlit("Frigate");
    reveal_strlit("Cruiser");
    reveal_strlit("HeavyCruiser");
    reveal_strlit("Destroyer");
    reveal_strlit("PlayerCommandShip");
    reveal_strlit(">");
    reveal_strlit("C");
    reveal_strlit("F");
    reveal_strlit("R");
    reveal_strlit("H");
    reveal_strlit("D");
    reveal_strlit("@");
    reveal_strlit("?");
    assert("Fighter"@.len() == 7 && "Fighter"@[0] == 'F' && "Fighter"@[1] == 'i');
    assert("Corvette"@.len() == 8);
    assert("Frigate"@.len() == 7 && "Frigate"@[0] == 'F' && "Frigate"@[1] == 'r');
    assert("Cruiser"@.len() == 7 && "Cruiser"@[0] == 'C');
    assert("HeavyCruiser"@.len() == 12);
    assert("Destroyer"@.len() == 9);
    assert("PlayerCommandShip"@.len() == 17);
    assert(">"@[0] == '>' && "C"@[0] == 'C' && "F"@[0] == 'F' && "R"@[0] == 'R');
    assert("H"@[0] == 'H' && "D"@[0] == 'D' && "@"@[0] == '@' && "?"@[0] == '?');
}

/// The grid letter of a ship type.
pub fn ship_abbrev(ship_type: &str) -> (r: &'static str)
    ensures
        r@ == abbrev_of(ship_type@),
{
    let t = chars_of(ship_type);
    if chars_eq(&t, &chars_of("Fighter")) {
        ">"
    } else if chars_eq(&t, &chars_of("Corvette")) {
        "C"
    } else if chars_eq(&t, &chars_of("Frigate")) {
        "F"
    } else if chars_eq(&t, &chars_of("Cruiser")) {
        "R"
    } else if chars_eq(&t, &chars_of("HeavyCruiser")) {
        "H"
    } else if chars_eq(&t, &chars_of("Destroyer")) {
        "D"
    } else if chars_eq(&t, &chars_of("PlayerCommandShip")) {
        "@"
    } else {
        "?"
    }
}

/// The letter of a ship type: the first character of its abbreviation.
pub open spec fn letter_of(ty: Seq<char>) -> char {
    abbrev_of(ty)[0]
}

/// The letter drawn on cell `(col, row)`: that of the last ship placed there, or a space.
pub open spec fn cell_letter(ships: Seq<ShipPlacementView>, cell: (u8, u8)) -> char
    decreases ships.len(),
{
    if ships.len() == 0 {
        ' '
    } else if ships.last().positions.contains(cell) {
        letter_of(ships.last().ship_type)
    } else {
        cell_letter(ships.drop_last(), cell)
    }
}

/// Row `row` of the grid drawing (rows counted from zero): its number from one, then column B,
/// then column A.
pub open spec fn grid_row_text(ships: Seq<ShipPlacementView>, row: u8) -> Seq<char> {
    decimal(row as nat + 1) + " ["@ + seq![cell_letter(ships, (1u8, row))] + "] ["@
        + seq![cell_letter(ships, (0u8, row))] + "]\n"@
}

/// The grid drawing: a heading, then the five rows.
pub open spec fn grid_text(ships: Seq<ShipPlacementView>) -> Seq<char> {
    "   B   A\n"@ + grid_row_text(ships, 0) + grid_row_text(ships, 1) + grid_row_text(ships, 2)
        + grid_row_text(ships, 3) + grid_row_text(ships, 4)
}

/// The views of a list of placements.
pub open spec fn placement_views(v: Seq<ShipPlacement>) -> Seq<ShipPlacementView> {
    v.map_values(|s: ShipPlacement| s@)
}

fn letter(ty: &str) -> (c: char)
    ensures
        c == letter_of(ty@),
{
    let a = ship_abbrev(ty);
    let v = chars_of(a);
    proof {
        reveal_strlit(">");
        reveal_strlit("C");
        reveal_strlit("F");
        reveal_strlit("R");
        reveal_strlit("H");
        reveal_strlit("D");
        reveal_strlit("@");
        reveal_strlit("?");
    }
    v[0]
}

fn cell_letter_exec(ships: &Vec<ShipPlacement>, col: u8, row: u8) -> (c: char)
    ensures
        c == cell_letter(placement_views(ships@), (col, row)),
{
    let ghost sv = placement_views(ships@);
    let mut k: usize = ships.len();
    while k > 0
        invariant
            k <= ships.len(),
            sv == placement_views(ships@),
            cell_letter(sv, (col, row)) == cell_letter(sv.take(k as int), (col, row)),
        decreases k,
    {
        let s = &ships[k - 1];
        let ghost t = sv.take(k as int);
        assert(t.last() == s@);
        assert(t.drop_last() =~= sv.take(k - 1));
        let mut j: usize = 0;
        let mut here = false;
        while j < s.positions.len()
            invariant
                j <= s.positions.len(),
                here == s.positions@.take(j as int).contains((col, row)),
            decreases s.positions.len() - j,
        {
            let p = s.positions[j];
            assert(s.positions@.take(j + 1).drop_last() =~= s.positions@.take(j as int));
            if p.0 == col && p.1 == row {
                here = true;
                assert(s.positions@.take(j + 1)[j as int] == (col, row));
            } else {
                proof {
                    if s.positions@.take(j + 1).contains((col, row)) {
                        let x = choose|x: int| 0 <= x < j + 1 && #[trigger] s.positions@.take(j + 1)[x] == (col, row);
                        assert(s.positions@.take(j as int)[x] == (col, row));
                    }
                }
            }
            proof {
                if here && s.positions@.take(j as int).contains((col, row)) {
                    let x = choose|x: int| 0 <= x < j && #[trigger] s.positions@.take(j as int)[x] == (col, row);
                    assert(s.positions@.take(j + 1)[x] == (col, row));
                }
            }
            j = j + 1;
        }
        assert(s.positions@.take(j as int) =~= s.positions@);
        if here {
            return letter(s.ship_type.as_str());
        }
        k = k - 1;
    }
    ' '
}

/// The two-column grid drawing of a console fleet.
pub fn render_grid(ships: &Vec<ShipPlacement>) -> (r: String)
    ensures
        r@ == grid_text(placement_views(ships@)),
{
    let mut out = String::new();
    push_str(&mut out, "   B   A\n");
    let mut row: u8 = 0;
    while row < 5
        invariant
            row <= 5,
            out@ == "   B   A\n"@ + (if row >= 1 { grid_row_text(placement_views(ships@), 0) } else { Seq::empty() })
                + (if row >= 2 { grid_row_text(placement_views(ships@), 1) } else { Seq::empty() })
                + (if row >= 3 { grid_row_text(placement_views(ships@), 2) } else { Seq::empty() })
                + (if row >= 4 { grid_row_text(placement_views(ships@), 3) } else { Seq::empty() })
                + (if row >= 5 { grid_row_text(placement_views(ships@), 4) } else { Seq::empty() }),
        decreases 5 - row,
    {
        let ghost before = out@;
        let b = cell_letter_exec(ships, 1, row);
        let a = cell_letter_exec(ships, 0, row);
        push_decimal(&mut out, (row + 1) as u64);
        push_str(&mut out, " [");
        out.push(b);
        push_str(&mut out, "] [");
        out.push(a);
        push_str(&mut out, "]\n");
        assert(out@ =~= before + grid_row_text(placement_views(ships@), row));
        row = row + 1;
    }
    assert(out@ =~= grid_text(placement_views(ships@)));
    out
}

/// The mods of a console ship as text: `none`, or the mods separated by `, `.
pub open spec fn format_mods_of(mods: Seq<Seq<char>>) -> Seq<char> {
    if mods.len() == 0 { "none"@ } else { join(mods, ", "@) }
}

/// The mods of a console ship as text.
pub fn format_mods(mods: &Vec<String>) -> (r: String)
    ensures
        r@ == format_mods_of(views(mods@)),
{
    if mods.len() == 0 {
        crate::text::owned("none")
    } else {
        crate::text::join_strings(mods, ", ")
    }
}

// ---------------------------------------------------------------------------
// The exported event table
// ---------------------------------------------------------------------------

/// A line without the `\r` of a `\r\n` ending.
pub open spec fn strip_cr(l: Seq<char>) -> Seq<char> {
    if l.len() > 0 && l.last() == '\r' { l.drop_last() } else { l }
}

/// `str::lines`: the lines of a text, split at `\n` (a `\r` before it dropped); a final line
/// ending adds no empty line.
pub open spec fn lines_of(s: Seq<char>) -> Seq<Seq<char>> {
    let p = split(s, '\n');
    let init = p.drop_last().map_values(|l: Seq<char>| strip_cr(l));
    if p.last().len() == 0 { init } else { init.push(p.last()) }
}

/// The id of the first event of the table lines from index `i` on whose id starts with
/// `prefix` and whose name is `up`. A line is split at `,`; lines with fewer than two fields
/// are passed over.
pub open spec fn csv_event_from(lines: Seq<Seq<char>>, i: int, prefix: Seq<char>, up: Seq<char>) -> Option<Seq<char>>
    decreases lines.len() - i,
{
    if i < 0 || i >= lines.len() {
        None
    } else {
        let f = split(lines[i], ',');
        if f.len() >= 2 && prefix.len() <= f[0].len() && f[0].take(prefix.len() as int) == prefix
            && f[1] == up {
            Some(f[0])
        } else {
            csv_event_from(lines, i + 1, prefix, up)
        }
    }
}

/// The event id prefix of a galaxy in the exported table: `g`, the galaxy, `_`.
pub open spec fn csv_prefix(galaxy: u32) -> Seq<char> {
    seq!['g'] + decimal(galaxy as nat) + seq!['_']
}

fn lines_exec(s: &str) -> (r: Vec<Vec<char>>)
    ensures
        vviews(r@) == lines_of(s@),
{
    let v = chars_of(s);
    let p = split_chars(&v, '\n');
    proof {
        crate::text::lemma_split_nonempty(s@, '\n');
    }
    let ghost pv = vviews(p@);
    let mut out: Vec<Vec<char>> = Vec::new();
    let mut i: usize = 0;
    while i + 1 < p.len()
        invariant
            i + 1 <= p.len(),
            pv == vviews(p@),
            out@.len() == i,
            forall|k: int| 0 <= k < i ==> (#[trigger] out@[k])@ == strip_cr(pv[k]),
        decreases p.len() - i,
    {
        let l = &p[i];
        let stripped = if l.len() > 0 && l[l.len() - 1] == '\r' {
            crate::text::slice_chars(l, 0, l.len() - 1)
        } else {
            crate::text::slice_chars(l, 0, l.len())
        };
        assert(stripped@ =~= strip_cr(pv[i as int]));
        out.push(stripped);
        i = i + 1;
    }
    let last = &p[p.len() - 1];
    assert(pv.drop_last().map_values(|l: Seq<char>| strip_cr(l)) =~= vviews(out@));
    if last.len() > 0 {
        let copy = crate::text::slice_chars(last, 0, last.len());
        let ghost o0 = vviews(out@);
        out.push(copy);
        assert(vviews(out@) =~= o0.push(pv.last()));
    }
    out
}

/// Finds a node in the exported event table (`id,name,...` lines after a heading line): the
/// id of the first event of the galaxy whose name is the node name in upper case.
pub fn find_event_in_csv(contents: &str, galaxy: u32, node_name: &str) -> (r: Option<String>)
    ensures
        match r {
            Some(s) => csv_event_from(lines_of(contents@), 1, csv_prefix(galaxy), upper_case(node_name@)) == Some(s@),
            None => csv_event_from(lines_of(contents@), 1, csv_prefix(galaxy), upper_case(node_name@)) is None,
        },
{
    let up = to_upper(node_name);
    let upv = chars_of(up.as_str());
    let mut ps = String::new();
    ps.push('g');
    push_decimal(&mut ps, galaxy as u64);
    ps.push('_');
    let prefix = chars_of(ps.as_str());
    assert(prefix@ =~= csv_prefix(galaxy));
    let lines = lines_exec(contents);
    let ghost lv = vviews(lines@);
    if lines.len() == 0 {
        return None;
    }
    let mut i: usize = 1;
    while i < lines.len()
        invariant
            1 <= i <= lines.len(),
            lv == vviews(lines@),
            lv == lines_of(contents@),
            prefix@ == csv_prefix(galaxy),
            upv@ == upper_case(node_name@),
            csv_event_from(lv, 1, prefix@, upv@) == csv_event_from(lv, i as int, prefix@, upv@),
        decreases lines.len() - i,
    {
        let f = split_chars(&lines[i], ',');
        assert(lv[i as int] == lines@[i as int]@);
        assert(split(lv[i as int], ',') == vviews(f@));
        if f.len() >= 2 {
            assert(vviews(f@)[0] == f@[0]@);
            assert(vviews(f@)[1] == f@[1]@);
            if has_prefix(&f[0], &prefix) && chars_eq(&f[1], &upv) {
                return Some(string_of(&f[0]));
            }
        }
        i = i + 1;
    }
    None
}

/// `str::to_lowercase`: the Unicode lower-case mapping of a string.
pub uninterp spec fn lower_case(s: Seq<char>) -> Seq<char>;

/// Calls `str::to_lowercase`; its result is the lower-case mapping of `s`, named `lower_case`.
#[verifier::external_body]
fn to_lower(s: &str) -> (r: String)
    ensures
        r@ == lower_case(s@),
{
    s.to_lowercase()
}

/// Whether the tool asks about a boss: for nodes whose name starts with `bb`, in any case.
pub fn asks_boss(node_name: &str) -> (r: bool)
    ensures
        r == (lower_case(node_name@).len() >= 2 && lower_case(node_name@).take(2) == "bb"@),
{
    let low = to_lower(node_name);
    let v = chars_of(low.as_str());
    let bb = chars_of("bb");
    proof {
        reveal_strlit("bb");
    }
    let r = has_prefix(&v, &bb);
    r
}

/// The answer to the boss question: yes when empty or starting with `y`, in any case.
pub fn boss_reply(answer: &str) -> (r: bool)
    ensures
        r == (answer@.len() == 0 || (lower_case(answer@).len() >= 1 && lower_case(answer@)[0] == 'y')),
{
    if chars_of(answer).len() == 0 {
        return true;
    }
    let low = to_lower(answer);
    let v = chars_of(low.as_str());
    v.len() >= 1 && v[0] == 'y'
}

/// What `serde_json::from_str::<Vec<String>>` makes of a text: the strings of a JSON array of
/// strings, or `None`.
pub uninterp spec fn json_string_list(text: Seq<char>) -> Option<Seq<Seq<char>>>;

/// Calls `serde_json::from_str::<Vec<String>>`; its result is named `json_string_list`.
#[verifier::external_body]
fn parse_string_list(text: &str) -> (r: Option<Vec<String>>)
    ensures
        match r {
            Some(v) => json_string_list(text@) == Some(views(v@)),
            None => json_string_list(text@) is None,
        },
{
    serde_json::from_str::<Vec<String>>(text).ok()
}

/// The lines of the suggestion service's reply: a JSON array of strings, or `None` when the
/// reply is not one.
pub fn reply_lines(text: &str) -> (r: Option<Vec<String>>)
    ensures
        match r {
            Some(v) => json_string_list(text@) == Some(views(v@)),
            None => json_string_list(text@) is None,
        },
{
    parse_string_list(text)
}

} // verus!
