//! Reading fleet suggestion lines and fleet event ids.
use vstd::prelude::*;
use crate::text::{
    chars_eq, chars_of, has_char, has_prefix, is_digit, decimal, push_decimal, split, split_chars,
    string_of, strings_of, nonempty_strings, nonempty_pieces, split_once, split_once_chars, slice_chars,
    trim, trim_str, views, vviews, parse_integer, parse_i32, lemma_split_nonempty,
};
use crate::types::{FleetEvent, FleetEventView, FleetShip, FleetShipView, event_views};

verus! {

broadcast use vstd::seq_lib::group_seq_properties;

// ---------------------------------------------------------------------------
// Galaxy buckets
// ---------------------------------------------------------------------------

/// The ASCII digits at the start of `s`.
pub open spec fn digit_run(s: Seq<char>) -> Seq<char>
    decreases s.len(),
{
    if s.len() > 0 && is_digit(s[0]) {
        seq![s[0]] + digit_run(s.drop_first())
    } else {
        Seq::empty()
    }
}

/// The galaxy bucket of a fleet event id: the digits right after a leading `g`.
pub open spec fn bucket_of(id: Seq<char>) -> Option<Seq<char>> {
    if id.len() > 0 && id[0] == 'g' && digit_run(id.drop_first()).len() > 0 {
        Some(digit_run(id.drop_first()))
    } else {
        None
    }
}

proof fn lemma_digit_run_skip(s: Seq<char>, i: int)
    requires
        0 <= i <= s.len(),
        forall|j: int| 0 <= j < i ==> is_digit(s[j]),
    ensures
        digit_run(s) == s.take(i) + digit_run(s.skip(i)),
    decreases i,
{
    if i > 0 {
        lemma_digit_run_skip(s.drop_first(), i - 1);
        assert(s.drop_first().skip(i - 1) == s.skip(i));
        assert(s.take(i) == seq![s[0]] + s.drop_first().take(i - 1));
    } else {
        assert(s.skip(0) == s);
    }
}

/// The galaxy bucket of a fleet event id: the digits right after a leading `g`, if any.
pub fn bucket_for(id: &str) -> (r: Option<String>)
    ensures
        match r {
            Some(s) => bucket_of(id@) == Some(s@),
            None => bucket_of(id@) is None,
        },
{
    let v = chars_of(id);
    if v.len() == 0 || v[0] != 'g' {
        return None;
    }
    let mut i: usize = 1;
    while i < v.len() && '0' <= v[i] && v[i] <= '9'
        invariant
            1 <= i <= v.len(),
            forall|j: int| 1 <= j < i ==> is_digit(v@[j]),
        decreases v.len() - i,
    {
        i = i + 1;
    }
    let ghost rest = v@.drop_first();
    proof {
        assert forall|j: int| 0 <= j < i - 1 implies is_digit(rest[j]) by {
            assert(rest[j] == v@[j + 1]);
        }
        lemma_digit_run_skip(rest, i - 1);
        let tail = rest.skip(i - 1);
        if tail.len() > 0 {
            assert(tail[0] == v@[i as int]);
        }
        assert(digit_run(tail) == Seq::<char>::empty());
        assert(rest.take(i - 1) + Seq::<char>::empty() == rest.take(i - 1));
    }
    if i == 1 {
        return None;
    }
    let digits = crate::text::slice_chars(&v, 1, i);
    assert(digits@ =~= rest.take(i - 1));
    Some(string_of(&digits))
}

// ---------------------------------------------------------------------------
// Finding a fleet event by galaxy and node name
// ---------------------------------------------------------------------------

/// The id prefix of the events of a galaxy: `g` followed by the galaxy number.
pub open spec fn galaxy_prefix(galaxy: u32) -> Seq<char> {
    seq!['g'] + decimal(galaxy as nat)
}

/// Whether an event id belongs to the galaxy whose id prefix is `prefix`: it starts with the
/// prefix and the prefix is not followed by another digit (so `g1` does not take `g12_b3`).
pub open spec fn in_galaxy(id: Seq<char>, prefix: Seq<char>) -> bool {
    &&& prefix.len() <= id.len()
    &&& id.take(prefix.len() as int) == prefix
    &&& !(id.len() > prefix.len() && is_digit(id[prefix.len() as int]))
}

/// The id of the first event from index `i` on that lies in the galaxy and whose name is `up`.
pub open spec fn first_event_from(rows: Seq<FleetEventView>, i: int, prefix: Seq<char>, up: Seq<char>) -> Option<Seq<char>>
    decreases rows.len() - i,
{
    if i < 0 || i >= rows.len() {
        None
    } else if in_galaxy(rows[i].id, prefix) && rows[i].name == up {
        Some(rows[i].id)
    } else {
        first_event_from(rows, i + 1, prefix, up)
    }
}

/// `str::to_uppercase`: the Unicode upper-case mapping of a string.
pub uninterp spec fn upper_case(s: Seq<char>) -> Seq<char>;

/// Calls `str::to_uppercase`; its result is the upper-case mapping of `s`, named `upper_case`.
#[verifier::external_body]
pub(crate) fn to_upper(s: &str) -> (r: String)
    ensures
        r@ == upper_case(s@),
{
    s.to_uppercase()
}

/// The id of the first event of `rows` in the galaxy whose name equals `up` exactly.
pub fn find_event_by_upper_name(rows: &Vec<FleetEvent>, galaxy: u32, up: &str) -> (r: Option<String>)
    ensures
        match r {
            Some(s) => first_event_from(event_views(rows@), 0, galaxy_prefix(galaxy), up@) == Some(s@),
            None => first_event_from(event_views(rows@), 0, galaxy_prefix(galaxy), up@) is None,
        },
{
    let mut prefix_s = String::new();
    prefix_s.push('g');
    push_decimal(&mut prefix_s, galaxy as u64);
    let prefix = chars_of(prefix_s.as_str());
    assert(prefix@ =~= galaxy_prefix(galaxy));
    let upv = chars_of(up);
    let ghost rv = event_views(rows@);
    let mut i: usize = 0;
    while i < rows.len()
        invariant
            i <= rows.len(),
            rv == event_views(rows@),
            prefix@ == galaxy_prefix(galaxy),
            upv@ == up@,
            first_event_from(rv, 0, prefix@, up@) == first_event_from(rv, i as int, prefix@, up@),
        decreases rows.len() - i,
    {
        let row = &rows[i];
        assert(rv[i as int] == row@);
        let id = chars_of(row.id.as_str());
        if has_prefix(&id, &prefix) {
            let next_digit = id.len() > prefix.len() && '0' <= id[prefix.len()] && id[prefix.len()] <= '9';
            if !next_digit {
                let name = chars_of(row.name.as_str());
                if chars_eq(&name, &upv) {
                    return Some(row.id.clone());
                }
            }
        }
        i = i + 1;
    }
    None
}

/// The id of the first event of `rows` in the galaxy whose name is `node_name` in upper case.
pub fn find_fleet_event_id(rows: &Vec<FleetEvent>, galaxy: u32, node_name: &str) -> (r: Option<String>)
    ensures
        match r {
            Some(s) => first_event_from(event_views(rows@), 0, galaxy_prefix(galaxy), upper_case(node_name@)) == Some(s@),
            None => first_event_from(event_views(rows@), 0, galaxy_prefix(galaxy), upper_case(node_name@)) is None,
        },
{
    let up = to_upper(node_name);
    find_event_by_upper_name(rows, galaxy, up.as_str())
}


// ---------------------------------------------------------------------------
// Fleet suggestion lines
// ---------------------------------------------------------------------------

/// One ship part of a fleet suggestion line, by its text: the ship type, its mods, the
/// `(column, row)` coordinate texts of its positions, and the count text if there is one.
/// The coordinates and (for the line) the resource figures are decimal numbers that the caller
/// reads as floating point; everything else is read here.
#[derive(Clone, Debug, PartialEq)]
pub struct ShipText {
    pub ship_type: String,
    pub mods: Vec<String>,
    pub coords: Vec<(String, String)>,
    pub count: Option<String>,
}

/// A ship part by its plain values.
pub struct ShipTextView {
    pub ship_type: Seq<char>,
    pub mods: Seq<Seq<char>>,
    pub coords: Seq<(Seq<char>, Seq<char>)>,
    pub count: Option<Seq<char>>,
}

/// The view of an optional string.
pub open spec fn opt_view(o: Option<String>) -> Option<Seq<char>> {
    match o {
        Some(s) => Some(s@),
        None => None,
    }
}

/// The views of a list of string pairs.
pub open spec fn pair_views(v: Seq<(String, String)>) -> Seq<(Seq<char>, Seq<char>)> {
    v.map_values(|p: (String, String)| (p.0@, p.1@))
}

impl View for ShipText {
    type V = ShipTextView;

    open spec fn view(&self) -> ShipTextView {
        ShipTextView {
            ship_type: self.ship_type@,
            mods: views(self.mods@),
            coords: pair_views(self.coords@),
            count: opt_view(self.count),
        }
    }
}

/// A fleet suggestion line split into its parts: the header fields (resources used, resources
/// committed, fleet stats), the ship parts, and the trailing boss-damage text if the last part
/// holds no `;`.
#[derive(Clone, Debug, PartialEq)]
pub struct FleetLine {
    pub header: Vec<String>,
    pub ships: Vec<ShipText>,
    pub tail: Option<String>,
}

/// A fleet line by its plain values.
pub struct FleetLineView {
    pub header: Seq<Seq<char>>,
    pub ships: Seq<ShipTextView>,
    pub tail: Option<Seq<char>>,
}

/// The views of a list of ship parts.
pub open spec fn ship_text_views(v: Seq<ShipText>) -> Seq<ShipTextView> {
    v.map_values(|t: ShipText| t@)
}

impl View for FleetLine {
    type V = FleetLineView;

    open spec fn view(&self) -> FleetLineView {
        FleetLineView {
            header: views(self.header@),
            ships: ship_text_views(self.ships@),
            tail: opt_view(self.tail),
        }
    }
}

/// The body of a line after trimming and the separator between positions. A line that starts
/// with `V2` loses the `V2`. The console tool (`console`) always separates positions with `*`;
/// otherwise a `V2` line separates them with `*` and any other with `.`.
pub open spec fn line_body(raw: Seq<char>, console: bool) -> (Seq<char>, char) {
    let t = trim(raw);
    if t.len() >= 2 && t[0] == 'V' && t[1] == '2' {
        (t.skip(2), '*')
    } else {
        (t, if console { '*' } else { '.' })
    }
}

/// The coordinate pairs of position pieces as the console tool reads them: the first two
/// `,`-separated texts of each piece that has at least two.
pub open spec fn coord_pairs_first_two(s: Seq<Seq<char>>) -> Seq<(Seq<char>, Seq<char>)>
    decreases s.len(),
{
    if s.len() == 0 {
        Seq::empty()
    } else {
        let cs = split(s.last(), ',');
        if cs.len() >= 2 {
            coord_pairs_first_two(s.drop_last()).push((cs[0], cs[1]))
        } else {
            coord_pairs_first_two(s.drop_last())
        }
    }
}

/// The coordinate pairs of position pieces: each piece with a `,` split at its first `,`.
pub open spec fn coord_pairs(s: Seq<Seq<char>>) -> Seq<(Seq<char>, Seq<char>)>
    decreases s.len(),
{
    if s.len() == 0 {
        Seq::empty()
    } else {
        match split_once(s.last(), ',') {
            Some(p) => coord_pairs(s.drop_last()).push(p),
            None => coord_pairs(s.drop_last()),
        }
    }
}

/// The text pieces of one `;`-separated ship part.
pub open spec fn ship_text_of(p: Seq<char>, delim: char, console: bool) -> ShipTextView {
    let sp = split(p, ';');
    ShipTextView {
        ship_type: sp[0],
        mods: if sp.len() > 1 { nonempty_pieces(split(sp[1], ',')) } else { Seq::empty() },
        coords: if sp.len() > 2 {
            if console {
                coord_pairs_first_two(split(sp[2], delim))
            } else {
                coord_pairs(split(sp[2], delim))
            }
        } else {
            Seq::empty()
        },
        count: if sp.len() > 3 { Some(sp[3]) } else { None },
    }
}

/// The ship parts of the `|`-separated parts after the header and event parts: empty parts
/// are passed over, `Null` ships are passed over, and the first part without `;` ends them.
pub open spec fn ship_parts(ps: Seq<Seq<char>>, delim: char, console: bool) -> Seq<ShipTextView>
    decreases ps.len(),
{
    if ps.len() == 0 {
        Seq::empty()
    } else if ps[0].len() == 0 {
        ship_parts(ps.drop_first(), delim, console)
    } else if !ps[0].contains(';') {
        Seq::empty()
    } else if split(ps[0], ';')[0] == "Null"@ {
        ship_parts(ps.drop_first(), delim, console)
    } else {
        seq![ship_text_of(ps[0], delim, console)] + ship_parts(ps.drop_first(), delim, console)
    }
}

/// How a fleet suggestion line splits into its parts (as the console tool reads it when
/// `console`); `None` when it has fewer than two `|`-separated parts.
pub open spec fn fleet_line_of(raw: Seq<char>, console: bool) -> Option<FleetLineView> {
    let (body, delim) = line_body(raw, console);
    let parts = split(body, '|');
    if parts.len() < 2 {
        None
    } else {
        Some(FleetLineView {
            header: split(parts[0], ','),
            ships: ship_parts(parts.skip(2), delim, console),
            tail: if !parts.last().contains(';') { Some(parts.last()) } else { None },
        })
    }
}

/// A `Null` ship part is passed over without ending the ship parts: the ships of the parts
/// are those of the same parts with that `Null` part taken out, wherever it stands.
pub proof fn law_null_part_skipped(ps: Seq<Seq<char>>, i: int, delim: char, console: bool)
    requires
        0 <= i < ps.len(),
        ps[i].contains(';'),
        split(ps[i], ';')[0] == "Null"@,
    ensures
        ship_parts(ps, delim, console) == ship_parts(ps.remove(i), delim, console),
    decreases i,
{
    if i > 0 {
        let rest = ps.drop_first();
        law_null_part_skipped(rest, i - 1, delim, console);
        assert(ps.remove(i)[0] == ps[0]);
        assert(ps.remove(i).drop_first() =~= rest.remove(i - 1));
    } else {
        assert(ps.remove(0) =~= ps.drop_first());
    }
}

/// An empty ship part is passed over: the ships of the parts are those of the same parts with
/// the empty part taken out.
pub proof fn law_empty_part_skipped(ps: Seq<Seq<char>>, i: int, delim: char, console: bool)
    requires
        0 <= i < ps.len(),
        ps[i].len() == 0,
    ensures
        ship_parts(ps, delim, console) == ship_parts(ps.remove(i), delim, console),
    decreases i,
{
    if i > 0 {
        let rest = ps.drop_first();
        law_empty_part_skipped(rest, i - 1, delim, console);
        assert(ps.remove(i)[0] == ps[0]);
        assert(ps.remove(i).drop_first() =~= rest.remove(i - 1));
    } else {
        assert(ps.remove(0) =~= ps.drop_first());
    }
}

/// A non-empty part without `;` ends the ship parts: nothing after it is read.
pub proof fn law_bare_part_ends(ps: Seq<Seq<char>>, j: int, delim: char, console: bool)
    requires
        0 <= j < ps.len(),
        ps[j].len() > 0,
        !ps[j].contains(';'),
    ensures
        ship_parts(ps, delim, console) == ship_parts(ps.take(j), delim, console),
    decreases j,
{
    if j > 0 {
        let rest = ps.drop_first();
        law_bare_part_ends(rest, j - 1, delim, console);
        assert(ps.take(j)[0] == ps[0]);
        assert(ps.take(j).drop_first() =~= rest.take(j - 1));
    } else {
        assert(ps.take(0).len() == 0);
    }
}

/// Every ship read from the parts comes from a part that holds a `;` and is not `Null`.
pub proof fn law_ship_parts_sound(ps: Seq<Seq<char>>, delim: char, console: bool)
    ensures
        forall|k: int| 0 <= k < ship_parts(ps, delim, console).len() ==> exists|j: int|
            0 <= j < ps.len() && ps[j].contains(';') && split(ps[j], ';')[0] != "Null"@
                && #[trigger] ship_parts(ps, delim, console)[k] == ship_text_of(ps[j], delim, console),
    decreases ps.len(),
{
    if ps.len() > 0 {
        let rest = ps.drop_first();
        law_ship_parts_sound(rest, delim, console);
        let r = ship_parts(ps, delim, console);
        let rr = ship_parts(rest, delim, console);
        assert forall|k: int| 0 <= k < r.len() implies exists|j: int|
            0 <= j < ps.len() && ps[j].contains(';') && split(ps[j], ';')[0] != "Null"@
                && #[trigger] r[k] == ship_text_of(ps[j], delim, console) by {
            if ps[0].len() == 0 || split(ps[0], ';')[0] == "Null"@ && ps[0].contains(';') {
                assert(r == rr);
                let j = choose|j: int| 0 <= j < rest.len() && rest[j].contains(';') && split(rest[j], ';')[0] != "Null"@
                    && #[trigger] rr[k] == ship_text_of(rest[j], delim, console);
                assert(ps[j + 1] == rest[j]);
            } else if ps[0].contains(';') {
                assert(r == seq![ship_text_of(ps[0], delim, console)] + rr);
                if k == 0 {
                    assert(r[0] == ship_text_of(ps[0], delim, console));
                } else {
                    assert(r[k] == rr[k - 1]);
                    let j = choose|j: int| 0 <= j < rest.len() && rest[j].contains(';') && split(rest[j], ';')[0]
                        != "Null"@ && #[trigger] rr[k - 1] == ship_text_of(rest[j], delim, console);
                    assert(ps[j + 1] == rest[j]);
                }
            }
        }
    }
}

/// Every non-empty ship part whose first `;`-field is not `Null`, and before which every part
/// is empty or holds a `;`, gives a ship of the parts; `Null` parts before it do not stop it.
pub proof fn law_ship_part_kept(ps: Seq<Seq<char>>, j: int, delim: char, console: bool)
    requires
        0 <= j < ps.len(),
        ps[j].contains(';'),
        split(ps[j], ';')[0] != "Null"@,
        forall|k: int| 0 <= k < j ==> (#[trigger] ps[k]).len() == 0 || ps[k].contains(';'),
    ensures
        ship_parts(ps, delim, console).contains(ship_text_of(ps[j], delim, console)),
    decreases j,
{
    let r = ship_parts(ps, delim, console);
    let st = ship_text_of(ps[j], delim, console);
    if j == 0 {
        assert(ps[0].len() > 0);
        assert(r[0] == st);
    } else {
        let rest = ps.drop_first();
        assert forall|k: int| 0 <= k < j - 1 implies (#[trigger] rest[k]).len() == 0 || rest[k].contains(';') by {
            assert(rest[k] == ps[k + 1]);
        }
        assert(rest[j - 1] == ps[j]);
        law_ship_part_kept(rest, j - 1, delim, console);
        let rr = ship_parts(rest, delim, console);
        let w = choose|w: int| 0 <= w < rr.len() && rr[w] == st;
        assert(ps[0].len() == 0 || ps[0].contains(';'));
        if ps[0].len() == 0 || split(ps[0], ';')[0] == "Null"@ {
            assert(r == rr);
            assert(r[w] == st);
        } else {
            assert(r == seq![ship_text_of(ps[0], delim, console)] + rr);
            assert(r[w + 1] == st);
        }
    }
}

/// The ships of a fleet line: every ship part after the header and event parts that is
/// non-empty, holds a `;`, is not `Null`, and has only empty or `;`-holding parts before it,
/// is read as a ship of the line.
pub proof fn law_line_ship_kept(raw: Seq<char>, console: bool, j: int)
    requires
        2 <= j < split(line_body(raw, console).0, '|').len(),
        split(line_body(raw, console).0, '|')[j].contains(';'),
        split(split(line_body(raw, console).0, '|')[j], ';')[0] != "Null"@,
        forall|k: int|
            2 <= k < j ==> (#[trigger] split(line_body(raw, console).0, '|')[k]).len() == 0 || split(
                line_body(raw, console).0,
                '|',
            )[k].contains(';'),
    ensures
        fleet_line_of(raw, console) is Some,
        fleet_line_of(raw, console).unwrap().ships.contains(
            ship_text_of(split(line_body(raw, console).0, '|')[j], line_body(raw, console).1, console),
        ),
{
    let parts = split(line_body(raw, console).0, '|');
    let ps = parts.skip(2);
    assert forall|k: int| 0 <= k < j - 2 implies (#[trigger] ps[k]).len() == 0 || ps[k].contains(';') by {
        assert(ps[k] == parts[k + 2]);
    }
    assert(ps[j - 2] == parts[j]);
    law_ship_part_kept(ps, j - 2, line_body(raw, console).1, console);
}

/// The coordinate pairs of the position pieces.
fn coord_pairs_exec(pieces: &Vec<Vec<char>>) -> (r: Vec<(String, String)>)
    ensures
        pair_views(r@) == coord_pairs(vviews(pieces@)),
{
    let mut r: Vec<(String, String)> = Vec::new();
    let mut i: usize = 0;
    while i < pieces.len()
        invariant
            i <= pieces.len(),
            pair_views(r@) == coord_pairs(vviews(pieces@).take(i as int)),
        decreases pieces.len() - i,
    {
        assert(vviews(pieces@).take(i + 1).drop_last() =~= vviews(pieces@).take(i as int));
        assert(vviews(pieces@).take(i + 1).last() == pieces@[i as int]@);
        match split_once_chars(&pieces[i], ',') {
            Some((a, b)) => {
                let ghost before = r@;
                r.push((string_of(&a), string_of(&b)));
                assert(pair_views(r@) =~= pair_views(before).push((a@, b@)));
            },
            None => {},
        }
        i = i + 1;
    }
    assert(vviews(pieces@).take(pieces.len() as int) =~= vviews(pieces@));
    r
}

/// The coordinate pairs of the position pieces, console style.
fn coord_pairs_first_two_exec(pieces: &Vec<Vec<char>>) -> (r: Vec<(String, String)>)
    ensures
        pair_views(r@) == coord_pairs_first_two(vviews(pieces@)),
{
    let mut r: Vec<(String, String)> = Vec::new();
    let mut i: usize = 0;
    while i < pieces.len()
        invariant
            i <= pieces.len(),
            pair_views(r@) == coord_pairs_first_two(vviews(pieces@).take(i as int)),
        decreases pieces.len() - i,
    {
        assert(vviews(pieces@).take(i + 1).drop_last() =~= vviews(pieces@).take(i as int));
        assert(vviews(pieces@).take(i + 1).last() == pieces@[i as int]@);
        let cs = split_chars(&pieces[i], ',');
        if cs.len() >= 2 {
            let ghost before = r@;
            r.push((string_of(&cs[0]), string_of(&cs[1])));
            assert(pair_views(r@) =~= pair_views(before).push((cs@[0]@, cs@[1]@)));
        }
        i = i + 1;
    }
    assert(vviews(pieces@).take(pieces.len() as int) =~= vviews(pieces@));
    r
}

/// The text pieces of one ship part.
fn ship_text(p: &Vec<char>, delim: char, console: bool) -> (r: ShipText)
    ensures
        r@ == ship_text_of(p@, delim, console),
{
    let sp = split_chars(p, ';');
    proof {
        lemma_split_nonempty(p@, ';');
    }
    let mods = if sp.len() > 1 {
        let pieces = split_chars(&sp[1], ',');
        nonempty_strings(&pieces)
    } else {
        Vec::new()
    };
    let coords = if sp.len() > 2 {
        let pieces = split_chars(&sp[2], delim);
        if console {
            coord_pairs_first_two_exec(&pieces)
        } else {
            coord_pairs_exec(&pieces)
        }
    } else {
        Vec::new()
    };
    let count = if sp.len() > 3 { Some(string_of(&sp[3])) } else { None };
    let r = ShipText { ship_type: string_of(&sp[0]), mods, coords, count };
    proof {
        let want = ship_text_of(p@, delim, console);
        assert(vviews(sp@) == split(p@, ';'));
        assert(r@.ship_type == want.ship_type);
        assert(r@.mods =~= want.mods);
        assert(r@.coords =~= want.coords);
        assert(r@.count == want.count);
    }
    r
}

proof fn lemma_ship_parts_step(ps: Seq<Seq<char>>, i: int, delim: char)
    requires
        0 <= i < ps.len(),
    ensures
        ps.skip(i).drop_first() == ps.skip(i + 1),
        ps.skip(i)[0] == ps[i],
        ps.skip(i).len() > 0,
{
    assert(ps.skip(i).drop_first() =~= ps.skip(i + 1));
}

/// Splits a fleet suggestion line into its parts; `None` when it has fewer than two
/// `|`-separated parts.
pub fn parse_fleet_layout(raw: &str) -> (r: Option<FleetLine>)
    ensures
        match r {
            Some(l) => fleet_line_of(raw@, false) == Some(l@),
            None => fleet_line_of(raw@, false) is None,
        },
{
    split_fleet_line(raw, false)
}

/// Splits a fleet suggestion line into its parts, as the console tool (`console`) or the web
/// page reads it; `None` when it has fewer than two `|`-separated parts.
pub fn split_fleet_line(raw: &str, console: bool) -> (r: Option<FleetLine>)
    ensures
        match r {
            Some(l) => fleet_line_of(raw@, console) == Some(l@),
            None => fleet_line_of(raw@, console) is None,
        },
{
    let t = trim_str(raw);
    let v2 = t.len() >= 2 && t[0] == 'V' && t[1] == '2';
    let body = if v2 { slice_chars(&t, 2, t.len()) } else { slice_chars(&t, 0, t.len()) };
    let delim = if v2 || console { '*' } else { '.' };
    assert(body@ =~= line_body(raw@, console).0);
    let parts = split_chars(&body, '|');
    let ghost pv = vviews(parts@);
    assert(pv == split(line_body(raw@, console).0, '|'));
    if parts.len() < 2 {
        return None;
    }
    let header_pieces = split_chars(&parts[0], ',');
    let header = strings_of(&header_pieces);
    let ghost rest = pv.skip(2);
    let mut ships: Vec<ShipText> = Vec::new();
    let mut i: usize = 2;
    while i < parts.len()
        invariant
            2 <= i <= parts.len(),
            pv == vviews(parts@),
            rest == pv.skip(2),
            ship_text_views(ships@) + ship_parts(pv.skip(i as int), delim, console) == ship_parts(rest, delim, console),
        ensures
            ship_text_views(ships@) == ship_parts(rest, delim, console),
        decreases parts.len() - i,
    {
        proof {
            lemma_ship_parts_step(pv, i as int, delim);
            assert(pv[i as int] == parts@[i as int]@);
        }
        let part = &parts[i];
        if part.len() == 0 {
            i = i + 1;
            continue;
        }
        if !has_char(part, ';') {
            proof {
                assert(ship_parts(pv.skip(i as int), delim, console) == Seq::<ShipTextView>::empty());
                assert(ship_text_views(ships@) + Seq::<ShipTextView>::empty() == ship_text_views(ships@));
            }
            break;
        }
        let sp = split_chars(part, ';');
        proof {
            lemma_split_nonempty(part@, ';');
        }
        let null_chars = chars_of("Null");
        if chars_eq(&sp[0], &null_chars) {
            assert(split(pv[i as int], ';')[0] == "Null"@);
            i = i + 1;
            continue;
        }
        assert(split(pv[i as int], ';')[0] != "Null"@);
        let st = ship_text(part, delim, console);
        let ghost before = ship_text_views(ships@);
        ships.push(st);
        assert(ship_text_views(ships@) =~= before.push(st@));
        assert(before.push(st@) + ship_parts(pv.skip(i + 1), delim, console) =~= before + (seq![st@]
            + ship_parts(pv.skip(i + 1), delim, console)));
        i = i + 1;
    }
    let last = &parts[parts.len() - 1];
    let tail = if !has_char(last, ';') { Some(string_of(last)) } else { None };
    let r = FleetLine { header, ships, tail };
    proof {
        let want = fleet_line_of(raw@, console).unwrap();
        assert(r@.header == want.header);
        assert(r@.ships == want.ships);
        assert(pv.last() == last@);
        assert(r@.tail == want.tail);
    }
    Some(r)
}

/// The positions kept from the coordinates read by the caller: those that read as numbers.
pub open spec fn kept_positions_of<T>(coords: Seq<Option<T>>) -> Seq<T>
    decreases coords.len(),
{
    if coords.len() == 0 {
        Seq::empty()
    } else {
        match coords.last() {
            Some(p) => kept_positions_of(coords.drop_last()).push(p),
            None => kept_positions_of(coords.drop_last()),
        }
    }
}

/// The positions kept from the coordinates read by the caller: those that read as numbers.
pub open spec fn kept_positions(coords: Seq<Option<(i32, i32)>>) -> Seq<(i32, i32)> {
    kept_positions_of(coords)
}

/// The fleet ship of a ship part, given the value of each of its coordinate pairs (`None` for a
/// pair that does not read as two numbers): its positions are the pairs that read, and its
/// count is the count text read as an `i32`, or else the number of positions.
pub fn build_fleet_ship(text: &ShipText, coords: &Vec<Option<(i32, i32)>>) -> (r: FleetShip)
    ensures
        r@.ship_type == text@.ship_type,
        r@.mods == text@.mods,
        r@.positions == kept_positions(coords@),
        r@.count == match text@.count {
            Some(c) => match parse_integer(c, true, i32::MIN as int, i32::MAX as int) {
                Some(v) => v as i32,
                None => kept_positions(coords@).len() as i32,
            },
            None => kept_positions(coords@).len() as i32,
        },
{
    let mut positions: Vec<(i32, i32)> = Vec::new();
    let mut i: usize = 0;
    while i < coords.len()
        invariant
            i <= coords.len(),
            positions@ == kept_positions(coords@.take(i as int)),
        decreases coords.len() - i,
    {
        assert(coords@.take(i + 1).drop_last() =~= coords@.take(i as int));
        match coords[i] {
            Some(p) => positions.push(p),
            None => {},
        }
        i = i + 1;
    }
    assert(coords@.take(coords.len() as int) =~= coords@);
    let fallback = positions.len() as i32;
    let count = match &text.count {
        Some(c) => match parse_i32(c.as_str()) {
            Some(v) => v,
            None => fallback,
        },
        None => fallback,
    };
    let mut mods: Vec<String> = Vec::new();
    let mut j: usize = 0;
    while j < text.mods.len()
        invariant
            j <= text.mods.len(),
            mods@.len() == j,
            forall|k: int| 0 <= k < j ==> mods@[k]@ == text.mods@[k]@,
        decreases text.mods.len() - j,
    {
        mods.push(text.mods[j].clone());
        j = j + 1;
    }
    assert(views(mods@) =~= views(text.mods@));
    FleetShip { ship_type: text.ship_type.clone(), mods, positions, count }
}

/// The suggestion lines worth reading, each trimmed and numbered from one by its place among
/// all the lines; lines that are empty once trimmed are passed over.
pub open spec fn numbered_of(lines: Seq<Seq<char>>) -> Seq<(int, Seq<char>)>
    decreases lines.len(),
{
    if lines.len() == 0 {
        Seq::empty()
    } else if trim(lines.last()).len() == 0 {
        numbered_of(lines.drop_last())
    } else {
        numbered_of(lines.drop_last()).push((lines.len() as int, trim(lines.last())))
    }
}

/// The views of numbered lines.
pub open spec fn numbered_views(v: Seq<(usize, String)>) -> Seq<(int, Seq<char>)> {
    v.map_values(|p: (usize, String)| (p.0 as int, p.1@))
}

/// The suggestion lines worth reading, trimmed and numbered from one.
pub fn numbered_lines(lines: &Vec<String>) -> (r: Vec<(usize, String)>)
    ensures
        numbered_views(r@) == numbered_of(views(lines@)),
{
    let ghost lv = views(lines@);
    let mut r: Vec<(usize, String)> = Vec::new();
    let mut i: usize = 0;
    while i < lines.len()
        invariant
            i <= lines.len(),
            lv == views(lines@),
            numbered_views(r@) == numbered_of(lv.take(i as int)),
        decreases lines.len() - i,
    {
        assert(lv.take(i + 1).drop_last() =~= lv.take(i as int));
        assert(lv.take(i + 1).last() == lines@[i as int]@);
        let t = trim_str(lines[i].as_str());
        if t.len() > 0 {
            let ghost before = numbered_views(r@);
            r.push((i + 1, string_of(&t)));
            assert(numbered_views(r@) =~= before.push(((i + 1) as int, t@)));
        }
        i = i + 1;
    }
    assert(lv.take(lines.len() as int) =~= lv);
    r
}

} // verus!
