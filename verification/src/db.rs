//! Building the game tables from the rows of the game database: fleet events with their
//! hazards, ship sprites, mod icons, events by galaxy and hazards by target node.
use vstd::prelude::*;
use serde_json::Value as JsonValue;
use crate::text::{chars_of, chars_eq, seen_contains, views, vviews};
use crate::keyed::{
    assoc_set_all, group_all, group_push, keys_distinct, last_value, law_assoc_set_all, law_group_all,
    law_group_all_lists, lookup, set_string, values_under,
};
use crate::parser::{bucket_for, bucket_of};
use crate::types::{
    DbData, DbDataView, FleetEvent, FleetEventView, HazardEntry, HazardEntryView, HazardSource,
    HazardSourceView, event_views, group_view, hazard_views, indices_valid, string_pairs,
};

verus! {

broadcast use vstd::seq_lib::group_seq_properties;

// ---------------------------------------------------------------------------
// Column values
// ---------------------------------------------------------------------------

/// A column value of a result row. A floating-point column is held as the integer the
/// tables read from it (its value truncated toward zero).
#[derive(Clone, Debug, PartialEq)]
pub enum Value {
    Int(i64),
    Real(i64),
    Text(String),
    Null,
}

/// The text of a value, if it is text.
pub open spec fn text_of(v: Value) -> Option<Seq<char>> {
    match v {
        Value::Text(s) => Some(s@),
        _ => None,
    }
}

/// The integer of a value, if it is a number.
pub open spec fn int_of(v: Value) -> Option<i64> {
    match v {
        Value::Int(i) => Some(i),
        Value::Real(i) => Some(i),
        _ => None,
    }
}

impl Value {
    /// The text of a text value.
    pub fn as_text(&self) -> (r: Option<&str>)
        ensures
            match r {
                Some(s) => text_of(*self) == Some(s@),
                None => text_of(*self) is None,
            },
    {
        match self {
            Value::Text(s) => Some(s.as_str()),
            _ => None,
        }
    }

    /// The integer of a numeric value.
    pub fn as_int(&self) -> (r: Option<i64>)
        ensures
            r == int_of(*self),
    {
        match self {
            Value::Int(i) => Some(*i),
            Value::Real(i) => Some(*i),
            _ => None,
        }
    }
}

/// The text in column `i` of a row, if there is such a column and it holds text.
pub open spec fn cell_text(row: Seq<Value>, i: int) -> Option<Seq<char>> {
    if 0 <= i < row.len() {
        text_of(row[i])
    } else {
        None
    }
}

/// The integer in column `i` of a row, if there is such a column and it holds a number.
pub open spec fn cell_int(row: Seq<Value>, i: int) -> Option<i64> {
    if 0 <= i < row.len() {
        int_of(row[i])
    } else {
        None
    }
}

/// The text, or `d` when there is none.
pub open spec fn text_or(o: Option<Seq<char>>, d: Seq<char>) -> Seq<char> {
    match o {
        Some(s) => s,
        None => d,
    }
}

/// The rows of a query result by their values.
pub open spec fn table_view(rows: Seq<Vec<Value>>) -> Seq<Seq<Value>> {
    rows.map_values(|r: Vec<Value>| r@)
}

fn cell_text_exec(row: &Vec<Value>, i: usize) -> (r: Option<String>)
    ensures
        match r {
            Some(s) => cell_text(row@, i as int) == Some(s@),
            None => cell_text(row@, i as int) is None,
        },
{
    if i < row.len() {
        match row[i].as_text() {
            Some(s) => Some(String::from_str(s)),
            None => None,
        }
    } else {
        None
    }
}

fn text_or_exec(o: Option<String>, d: &str) -> (r: String)
    ensures
        r@ == text_or(
            match o {
                Some(s) => Some(s@),
                None => None,
            },
            d@,
        ),
{
    match o {
        Some(s) => s,
        None => String::from_str(d),
    }
}

// ---------------------------------------------------------------------------
// The node list of a hazard, stored as JSON text
// ---------------------------------------------------------------------------

/// A JSON value inside an object, as far as the tables read it: a string, or any other value by
/// its JSON text (`null` for null).
#[derive(Clone, Debug, PartialEq)]
pub enum JsonLeaf {
    Str(String),
    Other(String),
}

/// An element of a JSON array, as far as the tables read it: an object with its members (in
/// key order, as serde_json keeps them), or something else.
#[derive(Clone, Debug, PartialEq)]
pub enum JsonItem {
    Object(Vec<(String, JsonLeaf)>),
    Other,
}

/// A JSON document, as far as the tables read it: an array of items, an object with its members
/// (in key order), or something else.
#[derive(Clone, Debug, PartialEq)]
pub enum JsonDoc {
    Array(Vec<JsonItem>),
    Object(Vec<(String, JsonLeaf)>),
    Other,
}

/// What `serde_json::from_str::<serde_json::Value>` makes of a text, in the shape above;
/// `None` where the text is not JSON.
pub uninterp spec fn json_doc(text: Seq<char>) -> Option<JsonDoc>;

/// Calls `serde_json::from_str::<serde_json::Value>` and keeps the shape the tables read: a
/// top-level array of objects or a top-level object, with each member a string or, otherwise,
/// its JSON text (`Value`'s `Display`). The contract only names the result `json_doc(text)`.
#[verifier::external_body]
pub(crate) fn parse_json_doc(text: &str) -> (r: Option<JsonDoc>)
    ensures
        r == json_doc(text@),
{
    let leaf = |y: JsonValue| match y {
        JsonValue::String(s) => JsonLeaf::Str(s),
        y => JsonLeaf::Other(y.to_string()),
    };
    let obj = |f: serde_json::Map<String, JsonValue>| f.into_iter().map(|(n, y)| (n, leaf(y))).collect();
    serde_json::from_str::<JsonValue>(text).ok().map(|v| match v {
        JsonValue::Array(a) => JsonDoc::Array(a.into_iter().map(|i| match i {
            JsonValue::Object(f) => JsonItem::Object(obj(f)),
            _ => JsonItem::Other,
        }).collect()),
        JsonValue::Object(f) => JsonDoc::Object(obj(f)),
        _ => JsonDoc::Other,
    })
}

/// The first member named `key` of an object.
pub open spec fn member(fields: Seq<(String, JsonLeaf)>, key: Seq<char>) -> Option<JsonLeaf>
    decreases fields.len(),
{
    if fields.len() == 0 {
        None
    } else if fields[0].0@ == key {
        Some(fields[0].1)
    } else {
        member(fields.drop_first(), key)
    }
}

/// The `fleet_event` string of an array item, if it has one.
pub open spec fn item_target(item: JsonItem) -> Option<Seq<char>> {
    match item {
        JsonItem::Object(fields) => match member(fields@, "fleet_event"@) {
            Some(JsonLeaf::Str(s)) => Some(s@),
            _ => None,
        },
        JsonItem::Other => None,
    }
}

/// The `fleet_event` strings of the items, in order.
pub open spec fn item_targets(items: Seq<JsonItem>) -> Seq<Seq<char>>
    decreases items.len(),
{
    if items.len() == 0 {
        Seq::empty()
    } else {
        match item_target(items.last()) {
            Some(t) => item_targets(items.drop_last()).push(t),
            None => item_targets(items.drop_last()),
        }
    }
}

/// The nodes a hazard reaches: the `fleet_event` member of each object of a JSON array;
/// nothing when the document is not an array or not JSON.
pub open spec fn targets_of(doc: Option<JsonDoc>) -> Seq<Seq<char>> {
    match doc {
        Some(JsonDoc::Array(items)) => item_targets(items@),
        _ => Seq::empty(),
    }
}

fn item_target_exec(item: &JsonItem) -> (r: Option<String>)
    ensures
        match r {
            Some(s) => item_target(*item) == Some(s@),
            None => item_target(*item) is None,
        },
{
    match item {
        JsonItem::Object(fields) => {
            let key = "fleet_event";
            assert(key@ == "fleet_event"@);
            let mut i: usize = 0;
            while i < fields.len()
                invariant
                    i <= fields.len(),
                    key@ == "fleet_event"@,
                    *item == JsonItem::Object(*fields),
                    member(fields@, key@) == member(fields@.skip(i as int), key@),
                decreases fields.len() - i,
            {
                assert(fields@.skip(i as int).drop_first() =~= fields@.skip(i + 1));
                assert(fields@.skip(i as int)[0] == fields@[i as int]);
                let k = chars_of(fields[i].0.as_str());
                let kk = chars_of(key);
                if crate::text::chars_eq(&k, &kk) {
                    assert(member(fields@.skip(i as int), key@) == Some(fields@[i as int].1));
                    return match &fields[i].1 {
                        JsonLeaf::Str(s) => {
                            let c = s.clone();
                            assert(c@ == s@);
                            Some(c)
                        },
                        _ => None,
                    };
                }
                i = i + 1;
            }
            assert(fields@.skip(i as int) =~= Seq::<(String, JsonLeaf)>::empty());
            None
        },
        JsonItem::Other => None,
    }
}

/// The nodes a parsed hazard node list reaches.
pub fn targets_from_doc(doc: &Option<JsonDoc>) -> (r: Vec<String>)
    ensures
        views(r@) == targets_of(*doc),
{
    let mut r: Vec<String> = Vec::new();
    match doc {
        Some(JsonDoc::Array(items)) => {
            let mut i: usize = 0;
            while i < items.len()
                invariant
                    i <= items.len(),
                    views(r@) == item_targets(items@.take(i as int)),
                decreases items.len() - i,
            {
                assert(items@.take(i + 1).drop_last() =~= items@.take(i as int));
                assert(items@.take(i + 1).last() == items@[i as int]);
                match item_target_exec(&items[i]) {
                    Some(t) => {
                        let ghost before = r@;
                        r.push(t);
                        assert(views(r@) =~= views(before).push(r@.last()@));
                    },
                    None => {},
                }
                i = i + 1;
            }
            assert(items@.take(items.len() as int) =~= items@);
        },
        _ => {},
    }
    r
}

/// The nodes named by a hazard's JSON node list.
pub fn fleet_event_targets(text: &str) -> (r: Vec<String>)
    ensures
        views(r@) == targets_of(json_doc(text@)),
{
    let doc = parse_json_doc(text);
    targets_from_doc(&doc)
}


// ---------------------------------------------------------------------------
// The tables
// ---------------------------------------------------------------------------

/// A hazard row `(parent, type, repeat, nodes_effected)`: the event it belongs to and the
/// entry; rows without a parent id are passed over. A missing type reads `?`, a missing
/// repeat flag reads as not repeating, and a missing node list as `[]`.
pub open spec fn hazard_of_row(row: Seq<Value>) -> Option<(Seq<char>, HazardEntryView)> {
    match cell_text(row, 0) {
        None => None,
        Some(parent) => Some((parent, HazardEntryView {
            hazard_type: text_or(cell_text(row, 1), "?"@),
            repeat: match cell_int(row, 2) {
                Some(i) => i != 0,
                None => false,
            },
            nodes_effected: targets_of(json_doc(text_or(cell_text(row, 3), "[]"@))),
        })),
    }
}

/// The hazard entries of the hazard rows, with their parent ids, in row order.
pub open spec fn hazard_list(rows: Seq<Seq<Value>>) -> Seq<(Seq<char>, HazardEntryView)>
    decreases rows.len(),
{
    if rows.len() == 0 {
        Seq::empty()
    } else {
        match hazard_of_row(rows.last()) {
            Some(h) => hazard_list(rows.drop_last()).push(h),
            None => hazard_list(rows.drop_last()),
        }
    }
}

/// The hazard entries whose parent is `id`, in order.
pub open spec fn hazards_with_parent(hz: Seq<(Seq<char>, HazardEntryView)>, id: Seq<char>) -> Seq<HazardEntryView>
    decreases hz.len(),
{
    if hz.len() == 0 {
        Seq::empty()
    } else if hz.last().0 == id {
        hazards_with_parent(hz.drop_last(), id).push(hz.last().1)
    } else {
        hazards_with_parent(hz.drop_last(), id)
    }
}

/// The id of an event row (`""` when missing).
pub open spec fn event_id_of(row: Seq<Value>) -> Seq<char> {
    text_or(cell_text(row, 0), ""@)
}

/// Whether no earlier event row has the same id as row `j`.
pub open spec fn first_with_id(rows: Seq<Seq<Value>>, j: int) -> bool {
    forall|k: int| 0 <= k < j ==> event_id_of(#[trigger] rows[k]) != event_id_of(rows[j])
}

/// Event row `j` `(id, name)`: missing texts read as empty; the first row with an id takes
/// the hazards whose parent is that id, any later row with the same id takes none.
pub open spec fn event_of(rows: Seq<Seq<Value>>, hz: Seq<(Seq<char>, HazardEntryView)>, j: int) -> FleetEventView {
    FleetEventView {
        id: event_id_of(rows[j]),
        name: text_or(cell_text(rows[j], 1), ""@),
        hazards: if first_with_id(rows, j) {
            hazards_with_parent(hz, event_id_of(rows[j]))
        } else {
            Seq::empty()
        },
    }
}

/// The fleet events of the event rows, in row order.
pub open spec fn events_of(rows: Seq<Seq<Value>>, hz: Seq<(Seq<char>, HazardEntryView)>) -> Seq<FleetEventView> {
    Seq::new(rows.len(), |j: int| event_of(rows, hz, j))
}

/// A row `(id, path)` of the sprite or icon query that names a path: rows missing either text,
/// or with an empty path, are passed over.
pub open spec fn path_pair(row: Seq<Value>) -> Option<(Seq<char>, Seq<char>)> {
    match (cell_text(row, 0), cell_text(row, 1)) {
        (Some(id), Some(path)) => if path.len() > 0 { Some((id, path)) } else { None },
        _ => None,
    }
}

/// The `(id, path)` pairs of the rows, in row order.
pub open spec fn path_pairs(rows: Seq<Seq<Value>>) -> Seq<(Seq<char>, Seq<char>)>
    decreases rows.len(),
{
    if rows.len() == 0 {
        Seq::empty()
    } else {
        match path_pair(rows.last()) {
            Some(p) => path_pairs(rows.drop_last()).push(p),
            None => path_pairs(rows.drop_last()),
        }
    }
}

/// The `(galaxy, index)` pairs of the events whose id has a galaxy bucket, in order.
pub open spec fn galaxy_pairs(evs: Seq<FleetEventView>) -> Seq<(Seq<char>, usize)>
    decreases evs.len(),
{
    if evs.len() == 0 {
        Seq::empty()
    } else {
        match bucket_of(evs.last().id) {
            Some(g) => galaxy_pairs(evs.drop_last()).push((g, (evs.len() - 1) as usize)),
            None => galaxy_pairs(evs.drop_last()),
        }
    }
}

/// The hazard source that an event's hazard entry places on node `t`.
pub open spec fn source_for(ev: FleetEventView, h: HazardEntryView, t: Seq<char>) -> HazardSourceView {
    HazardSourceView {
        source_id: ev.id,
        source_name: ev.name,
        hazard_type: h.hazard_type,
        repeat: h.repeat,
        is_self: ev.id == t,
    }
}

/// The `(node, source)` pairs of one hazard entry, in node order.
pub open spec fn node_pairs(ev: FleetEventView, h: HazardEntryView) -> Seq<(Seq<char>, HazardSourceView)> {
    h.nodes_effected.map_values(|t: Seq<char>| (t, source_for(ev, h, t)))
}

/// The `(node, source)` pairs of an event's hazard entries, in order.
pub open spec fn entry_pairs(ev: FleetEventView, hs: Seq<HazardEntryView>) -> Seq<(Seq<char>, HazardSourceView)>
    decreases hs.len(),
{
    if hs.len() == 0 {
        Seq::empty()
    } else {
        entry_pairs(ev, hs.drop_last()) + node_pairs(ev, hs.last())
    }
}

/// The `(node, source)` pairs of all events, in event order.
pub open spec fn target_pairs(evs: Seq<FleetEventView>) -> Seq<(Seq<char>, HazardSourceView)>
    decreases evs.len(),
{
    if evs.len() == 0 {
        Seq::empty()
    } else {
        target_pairs(evs.drop_last()) + entry_pairs(evs.last(), evs.last().hazards)
    }
}

/// Every node of every hazard entry gives its pair.
pub proof fn lemma_entry_pairs_has(ev: FleetEventView, hs: Seq<HazardEntryView>)
    ensures
        forall|h: int, t: int|
            0 <= h < hs.len() && 0 <= t < hs[h].nodes_effected.len() ==> entry_pairs(ev, hs).contains(
                (#[trigger] hs[h].nodes_effected[t], source_for(ev, hs[h], hs[h].nodes_effected[t])),
            ),
    decreases hs.len(),
{
    if hs.len() > 0 {
        let init = hs.drop_last();
        lemma_entry_pairs_has(ev, init);
        let ep = entry_pairs(ev, hs);
        let prev = entry_pairs(ev, init);
        let np = node_pairs(ev, hs.last());
        assert(ep == prev + np);
        assert forall|h: int, t: int|
            0 <= h < hs.len() && 0 <= t < hs[h].nodes_effected.len() implies ep.contains(
                (#[trigger] hs[h].nodes_effected[t], source_for(ev, hs[h], hs[h].nodes_effected[t])),
            ) by {
            let p = (hs[h].nodes_effected[t], source_for(ev, hs[h], hs[h].nodes_effected[t]));
            if h < init.len() {
                assert(hs[h] == init[h]);
                assert(init[h].nodes_effected[t] == hs[h].nodes_effected[t]);
                let w = choose|w: int| 0 <= w < prev.len() && prev[w] == p;
                assert(ep[w] == p);
            } else {
                assert(hs[h] == hs.last());
                assert(np[t] == p);
                assert(ep[prev.len() + t] == p);
            }
        }
    }
}

/// Every node of every hazard entry of every event gives its pair.
pub proof fn lemma_target_pairs_has(evs: Seq<FleetEventView>)
    ensures
        forall|e: int, h: int, t: int|
            0 <= e < evs.len() && 0 <= h < evs[e].hazards.len() && 0 <= t < evs[e].hazards[h].nodes_effected.len()
                ==> target_pairs(evs).contains(
                (
                    #[trigger] evs[e].hazards[h].nodes_effected[t],
                    source_for(evs[e], evs[e].hazards[h], evs[e].hazards[h].nodes_effected[t]),
                ),
            ),
    decreases evs.len(),
{
    if evs.len() > 0 {
        let init = evs.drop_last();
        lemma_target_pairs_has(init);
        lemma_entry_pairs_has(evs.last(), evs.last().hazards);
        let tp = target_pairs(evs);
        let prev = target_pairs(init);
        let ep = entry_pairs(evs.last(), evs.last().hazards);
        assert(tp == prev + ep);
        assert forall|e: int, h: int, t: int|
            0 <= e < evs.len() && 0 <= h < evs[e].hazards.len() && 0 <= t < evs[e].hazards[h].nodes_effected.len()
                implies tp.contains(
                (
                    #[trigger] evs[e].hazards[h].nodes_effected[t],
                    source_for(evs[e], evs[e].hazards[h], evs[e].hazards[h].nodes_effected[t]),
                ),
            ) by {
            let p = (
                evs[e].hazards[h].nodes_effected[t],
                source_for(evs[e], evs[e].hazards[h], evs[e].hazards[h].nodes_effected[t]),
            );
            if e < init.len() {
                assert(evs[e] == init[e]);
                assert(init[e].hazards[h].nodes_effected[t] == evs[e].hazards[h].nodes_effected[t]);
                let w = choose|w: int| 0 <= w < prev.len() && prev[w] == p;
                assert(tp[w] == p);
            } else {
                assert(evs[e] == evs.last());
                assert(evs.last().hazards[h].nodes_effected[t] == evs[e].hazards[h].nodes_effected[t]);
                let w = choose|w: int| 0 <= w < ep.len() && ep[w] == p;
                assert(tp[prev.len() + w] == p);
            }
        }
    }
}

/// The game tables built from the four query results.
pub open spec fn db_of(
    events: Seq<Seq<Value>>,
    hazards: Seq<Seq<Value>>,
    ships: Seq<Seq<Value>>,
    mods: Seq<Seq<Value>>,
) -> DbDataView {
    let evs = events_of(events, hazard_list(hazards));
    DbDataView {
        rows: evs,
        ship_sprites: assoc_set_all(Seq::empty(), path_pairs(ships)),
        mod_icons: assoc_set_all(Seq::empty(), path_pairs(mods)),
        rows_by_galaxy: group_all(Seq::empty(), galaxy_pairs(evs)),
        hazards_by_target: group_all(Seq::empty(), target_pairs(evs)),
    }
}

/// The views of hazard entries with their parents.
pub open spec fn parented_views(v: Seq<(String, HazardEntry)>) -> Seq<(Seq<char>, HazardEntryView)> {
    v.map_values(|p: (String, HazardEntry)| (p.0@, p.1@))
}

fn hazard_of_row_exec(row: &Vec<Value>) -> (r: Option<(String, HazardEntry)>)
    ensures
        match r {
            Some(p) => hazard_of_row(row@) == Some((p.0@, p.1@)),
            None => hazard_of_row(row@) is None,
        },
{
    let parent = match cell_text_exec(row, 0) {
        Some(p) => p,
        None => return None,
    };
    let hazard_type = text_or_exec(cell_text_exec(row, 1), "?");
    let repeat = if 2 < row.len() {
        match row[2].as_int() {
            Some(i) => i != 0,
            None => false,
        }
    } else {
        false
    };
    let nodes_text = text_or_exec(cell_text_exec(row, 3), "[]");
    let nodes = fleet_event_targets(nodes_text.as_str());
    Some((parent, HazardEntry { hazard_type, repeat, nodes_effected: nodes }))
}

fn read_hazards(rows: &Vec<Vec<Value>>) -> (r: Vec<(String, HazardEntry)>)
    ensures
        parented_views(r@) == hazard_list(table_view(rows@)),
{
    let mut r: Vec<(String, HazardEntry)> = Vec::new();
    let mut i: usize = 0;
    while i < rows.len()
        invariant
            i <= rows.len(),
            parented_views(r@) == hazard_list(table_view(rows@).take(i as int)),
        decreases rows.len() - i,
    {
        assert(table_view(rows@).take(i + 1).drop_last() =~= table_view(rows@).take(i as int));
        assert(table_view(rows@).take(i + 1).last() == rows@[i as int]@);
        match hazard_of_row_exec(&rows[i]) {
            Some(h) => {
                let ghost before = r@;
                r.push(h);
                assert(parented_views(r@) =~= parented_views(before).push((h.0@, h.1@)));
            },
            None => {},
        }
        i = i + 1;
    }
    assert(table_view(rows@).take(rows.len() as int) =~= table_view(rows@));
    r
}

fn hazards_for(hz: &Vec<(String, HazardEntry)>, id: &Vec<char>) -> (r: Vec<HazardEntry>)
    ensures
        hazard_views(r@) == hazards_with_parent(parented_views(hz@), id@),
{
    let mut r: Vec<HazardEntry> = Vec::new();
    let mut i: usize = 0;
    while i < hz.len()
        invariant
            i <= hz.len(),
            hazard_views(r@) == hazards_with_parent(parented_views(hz@).take(i as int), id@),
        decreases hz.len() - i,
    {
        assert(parented_views(hz@).take(i + 1).drop_last() =~= parented_views(hz@).take(i as int));
        assert(parented_views(hz@).take(i + 1).last() == (hz@[i as int].0@, hz@[i as int].1@));
        let k = chars_of(hz[i].0.as_str());
        if chars_eq(&k, id) {
            let ghost before = r@;
            let e = hz[i].1.copy();
            r.push(e);
            assert(hazard_views(r@) =~= hazard_views(before).push(e@));
        }
        i = i + 1;
    }
    assert(parented_views(hz@).take(hz.len() as int) =~= parented_views(hz@));
    r
}

fn read_events(rows: &Vec<Vec<Value>>, hz: &Vec<(String, HazardEntry)>) -> (r: Vec<FleetEvent>)
    ensures
        event_views(r@) == events_of(table_view(rows@), parented_views(hz@)),
{
    let ghost t = table_view(rows@);
    let ghost h = parented_views(hz@);
    let mut r: Vec<FleetEvent> = Vec::new();
    let mut ids: Vec<Vec<char>> = Vec::new();
    let mut j: usize = 0;
    while j < rows.len()
        invariant
            j <= rows.len(),
            t == table_view(rows@),
            h == parented_views(hz@),
            r@.len() == j,
            ids@.len() == j,
            forall|k: int| 0 <= k < j ==> (#[trigger] r@[k])@ == event_of(t, h, k),
            forall|k: int| 0 <= k < j ==> (#[trigger] ids@[k])@ == event_id_of(t[k]),
        decreases rows.len() - j,
    {
        let row = &rows[j];
        assert(t[j as int] == row@);
        let id = text_or_exec(cell_text_exec(row, 0), "");
        let name = text_or_exec(cell_text_exec(row, 1), "");
        let idv = chars_of(id.as_str());
        let taken = seen_contains(&ids, &idv);
        proof {
            if taken {
                let k = choose|k: int| 0 <= k < vviews(ids@).len() && vviews(ids@)[k] == idv@;
                assert(ids@[k]@ == idv@);
                assert(!first_with_id(t, j as int));
            } else {
                assert forall|k: int| 0 <= k < j implies event_id_of(#[trigger] t[k]) != event_id_of(t[j as int]) by {
                    assert(vviews(ids@)[k] == ids@[k]@);
                }
            }
        }
        let hazards = if taken { Vec::new() } else { hazards_for(hz, &idv) };
        assert(hazard_views(hazards@) =~= event_of(t, h, j as int).hazards);
        r.push(FleetEvent { id, name, hazards });
        ids.push(idv);
        j = j + 1;
    }
    assert(event_views(r@) =~= events_of(t, h));
    r
}

fn read_paths(rows: &Vec<Vec<Value>>) -> (r: Vec<(String, String)>)
    ensures
        string_pairs(r@) == assoc_set_all(Seq::empty(), path_pairs(table_view(rows@))),
{
    let mut r: Vec<(String, String)> = Vec::new();
    let mut i: usize = 0;
    while i < rows.len()
        invariant
            i <= rows.len(),
            string_pairs(r@) == assoc_set_all(Seq::empty(), path_pairs(table_view(rows@).take(i as int))),
        decreases rows.len() - i,
    {
        let ghost pre = table_view(rows@).take(i as int);
        assert(table_view(rows@).take(i + 1).drop_last() =~= pre);
        assert(table_view(rows@).take(i + 1).last() == rows@[i as int]@);
        let ghost cur = table_view(rows@).take(i + 1);
        let ghost pp = path_pairs(cur);
        let row = &rows[i];
        match (cell_text_exec(row, 0), cell_text_exec(row, 1)) {
            (Some(id), Some(path)) => {
                if !path.as_str().is_empty() {
                    assert(path_pair(cur.last()) == Some((id@, path@)));
                    assert(pp.drop_last() =~= path_pairs(pre));
                    assert(pp.last() == (id@, path@));
                    set_string(&mut r, id, path);
                } else {
                    assert(path_pair(cur.last()) is None);
                    assert(pp == path_pairs(pre));
                }
            },
            _ => {
                assert(path_pair(cur.last()) is None);
                assert(pp == path_pairs(pre));
            },
        }
        i = i + 1;
    }
    assert(table_view(rows@).take(rows.len() as int) =~= table_view(rows@));
    r
}

fn group_galaxies(rows: &Vec<FleetEvent>) -> (r: Vec<(String, Vec<usize>)>)
    ensures
        group_view(r@) == group_all(Seq::empty(), galaxy_pairs(event_views(rows@))),
{
    let mut r: Vec<(String, Vec<usize>)> = Vec::new();
    let mut i: usize = 0;
    while i < rows.len()
        invariant
            i <= rows.len(),
            group_view(r@) == group_all(Seq::empty(), galaxy_pairs(event_views(rows@).take(i as int))),
        decreases rows.len() - i,
    {
        let ghost pre = event_views(rows@).take(i as int);
        let ghost cur = event_views(rows@).take(i + 1);
        assert(cur.drop_last() =~= pre);
        assert(cur.last() == rows@[i as int]@);
        assert(cur.len() - 1 == i);
        let ghost gp = galaxy_pairs(cur);
        match bucket_for(rows[i].id.as_str()) {
            Some(g) => {
                assert(gp.drop_last() =~= galaxy_pairs(pre));
                assert(gp.last() == (g@, i));
                group_push(&mut r, g, i);
            },
            None => {
                assert(gp == galaxy_pairs(pre));
            },
        }
        i = i + 1;
    }
    assert(event_views(rows@).take(rows.len() as int) =~= event_views(rows@));
    r
}

proof fn lemma_group_all_append<V>(m: Seq<(Seq<char>, Seq<V>)>, a: Seq<(Seq<char>, V)>, b: Seq<(Seq<char>, V)>)
    ensures
        group_all(m, a + b) == group_all(group_all(m, a), b),
    decreases b.len(),
{
    if b.len() == 0 {
        assert(a + b == a);
    } else {
        lemma_group_all_append(m, a, b.drop_last());
        assert((a + b).drop_last() == a + b.drop_last());
        assert((a + b).last() == b.last());
    }
}

fn group_targets(rows: &Vec<FleetEvent>) -> (r: Vec<(String, Vec<HazardSource>)>)
    ensures
        group_view(r@) == group_all(Seq::empty(), target_pairs(event_views(rows@))),
{
    let ghost evs = event_views(rows@);
    let mut r: Vec<(String, Vec<HazardSource>)> = Vec::new();
    let mut i: usize = 0;
    while i < rows.len()
        invariant
            i <= rows.len(),
            evs == event_views(rows@),
            group_view(r@) == group_all(Seq::empty(), target_pairs(evs.take(i as int))),
        decreases rows.len() - i,
    {
        let ev = &rows[i];
        let ghost evv = ev@;
        assert(evs[i as int] == evv);
        let ghost base = target_pairs(evs.take(i as int));
        let mut h: usize = 0;
        while h < ev.hazards.len()
            invariant
                h <= ev.hazards.len(),
                evv == ev@,
                group_view(r@) == group_all(group_all(Seq::empty(), base), entry_pairs(evv, evv.hazards.take(h as int))),
            decreases ev.hazards.len() - h,
        {
            let entry = &ev.hazards[h];
            let ghost hv = entry@;
            assert(evv.hazards[h as int] == hv);
            let ghost before = entry_pairs(evv, evv.hazards.take(h as int));
            let mut n: usize = 0;
            while n < entry.nodes_effected.len()
                invariant
                    n <= entry.nodes_effected.len(),
                    evv == ev@,
                    hv == entry@,
                    group_view(r@) == group_all(group_all(group_all(Seq::empty(), base), before), node_pairs(evv, hv).take(n as int)),
                decreases entry.nodes_effected.len() - n,
            {
                let tgt = &entry.nodes_effected[n];
                let ghost tv = tgt@;
                assert(hv.nodes_effected[n as int] == tv);
                let same = crate::text::str_eq(ev.id.as_str(), tgt.as_str());
                let src = HazardSource {
                    source_id: ev.id.clone(),
                    source_name: ev.name.clone(),
                    hazard_type: entry.hazard_type.clone(),
                    repeat: entry.repeat,
                    is_self: same,
                };
                assert(src@ == source_for(evv, hv, tv));
                group_push(&mut r, tgt.clone(), src);
                assert(node_pairs(evv, hv).take(n + 1).drop_last() =~= node_pairs(evv, hv).take(n as int));
                assert(node_pairs(evv, hv).take(n + 1).last() == (tv, source_for(evv, hv, tv)));
                n = n + 1;
            }
            proof {
                assert(node_pairs(evv, hv).take(n as int) =~= node_pairs(evv, hv));
                lemma_group_all_append(group_all(Seq::empty(), base), before, node_pairs(evv, hv));
                assert(evv.hazards.take(h + 1).drop_last() =~= evv.hazards.take(h as int));
                assert(evv.hazards.take(h + 1).last() == hv);
            }
            h = h + 1;
        }
        proof {
            assert(evv.hazards.take(h as int) =~= evv.hazards);
            lemma_group_all_append(Seq::empty(), base, entry_pairs(evv, evv.hazards));
            assert(evs.take(i + 1).drop_last() =~= evs.take(i as int));
            assert(evs.take(i + 1).last() == evv);
        }
        i = i + 1;
    }
    assert(evs.take(rows.len() as int) =~= evs);
    r
}

/// Builds the game tables from the results of the four queries, each a list of rows:
/// `events` (`id, name` of each fleet event), `hazards` (`parent, type, repeat,
/// nodes_effected`), `ships` (`id, sprite` of each player ship) and `mods` (`id, icon` of each
/// mod).
pub fn parse_db(
    events: &Vec<Vec<Value>>,
    hazards: &Vec<Vec<Value>>,
    ships: &Vec<Vec<Value>>,
    mods: &Vec<Vec<Value>>,
) -> (r: DbData)
    ensures
        r@ == db_of(table_view(events@), table_view(hazards@), table_view(ships@), table_view(mods@)),
{
    let hz = read_hazards(hazards);
    let rows = read_events(events, &hz);
    let ship_sprites = read_paths(ships);
    let mod_icons = read_paths(mods);
    let rows_by_galaxy = group_galaxies(&rows);
    let hazards_by_target = group_targets(&rows);
    DbData { rows, ship_sprites, mod_icons, rows_by_galaxy, hazards_by_target }
}

proof fn lemma_galaxy_pairs(evs: Seq<FleetEventView>)
    requires
        evs.len() <= usize::MAX,
    ensures
        forall|j: int| 0 <= j < galaxy_pairs(evs).len() ==> (#[trigger] galaxy_pairs(evs)[j]).1 < evs.len()
            && bucket_of(evs[galaxy_pairs(evs)[j].1 as int].id) == Some(galaxy_pairs(evs)[j].0),
    decreases evs.len(),
{
    if evs.len() > 0 {
        let init = evs.drop_last();
        lemma_galaxy_pairs(init);
        let prev = galaxy_pairs(init);
        let gp = galaxy_pairs(evs);
        assert forall|j: int| 0 <= j < gp.len() implies (#[trigger] gp[j]).1 < evs.len() && bucket_of(
            evs[gp[j].1 as int].id,
        ) == Some(gp[j].0) by {
            match bucket_of(evs.last().id) {
                Some(g) => {
                    assert(gp == prev.push((g, (evs.len() - 1) as usize)));
                    if j < prev.len() {
                        assert(gp[j] == prev[j]);
                        assert(evs[prev[j].1 as int] == init[prev[j].1 as int]);
                    } else {
                        assert(gp[j] == (g, (evs.len() - 1) as usize));
                        assert(evs.last() == evs[evs.len() - 1]);
                    }
                },
                None => {
                    assert(gp == prev);
                    assert(evs[prev[j].1 as int] == init[prev[j].1 as int]);
                },
            }
        }
    }
}

/// The tables built from any query results: every row index kept under a galaxy points at an
/// event row whose id carries that galaxy; no galaxy, target node, ship or mod is listed twice;
/// a ship's sprite and a mod's icon are those of the last row that names it; and a galaxy is
/// listed exactly when some event row carries it, with every such row, in row order.
pub proof fn law_db_tables(
    events: Seq<Seq<Value>>,
    hazards: Seq<Seq<Value>>,
    ships: Seq<Seq<Value>>,
    mods: Seq<Seq<Value>>,
)
    requires
        events.len() <= usize::MAX,
    ensures
        ({
            let d = db_of(events, hazards, ships, mods);
            &&& indices_valid(d)
            &&& forall|g: int, k: int|
                0 <= g < d.rows_by_galaxy.len() && 0 <= k < d.rows_by_galaxy[g].1.len() ==> bucket_of(
                    d.rows[#[trigger] d.rows_by_galaxy[g].1[k] as int].id,
                ) == Some(d.rows_by_galaxy[g].0)
            &&& keys_distinct(d.rows_by_galaxy)
            &&& keys_distinct(d.hazards_by_target)
            &&& keys_distinct(d.ship_sprites)
            &&& keys_distinct(d.mod_icons)
            &&& forall|k: Seq<char>| #[trigger] lookup(d.ship_sprites, k) == last_value(path_pairs(ships), k)
            &&& forall|k: Seq<char>| #[trigger] lookup(d.mod_icons, k) == last_value(path_pairs(mods), k)
            &&& forall|x: int| 0 <= x < d.rows_by_galaxy.len() ==> (#[trigger] d.rows_by_galaxy[x]).1 == rows_in(
                d.rows,
                d.rows_by_galaxy[x].0,
            )
            &&& forall|i: int|
                0 <= i < d.rows.len() && #[trigger] bucket_of(d.rows[i].id) is Some ==> exists|x: int|
                    0 <= x < d.rows_by_galaxy.len() && Some(d.rows_by_galaxy[x].0) == bucket_of(d.rows[i].id)
            &&& forall|g: Seq<char>, x: int, y: int|
                #![trigger rows_in(d.rows, g)[x], rows_in(d.rows, g)[y]]
                0 <= x < y < rows_in(d.rows, g).len() ==> rows_in(d.rows, g)[x] < rows_in(d.rows, g)[y]
            &&& forall|g: Seq<char>, i: int|
                0 <= i < d.rows.len() && bucket_of(d.rows[i].id) == Some(g) ==> #[trigger] rows_in(d.rows, g).contains(
                    i as usize,
                )
        }),
{
    lemma_db_galaxy_lists(events, hazards, ships, mods);
    let d = db_of(events, hazards, ships, mods);
    let evs = d.rows;
    let gp = galaxy_pairs(evs);
    law_group_all(gp);
    law_group_all(target_pairs(evs));
    law_assoc_set_all(path_pairs(ships));
    law_assoc_set_all(path_pairs(mods));
    lemma_galaxy_pairs(evs);
    assert forall|g: int, k: int|
        0 <= g < d.rows_by_galaxy.len() && 0 <= k < d.rows_by_galaxy[g].1.len() implies #[trigger] d.rows_by_galaxy[g].1[k]
        < d.rows.len() && bucket_of(d.rows[d.rows_by_galaxy[g].1[k] as int].id) == Some(d.rows_by_galaxy[g].0) by {
        let pair = (d.rows_by_galaxy[g].0, d.rows_by_galaxy[g].1[k]);
        assert(gp.contains(pair));
        let w = choose|w: int| 0 <= w < gp.len() && gp[w] == pair;
        assert(gp[w].1 < evs.len());
    }
}

/// The indices of the event rows whose id carries galaxy `g`, in row order.
pub open spec fn rows_in(evs: Seq<FleetEventView>, g: Seq<char>) -> Seq<usize>
    decreases evs.len(),
{
    if evs.len() == 0 {
        Seq::empty()
    } else if bucket_of(evs.last().id) == Some(g) {
        rows_in(evs.drop_last(), g).push((evs.len() - 1) as usize)
    } else {
        rows_in(evs.drop_last(), g)
    }
}

proof fn lemma_rows_in(evs: Seq<FleetEventView>, g: Seq<char>)
    requires
        evs.len() <= usize::MAX,
    ensures
        values_under(galaxy_pairs(evs), g) == rows_in(evs, g),
        forall|x: int| 0 <= x < rows_in(evs, g).len() ==> (#[trigger] rows_in(evs, g)[x]) < evs.len()
            && bucket_of(evs[rows_in(evs, g)[x] as int].id) == Some(g),
        forall|x: int, y: int| 0 <= x < y < rows_in(evs, g).len() ==> rows_in(evs, g)[x] < rows_in(evs, g)[y],
        forall|i: int| 0 <= i < evs.len() && bucket_of(evs[i].id) == Some(g) ==> rows_in(evs, g).contains(i as usize),
    decreases evs.len(),
{
    if evs.len() > 0 {
        let init = evs.drop_last();
        lemma_rows_in(init, g);
        let prev = rows_in(init, g);
        let last = (evs.len() - 1) as usize;
        assert forall|q: int| 0 <= q < init.len() implies #[trigger] evs[q] == init[q] by {}
        match bucket_of(evs.last().id) {
            Some(b) => {
                assert(galaxy_pairs(evs) == galaxy_pairs(init).push((b, last)));
                assert(galaxy_pairs(evs).drop_last() == galaxy_pairs(init));
            },
            None => {
                assert(galaxy_pairs(evs) == galaxy_pairs(init));
            },
        }
        let cur = rows_in(evs, g);
        if bucket_of(evs.last().id) == Some(g) {
            assert(cur == prev.push(last));
            assert forall|x: int| 0 <= x < cur.len() implies (#[trigger] cur[x]) < evs.len()
                && bucket_of(evs[cur[x] as int].id) == Some(g) by {
                if x < prev.len() {
                    assert(cur[x] == prev[x]);
                } else {
                    assert(evs[last as int] == evs.last());
                }
            }
            assert forall|x: int, y: int| 0 <= x < y < cur.len() implies cur[x] < cur[y] by {
                assert(cur[x] == prev[x]);
                if y < prev.len() {
                    assert(cur[y] == prev[y]);
                }
            }
            assert forall|i: int| 0 <= i < evs.len() && bucket_of(evs[i].id) == Some(g) implies cur.contains(
                i as usize,
            ) by {
                if i < init.len() {
                    let w = choose|w: int| 0 <= w < prev.len() && prev[w] == i as usize;
                    assert(cur[w] == i as usize);
                } else {
                    assert(cur[prev.len() as int] == i as usize);
                }
            }
        } else {
            assert(cur == prev);
            assert forall|i: int| 0 <= i < evs.len() && bucket_of(evs[i].id) == Some(g) implies cur.contains(
                i as usize,
            ) by {
                if i == evs.len() - 1 {
                    assert(evs[i] == evs.last());
                }
            }
        }
    }
}

proof fn lemma_db_galaxy_lists(
    events: Seq<Seq<Value>>,
    hazards: Seq<Seq<Value>>,
    ships: Seq<Seq<Value>>,
    mods: Seq<Seq<Value>>,
)
    requires
        events.len() <= usize::MAX,
    ensures
        ({
            let d = db_of(events, hazards, ships, mods);
            &&& forall|x: int| 0 <= x < d.rows_by_galaxy.len() ==> (#[trigger] d.rows_by_galaxy[x]).1 == rows_in(
                d.rows,
                d.rows_by_galaxy[x].0,
            )
            &&& forall|i: int|
                0 <= i < d.rows.len() && #[trigger] bucket_of(d.rows[i].id) is Some ==> exists|x: int|
                    0 <= x < d.rows_by_galaxy.len() && Some(d.rows_by_galaxy[x].0) == bucket_of(d.rows[i].id)
            &&& forall|g: Seq<char>, x: int, y: int|
                #![trigger rows_in(d.rows, g)[x], rows_in(d.rows, g)[y]]
                0 <= x < y < rows_in(d.rows, g).len() ==> rows_in(d.rows, g)[x] < rows_in(d.rows, g)[y]
            &&& forall|g: Seq<char>, i: int|
                0 <= i < d.rows.len() && bucket_of(d.rows[i].id) == Some(g) ==> #[trigger] rows_in(d.rows, g).contains(
                    i as usize,
                )
        }),
{
    let d = db_of(events, hazards, ships, mods);
    let evs = d.rows;
    let gp = galaxy_pairs(evs);
    law_group_all_lists(gp);
    assert forall|x: int| 0 <= x < d.rows_by_galaxy.len() implies (#[trigger] d.rows_by_galaxy[x]).1 == rows_in(
        evs,
        d.rows_by_galaxy[x].0,
    ) by {
        lemma_rows_in(evs, d.rows_by_galaxy[x].0);
    }
    assert forall|i: int| 0 <= i < evs.len() && #[trigger] bucket_of(evs[i].id) is Some implies exists|x: int|
        0 <= x < d.rows_by_galaxy.len() && Some(d.rows_by_galaxy[x].0) == bucket_of(evs[i].id) by {
        let g = bucket_of(evs[i].id).unwrap();
        lemma_rows_in(evs, g);
        assert(rows_in(evs, g).contains(i as usize));
        assert(values_under(gp, g).len() > 0);
        let gr = group_all(Seq::<(Seq<char>, Seq<usize>)>::empty(), gp);
        assert(d.rows_by_galaxy == gr);
        let x = choose|x: int| 0 <= x < gr.len() && gr[x].0 == g;
        assert(Some(d.rows_by_galaxy[x].0) == bucket_of(evs[i].id));
    }
    assert forall|g: Seq<char>, x: int, y: int|
        #![trigger rows_in(evs, g)[x], rows_in(evs, g)[y]]
        0 <= x < y < rows_in(evs, g).len() implies rows_in(evs, g)[x] < rows_in(evs, g)[y] by {
        lemma_rows_in(evs, g);
    }
    assert forall|g: Seq<char>, i: int| 0 <= i < evs.len() && bucket_of(evs[i].id) == Some(g) implies #[trigger] rows_in(
        evs,
        g,
    ).contains(i as usize) by {
        lemma_rows_in(evs, g);
    }
}

} // verus!
