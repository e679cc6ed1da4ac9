//! Turning the exported fleet-event table into CSV text.
use vstd::prelude::*;
use crate::text::{chars_of, has_char, join, push_chars, push_str, views};
use crate::keyed::{find_key_str, key_pos, keys_of, lookup};
use crate::db::{json_doc, parse_json_doc, JsonDoc, JsonItem, JsonLeaf};

verus! {

broadcast use vstd::seq_lib::group_seq_properties;

/// A field written as a CSV cell: quoted, with each `"` doubled, when it holds `,`, `"` or a
/// newline; as it is otherwise.
pub open spec fn csv_escaped(s: Seq<char>) -> Seq<char> {
    if s.contains(',') || s.contains('"') || s.contains('\n') {
        seq!['"'] + doubled_quotes(s) + seq!['"']
    } else {
        s
    }
}

/// `s` with each `"` written twice.
pub open spec fn doubled_quotes(s: Seq<char>) -> Seq<char>
    decreases s.len(),
{
    if s.len() == 0 {
        Seq::empty()
    } else {
        doubled_quotes(s.drop_last()) + if s.last() == '"' { seq!['"', '"'] } else { seq![s.last()] }
    }
}

/// A field written as a CSV cell.
pub fn escape_csv(s: &str) -> (r: String)
    ensures
        r@ == csv_escaped(s@),
{
    let v = chars_of(s);
    if has_char(&v, ',') || has_char(&v, '"') || has_char(&v, '\n') {
        let mut out = String::new();
        out.push('"');
        let ghost head = out@;
        let mut i: usize = 0;
        while i < v.len()
            invariant
                i <= v.len(),
                out@ == head + doubled_quotes(v@.take(i as int)),
            decreases v.len() - i,
        {
            assert(v@.take(i + 1).drop_last() =~= v@.take(i as int));
            assert(v@.take(i + 1).last() == v[i as int]);
            if v[i] == '"' {
                out.push('"');
                out.push('"');
            } else {
                out.push(v[i]);
            }
            assert(out@ =~= head + doubled_quotes(v@.take(i + 1)));
            i = i + 1;
        }
        assert(v@.take(v.len() as int) =~= v@);
        out.push('"');
        assert(out@ =~= csv_escaped(s@));
        out
    } else {
        crate::text::string_of(&v)
    }
}

/// A JSON cell of the exported table, by what its CSV text is made from: nothing, a string, a
/// boolean, a number (by its JSON text), or any other value (by its JSON text).
#[derive(Clone, Debug, PartialEq)]
pub enum CellValue {
    Null,
    Str(String),
    Bool(bool),
    Number(String),
    Other(String),
}

/// The text of a cell: empty for null, the string itself, `true`/`false`, or the JSON text.
pub open spec fn cell_text_of(v: CellValue) -> Seq<char> {
    match v {
        CellValue::Null => Seq::empty(),
        CellValue::Str(s) => s@,
        CellValue::Bool(b) => if b { "true"@ } else { "false"@ },
        CellValue::Number(n) => n@,
        CellValue::Other(t) => t@,
    }
}

/// The text of a cell.
pub fn value_to_string(v: &CellValue) -> (r: String)
    ensures
        r@ == cell_text_of(*v),
{
    match v {
        CellValue::Null => String::new(),
        CellValue::Str(s) => s.clone(),
        CellValue::Bool(b) => if *b { crate::text::owned("true") } else { crate::text::owned("false") },
        CellValue::Number(n) => n.clone(),
        CellValue::Other(t) => t.clone(),
    }
}

/// The views of a list of cells keyed by column name.
pub open spec fn record_view(line: Seq<(String, CellValue)>) -> Seq<(Seq<char>, CellValue)> {
    line.map_values(|p: (String, CellValue)| (p.0@, p.1))
}

/// The CSV header line: the escaped column names separated by `,`.
pub open spec fn csv_header_of(columns: Seq<Seq<char>>) -> Seq<char> {
    join(columns.map_values(|c: Seq<char>| csv_escaped(c)), ","@)
}

/// The CSV line of a record: for each column, the escaped text of the record's cell under that
/// name (a missing cell reads as null), separated by `,`.
pub open spec fn csv_row_of(columns: Seq<Seq<char>>, line: Seq<(Seq<char>, CellValue)>) -> Seq<char> {
    join(
        columns.map_values(|c: Seq<char>| csv_escaped(match lookup(line, c) {
            Some(v) => cell_text_of(v),
            None => Seq::empty(),
        })),
        ","@,
    )
}

/// The CSV header line.
pub fn csv_header(columns: &Vec<String>) -> (r: String)
    ensures
        r@ == csv_header_of(views(columns@)),
{
    let ghost parts = views(columns@).map_values(|c: Seq<char>| csv_escaped(c));
    let mut r = String::new();
    let mut i: usize = 0;
    while i < columns.len()
        invariant
            i <= columns.len(),
            parts == views(columns@).map_values(|c: Seq<char>| csv_escaped(c)),
            r@ == join(parts.take(i as int), ","@),
        decreases columns.len() - i,
    {
        assert(parts.take(i + 1).drop_last() =~= parts.take(i as int));
        if i > 0 {
            push_str(&mut r, ",");
        }
        let e = escape_csv(columns[i].as_str());
        push_str(&mut r, e.as_str());
        assert(parts.take(i + 1).last() == e@);
        if i == 0 {
            assert(parts.take(1) =~= seq![e@]);
        }
        i = i + 1;
    }
    assert(parts.take(columns.len() as int) =~= parts);
    r
}

/// The CSV line of a record.
pub fn csv_row(columns: &Vec<String>, line: &Vec<(String, CellValue)>) -> (r: String)
    ensures
        r@ == csv_row_of(views(columns@), record_view(line@)),
{
    let ghost lv = record_view(line@);
    assert(keys_of(lv) =~= line@.map_values(|p: (String, CellValue)| p.0@));
    let ghost parts = views(columns@).map_values(|c: Seq<char>| csv_escaped(match lookup(lv, c) {
        Some(v) => cell_text_of(v),
        None => Seq::empty(),
    }));
    let mut r = String::new();
    let mut i: usize = 0;
    while i < columns.len()
        invariant
            i <= columns.len(),
            lv == record_view(line@),
            keys_of(lv) == line@.map_values(|p: (String, CellValue)| p.0@),
            parts == views(columns@).map_values(|c: Seq<char>| csv_escaped(match lookup(lv, c) {
                Some(v) => cell_text_of(v),
                None => Seq::empty(),
            })),
            r@ == join(parts.take(i as int), ","@),
        decreases columns.len() - i,
    {
        assert(parts.take(i + 1).drop_last() =~= parts.take(i as int));
        if i > 0 {
            push_str(&mut r, ",");
        }
        let text = match find_key_str(line, columns[i].as_str()) {
            Some(j) => value_to_string(&line[j].1),
            None => String::new(),
        };
        let e = escape_csv(text.as_str());
        push_str(&mut r, e.as_str());
        assert(parts.take(i + 1).last() == e@);
        if i == 0 {
            assert(parts.take(1) =~= seq![e@]);
        }
        i = i + 1;
    }
    assert(parts.take(columns.len() as int) =~= parts);
    r
}

/// A CSV text with each `""` read as one `"`, from the left.
pub open spec fn undoubled(s: Seq<char>) -> Seq<char>
    decreases s.len(),
{
    if s.len() == 0 {
        Seq::empty()
    } else if s.len() >= 2 && s[0] == '"' && s[1] == '"' {
        seq!['"'] + undoubled(s.skip(2))
    } else {
        seq![s[0]] + undoubled(s.drop_first())
    }
}

/// The field a CSV cell holds: a quoted cell loses its quotes and has each `""` read as `"`;
/// any other cell is the field itself.
pub open spec fn csv_field(cell: Seq<char>) -> Seq<char> {
    if cell.len() >= 2 && cell[0] == '"' && cell[cell.len() - 1] == '"' {
        undoubled(cell.subrange(1, cell.len() - 1))
    } else {
        cell
    }
}

proof fn lemma_doubled_add(a: Seq<char>, b: Seq<char>)
    ensures
        doubled_quotes(a + b) == doubled_quotes(a) + doubled_quotes(b),
    decreases b.len(),
{
    if b.len() == 0 {
        assert(a + b =~= a);
        assert(doubled_quotes(a) + doubled_quotes(b) =~= doubled_quotes(a));
    } else {
        lemma_doubled_add(a, b.drop_last());
        assert((a + b).drop_last() =~= a + b.drop_last());
        assert((a + b).last() == b.last());
        let t = if b.last() == '"' { seq!['"', '"'] } else { seq![b.last()] };
        assert(doubled_quotes(a) + doubled_quotes(b.drop_last()) + t =~= doubled_quotes(a) + (
        doubled_quotes(b.drop_last()) + t));
    }
}

proof fn lemma_undoubled_doubled(s: Seq<char>)
    ensures
        undoubled(doubled_quotes(s)) == s,
    decreases s.len(),
{
    if s.len() > 0 {
        let x = s[0];
        let rest = s.drop_first();
        assert(s =~= seq![x] + rest);
        lemma_doubled_add(seq![x], rest);
        lemma_undoubled_doubled(rest);
        assert(seq![x].drop_last() =~= Seq::<char>::empty());
        assert(seq![x].last() == x);
        assert(doubled_quotes(Seq::<char>::empty()) == Seq::<char>::empty());
        let d = doubled_quotes(s);
        if x == '"' {
            assert(doubled_quotes(seq![x]) =~= seq!['"', '"']);
            assert(d.skip(2) =~= doubled_quotes(rest));
        } else {
            assert(doubled_quotes(seq![x]) =~= seq![x]);
            assert(d.drop_first() =~= doubled_quotes(rest));
        }
        assert(undoubled(d) =~= s);
    }
}

/// Reading back a CSV cell gives the field that was written: escaping loses nothing.
pub proof fn law_csv_round_trip(s: Seq<char>)
    ensures
        csv_field(csv_escaped(s)) == s,
{
    if s.contains(',') || s.contains('"') || s.contains('\n') {
        let e = csv_escaped(s);
        lemma_undoubled_doubled(s);
        assert(e.subrange(1, e.len() - 1) =~= doubled_quotes(s));
    } else {
        if s.len() >= 2 && s[0] == '"' {
            assert(s.contains('"'));
        }
    }
}

/// The member named `key` of an object's members, if any.
pub open spec fn field(fields: Seq<(String, JsonLeaf)>, key: Seq<char>) -> Option<JsonLeaf> {
    match key_pos(fields.map_values(|p: (String, JsonLeaf)| p.0@), key) {
        Some(i) => Some(fields[i].1),
        None => None,
    }
}

/// The items of a member that is a JSON array (read back from its JSON text).
pub open spec fn array_items(leaf: Option<JsonLeaf>) -> Option<Seq<JsonItem>> {
    match leaf {
        Some(JsonLeaf::Other(t)) => match json_doc(t@) {
            Some(JsonDoc::Array(items)) => Some(items@),
            _ => None,
        },
        _ => None,
    }
}

/// The name of a column item: its string member `name`.
pub open spec fn column_name(item: JsonItem) -> Option<Seq<char>> {
    match item {
        JsonItem::Object(f) => match field(f@, "name"@) {
            Some(JsonLeaf::Str(s)) => Some(s@),
            _ => None,
        },
        JsonItem::Other => None,
    }
}

/// The column names, when every column item has one.
pub open spec fn column_names(items: Seq<JsonItem>) -> Option<Seq<Seq<char>>> {
    if forall|i: int| 0 <= i < items.len() ==> (#[trigger] column_name(items[i])) is Some {
        Some(Seq::new(items.len(), |i: int| column_name(items[i]).unwrap()))
    } else {
        None
    }
}

/// The members of a line item, when it is an object.
pub open spec fn record_fields(item: JsonItem) -> Option<Seq<(String, JsonLeaf)>> {
    match item {
        JsonItem::Object(f) => Some(f@),
        JsonItem::Other => None,
    }
}

/// The members of each line, when every line item is an object.
pub open spec fn line_records(items: Seq<JsonItem>) -> Option<Seq<Seq<(String, JsonLeaf)>>> {
    if forall|i: int| 0 <= i < items.len() ==> (#[trigger] record_fields(items[i])) is Some {
        Some(Seq::new(items.len(), |i: int| record_fields(items[i]).unwrap()))
    } else {
        None
    }
}

/// The table of an exported data document: an object whose `columns` member is an array of
/// objects with a string `name`, and whose `lines` member is an array of objects. Anything else
/// is refused (`None`).
pub open spec fn table_of(doc: Option<JsonDoc>) -> Option<(Seq<Seq<char>>, Seq<Seq<(String, JsonLeaf)>>)> {
    match doc {
        Some(JsonDoc::Object(f)) => match (array_items(field(f@, "columns"@)), array_items(field(f@, "lines"@))) {
            (Some(c), Some(l)) => match (column_names(c), line_records(l)) {
                (Some(names), Some(recs)) => Some((names, recs)),
                _ => None,
            },
            _ => None,
        },
        _ => None,
    }
}

/// A cell read from a JSON member: null (JSON text `null`), a string, or any other value by its
/// JSON text.
pub open spec fn cell_matches(c: CellValue, l: JsonLeaf) -> bool {
    match (c, l) {
        (CellValue::Null, JsonLeaf::Other(t)) => t@ == "null"@,
        (CellValue::Str(a), JsonLeaf::Str(b)) => a@ == b@,
        (CellValue::Other(a), JsonLeaf::Other(b)) => a@ == b@ && b@ != "null"@,
        _ => false,
    }
}

/// Each row holds the cells of its line's members, by name, in the same order.
pub open spec fn rows_match(rows: Seq<Vec<(String, CellValue)>>, recs: Seq<Seq<(String, JsonLeaf)>>) -> bool {
    &&& rows.len() == recs.len()
    &&& forall|i: int| 0 <= i < rows.len() ==> (#[trigger] rows[i])@.len() == recs[i].len()
    &&& forall|i: int, j: int| 0 <= i < rows.len() && 0 <= j < recs[i].len() ==> (#[trigger] rows[i]@[j]).0@
        == recs[i][j].0@ && cell_matches(rows[i]@[j].1, recs[i][j].1)
}

fn member_array(fields: &Vec<(String, JsonLeaf)>, key: &str) -> (r: Option<Vec<JsonItem>>)
    ensures
        match r {
            Some(v) => array_items(field(fields@, key@)) == Some(v@),
            None => array_items(field(fields@, key@)) is None,
        },
{
    match find_key_str(fields, key) {
        None => None,
        Some(i) => match &fields[i].1 {
            JsonLeaf::Other(t) => match parse_json_doc(t.as_str()) {
                Some(JsonDoc::Array(items)) => Some(items),
                _ => None,
            },
            JsonLeaf::Str(_) => None,
        },
    }
}

fn read_columns(items: &Vec<JsonItem>) -> (r: Option<Vec<String>>)
    ensures
        match r {
            Some(v) => column_names(items@) == Some(views(v@)),
            None => column_names(items@) is None,
        },
{
    let mut names: Vec<String> = Vec::new();
    let mut i: usize = 0;
    while i < items.len()
        invariant
            i <= items.len(),
            names@.len() == i,
            forall|k: int| 0 <= k < i ==> (#[trigger] column_name(items@[k])) == Some(names@[k]@),
        decreases items.len() - i,
    {
        match &items[i] {
            JsonItem::Object(f) => match find_key_str(f, "name") {
                Some(j) => match &f[j].1 {
                    JsonLeaf::Str(n) => {
                        names.push(n.clone());
                    },
                    JsonLeaf::Other(_) => {
                        assert(column_name(items@[i as int]) is None);
                        return None;
                    },
                },
                None => {
                    assert(column_name(items@[i as int]) is None);
                    return None;
                },
            },
            JsonItem::Other => {
                assert(column_name(items@[i as int]) is None);
                return None;
            },
        }
        i = i + 1;
    }
    assert(views(names@) =~= Seq::new(items@.len(), |k: int| column_name(items@[k]).unwrap()));
    Some(names)
}

fn cell_of_leaf(l: &JsonLeaf) -> (r: CellValue)
    ensures
        cell_matches(r, *l),
{
    match l {
        JsonLeaf::Str(s) => CellValue::Str(s.clone()),
        JsonLeaf::Other(t) => {
            proof {
                reveal_strlit("null");
            }
            if crate::text::str_eq(t.as_str(), "null") {
                CellValue::Null
            } else {
                CellValue::Other(t.clone())
            }
        },
    }
}

fn read_record(f: &Vec<(String, JsonLeaf)>) -> (r: Vec<(String, CellValue)>)
    ensures
        r@.len() == f@.len(),
        forall|j: int| 0 <= j < f@.len() ==> (#[trigger] r@[j]).0@ == f@[j].0@ && cell_matches(r@[j].1, f@[j].1),
{
    let mut r: Vec<(String, CellValue)> = Vec::new();
    let mut j: usize = 0;
    while j < f.len()
        invariant
            j <= f@.len(),
            r@.len() == j,
            forall|k: int| 0 <= k < j ==> (#[trigger] r@[k]).0@ == f@[k].0@ && cell_matches(r@[k].1, f@[k].1),
        decreases f@.len() - j,
    {
        let c = cell_of_leaf(&f[j].1);
        r.push((f[j].0.clone(), c));
        j = j + 1;
    }
    r
}

fn read_records(items: &Vec<JsonItem>) -> (r: Option<Vec<Vec<(String, CellValue)>>>)
    ensures
        match (r, line_records(items@)) {
            (Some(rows), Some(recs)) => rows_match(rows@, recs),
            (None, None) => true,
            _ => false,
        },
{
    let mut rows: Vec<Vec<(String, CellValue)>> = Vec::new();
    let mut i: usize = 0;
    while i < items.len()
        invariant
            i <= items.len(),
            rows@.len() == i,
            forall|k: int| 0 <= k < i ==> (#[trigger] record_fields(items@[k])) is Some,
            forall|k: int| 0 <= k < i ==> (#[trigger] rows@[k])@.len() == record_fields(items@[k]).unwrap().len(),
            forall|k: int, j: int| 0 <= k < i && 0 <= j < record_fields(items@[k]).unwrap().len() ==> (#[trigger] rows@[k]@[j]).0@
                == record_fields(items@[k]).unwrap()[j].0@ && cell_matches(rows@[k]@[j].1, record_fields(items@[k]).unwrap()[j].1),
        decreases items.len() - i,
    {
        match &items[i] {
            JsonItem::Object(f) => {
                let row = read_record(f);
                rows.push(row);
            },
            JsonItem::Other => {
                assert(record_fields(items@[i as int]) is None);
                return None;
            },
        }
        i = i + 1;
    }
    proof {
        let recs = Seq::new(items@.len(), |k: int| record_fields(items@[k]).unwrap());
        assert(line_records(items@) == Some(recs));
        assert forall|k: int| 0 <= k < rows@.len() implies (#[trigger] rows@[k])@.len() == recs[k].len() by {}
        assert forall|k: int, j: int| 0 <= k < rows@.len() && 0 <= j < recs[k].len() implies (#[trigger] rows@[k]@[j]).0@
            == recs[k][j].0@ && cell_matches(rows@[k]@[j].1, recs[k][j].1) by {}
    }
    Some(rows)
}

/// The column names and the rows of a parsed data document, or `None` when it is not an
/// object with an array `columns` of named objects and an array `lines` of objects.
pub fn table_from_doc(doc: &Option<JsonDoc>) -> (r: Option<(Vec<String>, Vec<Vec<(String, CellValue)>>)>)
    ensures
        match (r, table_of(*doc)) {
            (Some((cols, rows)), Some((names, recs))) => views(cols@) == names && rows_match(rows@, recs),
            (None, None) => true,
            _ => false,
        },
{
    match doc {
        Some(JsonDoc::Object(f)) => {
            let cols = member_array(f, "columns");
            let lines = member_array(f, "lines");
            match (cols, lines) {
                (Some(c), Some(l)) => match (read_columns(&c), read_records(&l)) {
                    (Some(names), Some(rows)) => Some((names, rows)),
                    _ => None,
                },
                _ => None,
            }
        },
        _ => None,
    }
}

/// Reads the exported data file: its column names and, for each line, its cells by name.
pub fn read_table(text: &str) -> (r: Option<(Vec<String>, Vec<Vec<(String, CellValue)>>)>)
    ensures
        match (r, table_of(json_doc(text@))) {
            (Some((cols, rows)), Some((names, recs))) => views(cols@) == names && rows_match(rows@, recs),
            (None, None) => true,
            _ => false,
        },
{
    let doc = parse_json_doc(text);
    table_from_doc(&doc)
}

} // verus!
