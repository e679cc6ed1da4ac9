use fleet_suggest::fleet_data::{csv_header, csv_row, escape_csv, read_table, value_to_string, CellValue};

#[test]
fn csv_escaping() {
    assert_eq!(escape_csv("plain"), "plain");
    assert_eq!(escape_csv("a,b"), "\"a,b\"");
    assert_eq!(escape_csv("say \"hi\""), "\"say \"\"hi\"\"\"");
    assert_eq!(escape_csv("two\nlines"), "\"two\nlines\"");
    assert_eq!(escape_csv(""), "");
}

#[test]
fn cell_texts() {
    assert_eq!(value_to_string(&CellValue::Null), "");
    assert_eq!(value_to_string(&CellValue::Str("x".to_string())), "x");
    assert_eq!(value_to_string(&CellValue::Bool(true)), "true");
    assert_eq!(value_to_string(&CellValue::Bool(false)), "false");
    assert_eq!(value_to_string(&CellValue::Number("1.5".to_string())), "1.5");
    assert_eq!(value_to_string(&CellValue::Other("[1,2]".to_string())), "[1,2]");
}

#[test]
fn header_and_rows() {
    let cols = vec!["id".to_string(), "a,b".to_string(), "n".to_string()];
    assert_eq!(csv_header(&cols), "id,\"a,b\",n");
    let line = vec![
        ("n".to_string(), CellValue::Number("3".to_string())),
        ("id".to_string(), CellValue::Str("x,y".to_string())),
    ];
    assert_eq!(csv_row(&cols, &line), "\"x,y\",,3");
}

fn read_back(cell: &str) -> String {
    let c: Vec<char> = cell.chars().collect();
    if c.len() >= 2 && c[0] == '"' && c[c.len() - 1] == '"' {
        c[1..c.len() - 1].iter().collect::<String>().replace("\"\"", "\"")
    } else {
        cell.to_string()
    }
}

#[test]
fn escaped_cells_read_back() {
    for s in ["plain", "a,b", "\"", "say \"hi\", twice", "x\ny", "", "\"\"\""] {
        assert_eq!(read_back(&escape_csv(s)), s);
    }
}

#[test]
fn table_from_exported_json() {
    let text = r#"{"columns":[{"name":"id","w":3},{"name":"n"},{"name":"x"}],
        "lines":[{"id":"g1,b","n":12.5,"x":null,"o":[1,2]},{"id":"q\"t","n":true}],"extra":1}"#;
    let (cols, rows) = read_table(text).unwrap();
    assert_eq!(cols, vec!["id".to_string(), "n".to_string(), "x".to_string()]);
    assert_eq!(rows.len(), 2);
    assert_eq!(csv_row(&cols, &rows[0]), "\"g1,b\",12.5,");
    assert_eq!(csv_row(&cols, &rows[1]), "\"q\"\"t\",true,");
    assert_eq!(
        rows[0],
        vec![
            ("id".to_string(), CellValue::Str("g1,b".to_string())),
            ("n".to_string(), CellValue::Other("12.5".to_string())),
            ("o".to_string(), CellValue::Other("[1,2]".to_string())),
            ("x".to_string(), CellValue::Null),
        ]
    );
}

#[test]
fn malformed_tables_are_refused() {
    assert!(read_table("[]").is_none());
    assert!(read_table("not json").is_none());
    assert!(read_table(r#"{"columns":[{"name":1}],"lines":[]}"#).is_none());
    assert!(read_table(r#"{"columns":[],"lines":[3]}"#).is_none());
    assert!(read_table(r#"{"columns":[]}"#).is_none());
    assert!(read_table(r#"{"columns":"[]","lines":[]}"#).is_none());
    let (c, r) = read_table(r#"{"columns":[],"lines":[]}"#).unwrap();
    assert!(c.is_empty() && r.is_empty());
}
