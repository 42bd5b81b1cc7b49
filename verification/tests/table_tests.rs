use grader::table::{pad, Row, Table};

#[test]
fn new_table_widths_are_header_lengths() {
    let t = Table::new(&["File", "Status"]);
    assert_eq!(t.len(), 0);
    assert_eq!(t.headers_text(), "\x1b[90mFile\x1b[39m  \x1b[90mStatus\x1b[39m");
}

#[test]
fn add_row_widens_columns() {
    let mut t = Table::new(&["File", "Status"]);
    assert_eq!(t.add_row(&["main.c", "..."]), 0);
    assert_eq!(t.add_row(&["a.c", "ok"]), 1);
    assert_eq!(t.len(), 2);
    assert_eq!(t.headers_text(), "\x1b[90mFile  \x1b[39m  \x1b[90mStatus\x1b[39m");
    assert_eq!(t.row_text_at(0), "main.c  ...   ");
    assert_eq!(t.row_text_at(1), "a.c     ok    ");
    assert_eq!(
        t.display(),
        "\x1b[90mFile  \x1b[39m  \x1b[90mStatus\x1b[39m\nmain.c  ...   \na.c     ok    \n"
    );
}

#[test]
fn widths_count_bytes_padding_counts_chars() {
    let mut t = Table::new(&["N"]);
    t.add_row(&["é"]);
    assert_eq!(t.row_text_at(0), "é ");
    assert_eq!(pad("é", 2), format!("{:<2}", "é"));
}

#[test]
fn update_row_keeps_widths() {
    let mut t = Table::new(&["Name", "Status"]);
    t.add_row(&["a", "..."]);
    t.add_row(&["b", "..."]);
    let line = t.update_row(0, 1, "unchanged".to_string());
    assert_eq!(line, "a     unchanged");
    assert_eq!(t.rows_below(0), 1);
    assert_eq!(t.rows_below(1), 0);
}

#[test]
fn row_text_of_a_longer_row_uses_zero_width() {
    let t = Table::new(&["A"]);
    let r = Row { cols: vec!["x".to_string(), "y".to_string()] };
    assert_eq!(t.row_text(&r), "x  y");
}

#[test]
fn pad_like_format() {
    for (s, w) in [("abc", 5usize), ("abcdef", 3), ("", 2), ("x", 1)] {
        assert_eq!(pad(s, w), format!("{:<w$}", s));
    }
}

#[test]
fn widths_are_the_widest_header_or_cell() {
    let mut t = Table::new(&["Name", "Score"]);
    t.add_row(&["Al", "10"]);
    t.add_row(&["Bartholomew", "7"]);
    t.add_row(&["Cy", "100000"]);
    assert_eq!(t.row_text_at(0), "Al           10    ");
    assert_eq!(t.headers_text(), "\x1b[90mName       \x1b[39m  \x1b[90mScore \x1b[39m");
}

#[test]
fn with_rows_widens_to_the_widest_cell() {
    let rows = vec![
        vec!["a.c".to_string(), "ok".to_string()],
        vec!["longer_name.c".to_string(), "..".to_string()],
        vec!["b.c".to_string(), "compiled".to_string()],
    ];
    let t = Table::with_rows(&["File", "Status"], &rows);
    assert_eq!(t.len(), 3);
    assert_eq!(t.row_text_at(0), "a.c            ok      ");
    assert_eq!(t.row_text_at(1), "longer_name.c  ..      ");
    let mut u = Table::new(&["File", "Status"]);
    for r in &rows {
        u.add_row(&[r[0].as_str(), r[1].as_str()]);
    }
    assert_eq!(t.display(), u.display());
    let empty = Table::with_rows(&["File", "Status"], &vec![]);
    assert_eq!(empty.display(), Table::new(&["File", "Status"]).display());
}
