use cjdnstool::text::{exe_name_of, padded_lines, PushField};

fn row<const N: usize>(cells: [&str; N]) -> [String; N] {
    cells.map(|c| c.to_string())
}

#[test]
fn push_field_separates_with_spaces() {
    let mut s = String::new();
    s.push_field("a");
    assert_eq!(s, "a");
    s.push_field("bc");
    assert_eq!(s, "a bc");
    s.push_field("");
    assert_eq!(s, "a bc ");
}

#[test]
fn padded_lines_align_columns() {
    let lines = vec![
        row(["a", "bbb", "c"]),
        row(["dddd", "e", ""]),
        row(["f", "", ""]),
        row(["", "", "g"]),
    ];
    let out = padded_lines(&lines);
    assert_eq!(
        out,
        vec![
            "a    bbb c".to_string(),
            "dddd e".to_string(),
            "f".to_string(),
            "         g".to_string(),
        ]
    );
}

#[test]
fn padded_lines_edges() {
    let empty: Vec<[String; 2]> = vec![];
    assert!(padded_lines(&empty).is_empty());
    let one = vec![row(["xyz"]), row([""])];
    assert_eq!(padded_lines(&one), vec!["xyz".to_string(), String::new()]);
    // widths count characters, not bytes
    let wide = vec![row(["éé", "x"]), row(["a", "y"])];
    assert_eq!(padded_lines(&wide), vec!["éé x".to_string(), "a  y".to_string()]);
}

#[test]
fn exe_name_from_path() {
    assert_eq!(exe_name_of(Some("/usr/bin/cjdnstool2"), '/'), "cjdnstool2");
    assert_eq!(exe_name_of(Some("tool"), '/'), "tool");
    assert_eq!(exe_name_of(Some("/usr/bin/"), '/'), "cjdnstool");
    assert_eq!(exe_name_of(Some(""), '/'), "cjdnstool");
    assert_eq!(exe_name_of(None, '/'), "cjdnstool");
}
