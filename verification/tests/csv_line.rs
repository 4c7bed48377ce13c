use rusticker::csv::{is_skipped_row, parse_csv_line};
use std::path::Path;

#[test]
fn test_parse_csv_line_unquoted() {
    let line = "path/to/image.png, 6, --figure circle --diameter 120";
    let (path, qty, args) = parse_csv_line(line).unwrap();
    assert_eq!(Path::new(&path), Path::new("path/to/image.png"));
    assert_eq!(qty, 6);
    assert_eq!(args, "--figure circle --diameter 120");
}

#[test]
fn test_parse_csv_line_quoted_comma() {
    let line = "\"path,with,comma.png\", 3, --figure square --side 150";
    let (path, qty, args) = parse_csv_line(line).unwrap();
    assert_eq!(Path::new(&path), Path::new("path,with,comma.png"));
    assert_eq!(qty, 3);
    assert_eq!(args, "--figure square --side 150");
}

#[test]
fn test_parse_csv_line_quoted_space() {
    let line = "\"path with space.png\", 2, --figure rectangle --width 100 --height 50";
    let (path, qty, args) = parse_csv_line(line).unwrap();
    assert_eq!(Path::new(&path), Path::new("path with space.png"));
    assert_eq!(qty, 2);
    assert_eq!(args, "--figure rectangle --width 100 --height 50");
}

#[test]
fn test_parse_csv_line_no_args() {
    let line = "image.png, 10";
    let (path, qty, args) = parse_csv_line(line).unwrap();
    assert_eq!(Path::new(&path), Path::new("image.png"));
    assert_eq!(qty, 10);
    assert_eq!(args, "");
}

#[test]
fn test_parse_csv_line_invalid_qty() {
    let line = "image.png, abc, --figure circle";
    assert!(parse_csv_line(line).is_err());
}

#[test]
fn test_parse_csv_line_missing_fields() {
    let line = "image.png";
    assert!(parse_csv_line(line).is_err());
}

#[test]
fn csv_line_error_messages() {
    assert_eq!(parse_csv_line("   \t ").unwrap_err(), "Empty line");
    assert_eq!(parse_csv_line("\"a.png, 3").unwrap_err(), "Mismatched double quotes in image path");
    assert_eq!(
        parse_csv_line("\"a.png\" 3").unwrap_err(),
        "Missing quantity and arguments after image path"
    );
    assert_eq!(parse_csv_line("image.png").unwrap_err(), "Missing comma after image path");
    assert_eq!(parse_csv_line("image.png, abc, --figure circle").unwrap_err(), "Invalid quantity: 'abc'");
    assert_eq!(parse_csv_line("a.png, -1").unwrap_err(), "Invalid quantity: '-1'");
    assert_eq!(parse_csv_line("a.png, 4294967296").unwrap_err(), "Invalid quantity: '4294967296'");
}

#[test]
fn csv_line_quantity_edges() {
    assert_eq!(parse_csv_line("a.png, +7").unwrap().1, 7);
    assert_eq!(parse_csv_line("a.png, 4294967295").unwrap().1, 4294967295);
    assert_eq!(parse_csv_line("a.png,0,x").unwrap(), ("a.png".to_string(), 0, "x".to_string()));
    assert!(parse_csv_line("a.png, +").is_err());
    assert!(parse_csv_line("a.png, ").is_err());
}

#[test]
fn csv_line_trims_unicode_space_and_keeps_later_commas() {
    let (path, qty, args) = parse_csv_line("\u{3000} img.png ,\u{a0}2 , --a 1, --b 2\n").unwrap();
    assert_eq!(path, "img.png");
    assert_eq!(qty, 2);
    assert_eq!(args, "--a 1, --b 2");
    let (path, qty, _) = parse_csv_line("\"é, ü.png\"  x , 5").unwrap();
    assert_eq!((path.as_str(), qty), ("é, ü.png", 5));
    let (path, qty, _) = parse_csv_line("\"é, ü.png\" , 5").unwrap();
    assert_eq!(path, "é, ü.png");
    assert_eq!(qty, 5);
}

#[test]
fn skipped_rows() {
    assert!(is_skipped_row("   "));
    assert!(is_skipped_row("  # comment, 1"));
    assert!(!is_skipped_row("a.png, 1"));
}

#[test]
fn outer_white_space_never_changes_a_parse() {
    for line in ["a.png, 3, --figure mask", "\"x, y.png\", 2", "b.png", "c.png, x", ""] {
        let padded = format!(" \t\u{3000}{}\u{a0}\n ", line);
        assert_eq!(parse_csv_line(&padded), parse_csv_line(line));
    }
}

#[test]
fn written_lines_parse_back() {
    for (p, q, a) in [
        ("dir/a b.png", 0u32, "--figure circle --diameter 120"),
        ("x.png", 4294967295u32, ""),
        ("", 7u32, "--x \"y, z\""),
    ] {
        let line = format!("{}, {}, {}", p, q, a);
        assert_eq!(parse_csv_line(&line), Ok((p.to_string(), q, a.to_string())));
    }
    for (p, q, a) in [("path, with comma.png", 3u32, "--figure square"), (" padded ", 1u32, "")] {
        let line = format!("\"{}\", {}, {}", p, q, a);
        assert_eq!(parse_csv_line(&line), Ok((p.trim().to_string(), q, a.to_string())));
    }
}
