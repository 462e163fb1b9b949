use html_table::generate::generate;
use html_table::parse::{parse, parse_row, CellFormatError, RowOutcome, StructuralFormatError};
use html_table::text::{chars_of, string_of};

fn lines(v: &[&str]) -> Vec<String> {
    v.iter().map(|s| s.to_string()).collect()
}

#[test]
fn two_rows_of_three_cells() {
    let text = "<table><tr><td>a</td><td>b</td><td>c</td></tr><tr><td>d</td><td>e</td><td>f</td></tr></table>";
    let p = parse(text, ',').unwrap();
    assert_eq!(p.lines, lines(&["a,b,c", "d,e,f"]));
    assert!(p.warnings.is_empty());
}

#[test]
fn missing_table_start_is_structural_error() {
    let r = parse("<tr><td>a</td></tr></table>", ',');
    assert!(matches!(r, Err(StructuralFormatError::NoTableStart)));
}

#[test]
fn missing_table_end_is_structural_error() {
    let r = parse("<table><tr><td>a</td></tr>", ',');
    assert!(matches!(r, Err(StructuralFormatError::UnterminatedTable)));
}

#[test]
fn table_end_only_before_start_is_unterminated() {
    let r = parse("</table><table><tr><td>a</td></tr>", ',');
    assert!(matches!(r, Err(StructuralFormatError::UnterminatedTable)));
}

#[test]
fn malformed_row_is_skipped_and_reported() {
    let text = "<table><tr><td>a</td></tr><tr><td>b</tr><tr><td>c</td></tr></table>";
    let p = parse(text, ',').unwrap();
    assert_eq!(p.lines, lines(&["a", "c"]));
    assert_eq!(p.warnings, vec![CellFormatError { row: 1 }]);
}

#[test]
fn nested_tag_in_cell_is_malformed() {
    let text = "<table><tr><td><b>x</b></td></tr><tr><td>y</td></tr></table>";
    let p = parse(text, ',').unwrap();
    assert_eq!(p.lines, lines(&["y"]));
    assert_eq!(p.warnings, vec![CellFormatError { row: 0 }]);
}

#[test]
fn empty_region_gives_no_lines() {
    let p = parse("<table>\n\n</table>", ',').unwrap();
    assert!(p.lines.is_empty());
    assert!(p.warnings.is_empty());
}

#[test]
fn attributes_and_surrounding_text_are_tolerated() {
    let text = "<html><body>intro <table border=\"1\">\n <tr class=\"h\">\n  <td align=\"left\">x</td>  <td>y</td>\n </tr>\n</table> tail <table><tr><td>z</td></tr></table>";
    let p = parse(text, ';').unwrap();
    assert_eq!(p.lines, lines(&["x;y"]));
    assert!(p.warnings.is_empty());
}

#[test]
fn line_breaks_inside_cells_are_removed() {
    let p = parse("<table><tr><td>ab\r\ncd</td></tr></table>", ',').unwrap();
    assert_eq!(p.lines, lines(&["abcd"]));
}

#[test]
fn empty_cells_are_kept() {
    let p = parse("<table><tr><td></td><td>b</td><td></td></tr></table>", '|').unwrap();
    assert_eq!(p.lines, lines(&["|b|"]));
}

#[test]
fn round_trip_of_generated_markup() {
    let input = lines(&["a b c", "", "d  e", "x"]);
    let markup = generate(&input, ' ');
    let p = parse(&markup, ' ').unwrap();
    assert_eq!(p.lines, input);
    assert!(p.warnings.is_empty());
}

#[test]
fn round_trip_of_empty_input() {
    let markup = generate(&Vec::new(), ',');
    let p = parse(&markup, ',').unwrap();
    assert!(p.lines.is_empty());
    assert!(p.warnings.is_empty());
}

#[test]
fn row_without_cells_is_skipped() {
    let seg = chars_of("<tr> noise ");
    assert!(matches!(parse_row(&seg, ','), RowOutcome::Skipped));
}

#[test]
fn row_with_cells_is_joined() {
    let seg = chars_of("<tr><td x=1>p</td> <td>q</td>");
    match parse_row(&seg, '-') {
        RowOutcome::Line(l) => assert_eq!(l, "p-q"),
        _ => panic!("expected a line"),
    }
}

#[test]
fn row_without_cell_end_is_malformed() {
    let seg = chars_of("<tr><td>p");
    assert!(matches!(parse_row(&seg, ','), RowOutcome::Malformed));
}

#[test]
fn chars_and_string_round_trip() {
    let cs = chars_of("aé<");
    assert_eq!(cs, vec!['a', 'é', '<']);
    assert_eq!(string_of(&cs), "aé<");
}

#[test]
fn start_tag_without_bracket_gives_empty_region() {
    let p = parse("<table</table>", ',').unwrap();
    assert!(p.lines.is_empty());
    assert!(p.warnings.is_empty());
}

#[test]
fn whitespace_region_gives_no_lines() {
    let p = parse("x <table>  \t  </table>", ',').unwrap();
    assert!(p.lines.is_empty());
    assert!(p.warnings.is_empty());
}
