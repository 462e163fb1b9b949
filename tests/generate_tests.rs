use html_table::generate::generate;

fn lines(v: &[&str]) -> Vec<String> {
    v.iter().map(|s| s.to_string()).collect()
}

#[test]
fn two_fields_give_one_row_and_two_cells() {
    let out = generate(&lines(&["a,b"]), ',');
    assert_eq!(out, "<table class='rustgen'>\n<tr>\n<td>a</td><td>b</td>\n</tr>\n</table>\n");
    assert_eq!(out.matches("<tr>").count(), 1);
    assert_eq!(out.matches("</tr>").count(), 1);
    assert_eq!(out.matches("<td>").count(), 2);
    assert_eq!(out.matches("</td>").count(), 2);
}

#[test]
fn empty_input_gives_only_table_markers() {
    let out = generate(&Vec::new(), ' ');
    assert_eq!(out, "<table class='rustgen'>\n</table>\n");
    assert!(!out.contains("<tr"));
}

#[test]
fn generation_is_deterministic() {
    let input = lines(&["x y z", "1 2"]);
    assert_eq!(generate(&input, ' '), generate(&input, ' '));
}

#[test]
fn adjacent_separators_give_empty_cells() {
    let out = generate(&lines(&["a;;b;"]), ';');
    assert_eq!(out, "<table class='rustgen'>\n<tr>\n<td>a</td><td></td><td>b</td><td></td>\n</tr>\n</table>\n");
}

#[test]
fn empty_line_gives_one_empty_cell() {
    let out = generate(&lines(&[""]), ',');
    assert_eq!(out, "<table class='rustgen'>\n<tr>\n<td></td>\n</tr>\n</table>\n");
}

#[test]
fn text_is_carried_verbatim() {
    let out = generate(&lines(&["é & x"]), '|');
    assert_eq!(out, "<table class='rustgen'>\n<tr>\n<td>é & x</td>\n</tr>\n</table>\n");
}

#[test]
fn rows_follow_input_order() {
    let out = generate(&lines(&["1", "2"]), ' ');
    assert_eq!(out, "<table class='rustgen'>\n<tr>\n<td>1</td>\n</tr>\n<tr>\n<td>2</td>\n</tr>\n</table>\n");
}

#[test]
fn empty_line_among_others_keeps_its_row() {
    let out = generate(&lines(&["1;2", "", "3"]), ';');
    assert_eq!(
        out,
        "<table class='rustgen'>\n<tr>\n<td>1</td><td>2</td>\n</tr>\n<tr>\n<td></td>\n</tr>\n<tr>\n<td>3</td>\n</tr>\n</table>\n"
    );
}
