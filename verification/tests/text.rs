use normalize_sic::text::{join_lines, lines};

fn owned(parts: &[&str]) -> Vec<String> {
    parts.iter().map(|p| p.to_string()).collect()
}

#[test]
fn text_splits_at_line_feeds() {
    assert_eq!(lines("(a b)\n(a b)"), owned(&["(a b)", "(a b)"]));
    assert_eq!(lines("(a b)\n(a b)\n"), owned(&["(a b)", "(a b)"]));
    assert_eq!(lines("one"), owned(&["one"]));
}

#[test]
fn empty_lines_are_left_out() {
    assert_eq!(lines(""), Vec::<String>::new());
    assert_eq!(lines("\n\n\n"), Vec::<String>::new());
    assert_eq!(lines("\n*\n\n\n(x y)\n\nz"), owned(&["*", "(x y)", "z"]));
}

#[test]
fn other_white_space_belongs_to_the_line() {
    assert_eq!(lines(" \n\t\r\n a "), owned(&[" ", "\t\r", " a "]));
    assert_eq!(lines("é\nß"), owned(&["é", "ß"]));
}

#[test]
fn every_line_is_followed_by_a_line_feed() {
    assert_eq!(join_lines(&owned(&["(a b)", "(a b)"])), "(a b)\n(a b)\n");
    assert_eq!(join_lines(&owned(&["*"])), "*\n");
    assert_eq!(join_lines(&Vec::new()), "");
}

#[test]
fn joined_lines_split_into_the_same_lines() {
    let parts = owned(&["(a (b c))", "*", "[x y]", "{7 p q}"]);
    assert_eq!(lines(&join_lines(&parts)), parts);
}
