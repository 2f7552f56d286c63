use fces::infomap::{is_tree_file, parse_tree_file};

#[test]
fn parses_infomap_tree_output() {
    let text = "# v2.7.1\n# path flow name node_id\n1:1 0.25 \"0\" 0\n1:2 0.25 \"1\" 1\n2:1 0.5 \"2\" 2\n";
    assert_eq!(parse_tree_file(text), vec![(0, 1), (1, 1), (2, 2)]);
}

#[test]
fn skips_comments_headers_blank_and_short_lines() {
    let text = "*Vertices 3\n\n   \n# comment 1 2 3\n1:1 0.5 \"7\"\n3:1:2 0.1 \"9\" 9\n";
    assert_eq!(parse_tree_file(text), vec![(9, 3)]);
}

#[test]
fn unparsable_numbers_become_zero() {
    let text = "x:1 0.5 a b\n-1:2 0.5 a 4\n1 0.5 a -3\n";
    assert_eq!(parse_tree_file(text), vec![(0, 0), (4, 0), (0, 1)]);
}

#[test]
fn plus_sign_and_overflow() {
    let text = "+12:1 0 a +34\n4294967296:1 0 a 5\n4294967295 0 a 6\n+ 0 a 7\n";
    assert_eq!(
        parse_tree_file(text),
        vec![(34, 12), (5, 0), (6, 4294967295), (7, 0)]
    );
}

#[test]
fn crlf_and_unicode_whitespace() {
    let text = "2:1\t0.5 \"a\"\u{3000}11\r\n\u{a0}5:3 0.5 x 12\r\n";
    assert_eq!(parse_tree_file(text), vec![(11, 2), (12, 5)]);
}

#[test]
fn missing_final_newline_and_empty_text() {
    assert_eq!(parse_tree_file("1:1 0 a 3"), vec![(3, 1)]);
    assert_eq!(parse_tree_file(""), Vec::<(usize, u32)>::new());
    assert_eq!(parse_tree_file("\n\n"), Vec::<(usize, u32)>::new());
}

#[test]
fn records_are_read_line_by_line() {
    let a = "1:1 0 a 3\n# x\n2:1 0 b 4";
    let b = "3:1 0 c 5";
    let joined = format!("{}\n{}", a, b);
    let mut expected = parse_tree_file(a);
    expected.extend(parse_tree_file(b));
    assert_eq!(parse_tree_file(&joined), expected);
    assert_eq!(expected, vec![(3, 1), (4, 2), (5, 3)]);
}

#[test]
fn tree_extension() {
    assert!(is_tree_file("edges.tree"));
    assert!(is_tree_file("a.b.tree"));
    assert!(!is_tree_file(".tree"));
    assert!(!is_tree_file("edges.txt"));
    assert!(!is_tree_file("tree"));
    assert!(!is_tree_file("edges.Tree"));
}

