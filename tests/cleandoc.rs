use docstring_md::cleandoc::cleandoc;

#[test]
fn it_works_with_basic_docstring() {
    let a_docstring = r#"
        Example docstring
        "#;
    let result = cleandoc(a_docstring);
    assert_eq!(result, "Example docstring");
}

#[test]
fn it_works_with_indented_docstring() {
    let a_docstring = r#"
            Example docstring
        "#;
    let result = cleandoc(a_docstring);
    assert_eq!(result, "Example docstring");
}

#[test]
fn it_works_with_indented_docstring_with_leading_newline() {
    let a_docstring = r#"

            Example docstring
        "#;
    let result = cleandoc(a_docstring);
    assert_eq!(result, "Example docstring");
}

#[test]
fn it_works_with_indented_docstring_with_trailing_newline() {
    let a_docstring = r#"
            Example docstring

        "#;
    let result = cleandoc(a_docstring);
    assert_eq!(result, "Example docstring");
}

#[test]
fn it_works_with_indented_docstring_with_multiple_lines() {
    let a_docstring = r#"
            Example docstring
            with multiple lines
        "#;
    let result = cleandoc(a_docstring);
    assert_eq!(result, "Example docstring\nwith multiple lines");
}

#[test]
fn it_works_with_indented_docstring_with_multiple_lines_separated_by_multiple_lines() {
    let a_docstring = r#"
            Example docstring


            with multiple lines
        "#;
    let result = cleandoc(a_docstring);
    assert_eq!(result, "Example docstring\n\n\nwith multiple lines");
}

#[test]
fn it_works_with_indented_docstring_with_multiple_lines_different_indentation() {
    let a_docstring = r#"
            Example docstring
                with multiple lines
        "#;
    let result = cleandoc(a_docstring);
    assert_eq!(result, "Example docstring\n    with multiple lines");
}

#[test]
fn plain_single_line_is_unchanged() {
    assert_eq!(cleandoc("Example docstring"), "Example docstring");
}

#[test]
fn title_and_body_lose_their_margin() {
    let text = "\n            Title line\n            Body line\n\n        ";
    assert_eq!(cleandoc(text), "Title line\nBody line");
}

#[test]
fn empty_and_blank_inputs_give_empty_text() {
    assert_eq!(cleandoc(""), "");
    assert_eq!(cleandoc("   \n  \n\t\n"), "");
}

#[test]
fn first_line_is_trimmed_on_its_own() {
    assert_eq!(cleandoc("   Title\n    a\n    b"), "Title\na\nb");
    assert_eq!(cleandoc("Title\n      a\n    b"), "Title\n  a\nb");
}

#[test]
fn uniform_indentation_is_removed_exactly() {
    let text = "  Head\n   x\n   y\n   z";
    assert_eq!(cleandoc(text), "Head\nx\ny\nz");
}

#[test]
fn normalizing_twice_changes_nothing_when_first_line_has_text() {
    let text = "Summary line.\n\n        Body one\n          indented\n        Body two\n    ";
    let once = cleandoc(text);
    assert_eq!(once, "Summary line.\n\nBody one\n  indented\nBody two");
    assert_eq!(cleandoc(&once), once);
}

#[test]
fn short_blank_lines_are_kept_inside() {
    assert_eq!(cleandoc("T\n    a\n  \n    b"), "T\na\n  \nb");
}

#[test]
fn carriage_returns_end_lines() {
    assert_eq!(cleandoc("T\r\n    a\r\n    b\r\n"), "T\na\nb");
}

#[test]
fn unicode_whitespace_counts_as_indentation() {
    assert_eq!(cleandoc("T\n\u{3000}\u{3000}a\n\u{3000}\u{3000}b"), "T\na\nb");
}
