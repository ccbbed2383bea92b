use clinvoice::markdown::markdown_escape;

#[test]
fn test_markdown_escape_empty_string() {
    assert_eq!(markdown_escape(""), "");
}

#[test]
fn test_markdown_escape_no_special_chars() {
    assert_eq!(markdown_escape("Hello World"), "Hello World");
}

#[test]
fn test_markdown_escape_all_special_chars() {
    let input = r"`*_{}[]()#+-.!";
    let expected = r"\`\*\_\{\}\[\]\(\)\#\+\-.\!";
    assert_eq!(markdown_escape(input), expected);
}

#[test]
fn test_markdown_escape_mixed_chars() {
    let input = "Invoice #123 for *important* stuff.";
    let expected = r#"Invoice \#123 for \*important\* stuff."#;
    assert_eq!(markdown_escape(input), expected);
}

#[test]
fn test_markdown_escape_dot_after_digit() {
    assert_eq!(markdown_escape("1. item"), "1\\. item");
    assert_eq!(markdown_escape("a. item"), "a. item");
}

#[test]
fn test_markdown_escape_gt_after_space() {
    assert_eq!(markdown_escape("a > b"), "a \\> b");
    assert_eq!(markdown_escape("a> b"), "a> b");
}
