use overleaf_mcp::render::{
    changed_line_range, count_lines, reject_non_bmp, render_numbered, unstorable_error,
};

#[test]
fn listing_has_numbered_lines() {
    assert_eq!(render_numbered("a\nb", 1, None), ("     1\ta\n     2\tb\n".to_string(), 2));
    assert_eq!(render_numbered("a\nb\nc\nd", 2, Some(2)).0, "     2\tb\n     3\tc\n");
    assert_eq!(render_numbered("a\nb", 0, Some(1)).0, "     1\ta\n");
    assert_eq!(render_numbered("a\nb", 7, None), (String::new(), 2));
    assert_eq!(render_numbered("a\nb", 1, Some(0)).0, "");
    assert_eq!(render_numbered("", 1, None), ("     1\t\n".to_string(), 1));
    assert_eq!(count_lines("a\n"), 2);
}

#[test]
fn changed_lines_are_covered_by_one_range() {
    assert_eq!(changed_line_range("a\nb\nc", "a\nb\nc"), None);
    assert_eq!(changed_line_range("a\nb\nc", "a\nX\nc"), Some((2, 2)));
    assert_eq!(changed_line_range("a\nb\nc\nd", "X\nb\nc\nY"), Some((1, 4)));
    assert_eq!(changed_line_range("a\nc", "a\nb\nc"), Some((2, 2)));
    assert_eq!(changed_line_range("a\nb\nc", "a\nc"), Some((1, 1)));
    assert_eq!(changed_line_range("a\nb", "b"), Some((1, 1)));
}

#[test]
fn characters_outside_the_basic_plane_are_refused() {
    assert!(reject_non_bmp("plain é \u{ffff}", "content").is_ok());
    assert_eq!(
        reject_non_bmp("ok 😀 and 🦀", "new_string").unwrap_err().message(),
        "edit rejected: new_string contains '😀', a character outside the Unicode BMP; Overleaf documents cannot store it (emoji etc.) — replace it, e.g. with a LaTeX escape, and retry"
    );
    let odd = '\u{e0001}';
    let expected = format!("{odd:?}");
    assert!(reject_non_bmp("\u{e0001}", "content").unwrap_err().message().contains(&expected));
}

#[test]
fn refused_characters_are_shown_as_given() {
    assert_eq!(
        unstorable_error("content", "<c>").message(),
        "edit rejected: content contains <c>, a character outside the Unicode BMP; Overleaf documents cannot store it (emoji etc.) — replace it, e.g. with a LaTeX escape, and retry"
    );
}
