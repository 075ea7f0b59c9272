use markterm::style::{combine, styled, visible_len, BOLD, DIM, RESET};

#[test]
fn test_visible_len_plain() {
    assert_eq!(visible_len("hello"), 5);
}

#[test]
fn test_visible_len_with_ansi() {
    let s = format!("{}hello{}", BOLD, RESET);
    assert_eq!(visible_len(&s), 5);
}

#[test]
fn test_styled_no_color() {
    assert_eq!(styled("hi", &[BOLD], false), "hi");
}

#[test]
fn test_styled_with_color() {
    let result = styled("hi", &[BOLD], true);
    assert!(result.starts_with("\x1b[1m"));
    assert!(result.ends_with("\x1b[0m"));
    assert!(result.contains("hi"));
}

#[test]
fn test_combine_concatenates_codes() {
    assert_eq!(combine(&[BOLD, DIM]), format!("{}{}", BOLD, DIM));
    assert_eq!(combine(&[]), "");
}

#[test]
fn test_styling_preserves_visible_width() {
    let plain = "plain text";
    assert_eq!(visible_len(&styled(plain, &[BOLD, DIM], true)), visible_len(plain));
    assert_eq!(visible_len(&styled(plain, &[], true)), visible_len(plain));
}

#[test]
fn test_visible_len_unterminated_escape() {
    assert_eq!(visible_len("ab\x1b[99"), 2);
}
