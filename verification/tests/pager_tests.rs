use markterm::pager::{
    apply_command, key_action, max_offset, page_end, pager_enabled, percent, status_bar, KeyInput,
    PagerAction, PagerCommand,
};
use markterm::style::visible_len;
use markterm::wrap::{split_styled_words, truncate_styled};

#[test]
fn test_offset_clamps_at_bottom() {
    let total = 100;
    let page = 24;
    let mut offset = 0;
    for _ in 0..10 {
        offset = apply_command(offset, &PagerCommand::NextPage, page, total);
        assert!(offset <= max_offset(total, page));
    }
    assert_eq!(offset, 76);
}

#[test]
fn test_offset_clamps_at_top() {
    let mut offset = apply_command(0, &PagerCommand::NextLine, 24, 100);
    assert_eq!(offset, 1);
    offset = apply_command(offset, &PagerCommand::PrevPage, 24, 100);
    assert_eq!(offset, 0);
    offset = apply_command(offset, &PagerCommand::PrevLine, 24, 100);
    assert_eq!(offset, 0);
}

#[test]
fn test_half_page_moves() {
    let offset = apply_command(0, &PagerCommand::HalfPageDown, 24, 100);
    assert_eq!(offset, 12);
    let offset = apply_command(offset, &PagerCommand::HalfPageUp, 24, 100);
    assert_eq!(offset, 0);
}

#[test]
fn test_top_and_bottom() {
    assert_eq!(apply_command(37, &PagerCommand::Top, 24, 100), 0);
    assert_eq!(apply_command(37, &PagerCommand::Bottom, 24, 100), 76);
}

#[test]
fn test_next_line_stops_at_max() {
    let total = 26;
    let page = 24;
    let mut offset = 0;
    for _ in 0..5 {
        offset = apply_command(offset, &PagerCommand::NextLine, page, total);
    }
    assert_eq!(offset, 2);
}

#[test]
fn test_offset_invariant_over_command_mix() {
    let cmds = [
        PagerCommand::NextPage,
        PagerCommand::NextLine,
        PagerCommand::HalfPageDown,
        PagerCommand::Bottom,
        PagerCommand::NextPage,
        PagerCommand::PrevLine,
        PagerCommand::HalfPageUp,
        PagerCommand::PrevPage,
        PagerCommand::Top,
        PagerCommand::NextPage,
    ];
    let total = 55;
    let page = 10;
    let mut offset = 0;
    for c in &cmds {
        offset = apply_command(offset, c, page, total);
        assert!(offset <= max_offset(total, page));
    }
}

#[test]
fn test_key_table() {
    assert_eq!(key_action(&KeyInput::Char('q', false)), PagerAction::Quit);
    assert_eq!(key_action(&KeyInput::Escape), PagerAction::Quit);
    assert_eq!(key_action(&KeyInput::Char('c', true)), PagerAction::Quit);
    assert_eq!(key_action(&KeyInput::Char('c', false)), PagerAction::Ignore);
    assert_eq!(key_action(&KeyInput::Char(' ', false)), PagerAction::Move(PagerCommand::NextPage));
    assert_eq!(key_action(&KeyInput::PageDown), PagerAction::Move(PagerCommand::NextPage));
    assert_eq!(key_action(&KeyInput::Char('f', true)), PagerAction::Move(PagerCommand::NextPage));
    assert_eq!(key_action(&KeyInput::Char('f', false)), PagerAction::Ignore);
    assert_eq!(key_action(&KeyInput::Char('b', false)), PagerAction::Move(PagerCommand::PrevPage));
    assert_eq!(key_action(&KeyInput::Enter), PagerAction::Move(PagerCommand::NextLine));
    assert_eq!(key_action(&KeyInput::Down), PagerAction::Move(PagerCommand::NextLine));
    assert_eq!(key_action(&KeyInput::Char('j', false)), PagerAction::Move(PagerCommand::NextLine));
    assert_eq!(key_action(&KeyInput::Up), PagerAction::Move(PagerCommand::PrevLine));
    assert_eq!(key_action(&KeyInput::Char('k', false)), PagerAction::Move(PagerCommand::PrevLine));
    assert_eq!(key_action(&KeyInput::Char('g', false)), PagerAction::Move(PagerCommand::Top));
    assert_eq!(key_action(&KeyInput::Home), PagerAction::Move(PagerCommand::Top));
    assert_eq!(key_action(&KeyInput::Char('G', false)), PagerAction::Move(PagerCommand::Bottom));
    assert_eq!(key_action(&KeyInput::End), PagerAction::Move(PagerCommand::Bottom));
    assert_eq!(key_action(&KeyInput::Char('d', false)), PagerAction::Move(PagerCommand::HalfPageDown));
    assert_eq!(key_action(&KeyInput::Char('u', false)), PagerAction::Move(PagerCommand::HalfPageUp));
    assert_eq!(key_action(&KeyInput::Char('z', false)), PagerAction::Ignore);
}

#[test]
fn test_pager_enabled_guard() {
    assert!(!pager_enabled(10, 0));
    assert!(!pager_enabled(10, 10));
    assert!(!pager_enabled(10, 24));
    assert!(pager_enabled(25, 24));
}

#[test]
fn test_page_end_and_percent() {
    assert_eq!(page_end(0, 24, 100), 24);
    assert_eq!(page_end(90, 24, 100), 100);
    assert_eq!(percent(24, 100), 24);
    assert_eq!(percent(100, 100), 100);
    assert_eq!(percent(0, 0), 100);
    assert_eq!(percent(1, 3), 33);
    assert_eq!(percent(2, 3), 67);
}

#[test]
fn test_status_bar_format() {
    let bar = status_bar("file.md", 0, 24, 100, 80);
    assert!(bar.starts_with("\x1b[7m"));
    assert!(bar.ends_with("\x1b[0m"));
    assert!(bar.contains(" file.md | lines 1-24 of 100 (24%) "));
    assert!(bar.contains(" [Space] next  [b] back  [q] quit "));
    assert_eq!(visible_len(&bar), 80);
}

#[test]
fn test_status_bar_no_padding_when_narrow() {
    let bar = status_bar("f", 0, 24, 100, 10);
    assert!(bar.contains(" f | lines 1-24 of 100 (24%) "));
    assert!(bar.contains(" [Space] next  [b] back  [q] quit "));
}

#[test]
fn test_split_styled_words_discards_whitespace() {
    let words = split_styled_words("one  two\tthree ");
    assert_eq!(words, vec!["one", "two", "three"]);
}

#[test]
fn test_split_styled_words_keeps_escapes_attached() {
    let words = split_styled_words("\x1b[1mbold\x1b[0m word");
    assert_eq!(words, vec!["\x1b[1mbold\x1b[0m", "word"]);
}

#[test]
fn test_truncate_styled_plain() {
    assert_eq!(truncate_styled("hello world", 5, false), "hello…");
    assert_eq!(visible_len(&truncate_styled("hello world", 5, false)), 6);
}

#[test]
fn test_truncate_styled_passes_escapes() {
    let t = truncate_styled("\x1b[1mhello\x1b[0m world", 5, true);
    assert!(t.starts_with("\x1b[1mhello"));
    assert!(t.ends_with("…"));
    assert!(visible_len(&t) <= 6);
}
