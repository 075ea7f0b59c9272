use markterm::events::{Align, MdEvent, MdTag, MdTagEnd};
use markterm::renderer::render;
use markterm::style::visible_len;

use pulldown_cmark::{Alignment, CodeBlockKind, Event, Options, Parser, Tag, TagEnd};

fn parse(content: &str) -> Vec<MdEvent> {
    let mut options = Options::empty();
    options.insert(Options::ENABLE_STRIKETHROUGH);
    options.insert(Options::ENABLE_TABLES);
    options.insert(Options::ENABLE_TASKLISTS);
    let mut out = Vec::new();
    for ev in Parser::new_ext(content, options) {
        match ev {
            Event::Start(tag) => match tag {
                Tag::Heading { level, .. } => out.push(MdEvent::Start(MdTag::Heading(level as u8))),
                Tag::Paragraph => out.push(MdEvent::Start(MdTag::Paragraph)),
                Tag::BlockQuote(_) => out.push(MdEvent::Start(MdTag::BlockQuote)),
                Tag::CodeBlock(kind) => {
                    let lang = match kind {
                        CodeBlockKind::Fenced(l) => Some(l.to_string()),
                        CodeBlockKind::Indented => None,
                    };
                    out.push(MdEvent::Start(MdTag::CodeBlock(lang)));
                }
                Tag::List(first) => out.push(MdEvent::Start(MdTag::List(first))),
                Tag::Item => out.push(MdEvent::Start(MdTag::Item)),
                Tag::Emphasis => out.push(MdEvent::Start(MdTag::Emphasis)),
                Tag::Strong => out.push(MdEvent::Start(MdTag::Strong)),
                Tag::Strikethrough => out.push(MdEvent::Start(MdTag::Strikethrough)),
                Tag::Link { dest_url, .. } => {
                    out.push(MdEvent::Start(MdTag::Link(dest_url.to_string())))
                }
                Tag::Table(aligns) => {
                    let mapped = aligns
                        .iter()
                        .map(|a| match a {
                            Alignment::None => Align::Default,
                            Alignment::Left => Align::Left,
                            Alignment::Center => Align::Center,
                            Alignment::Right => Align::Right,
                        })
                        .collect();
                    out.push(MdEvent::Start(MdTag::Table(mapped)));
                }
                Tag::TableHead => out.push(MdEvent::Start(MdTag::TableHead)),
                Tag::TableRow => out.push(MdEvent::Start(MdTag::TableRow)),
                Tag::TableCell => out.push(MdEvent::Start(MdTag::TableCell)),
                _ => {}
            },
            Event::End(tag) => match tag {
                TagEnd::Heading(_) => out.push(MdEvent::End(MdTagEnd::Heading)),
                TagEnd::Paragraph => out.push(MdEvent::End(MdTagEnd::Paragraph)),
                TagEnd::BlockQuote(_) => out.push(MdEvent::End(MdTagEnd::BlockQuote)),
                TagEnd::CodeBlock => out.push(MdEvent::End(MdTagEnd::CodeBlock)),
                TagEnd::List(_) => out.push(MdEvent::End(MdTagEnd::List)),
                TagEnd::Item => out.push(MdEvent::End(MdTagEnd::Item)),
                TagEnd::Emphasis => out.push(MdEvent::End(MdTagEnd::Emphasis)),
                TagEnd::Strong => out.push(MdEvent::End(MdTagEnd::Strong)),
                TagEnd::Strikethrough => out.push(MdEvent::End(MdTagEnd::Strikethrough)),
                TagEnd::Link => out.push(MdEvent::End(MdTagEnd::Link)),
                TagEnd::Table => out.push(MdEvent::End(MdTagEnd::Table)),
                TagEnd::TableHead => out.push(MdEvent::End(MdTagEnd::TableHead)),
                TagEnd::TableRow => out.push(MdEvent::End(MdTagEnd::TableRow)),
                TagEnd::TableCell => out.push(MdEvent::End(MdTagEnd::TableCell)),
                _ => {}
            },
            Event::Text(t) => out.push(MdEvent::Text(t.to_string())),
            Event::Code(c) => out.push(MdEvent::InlineCode(c.to_string())),
            Event::SoftBreak => out.push(MdEvent::SoftBreak),
            Event::HardBreak => out.push(MdEvent::HardBreak),
            Event::Rule => out.push(MdEvent::Rule),
            Event::TaskListMarker(checked) => out.push(MdEvent::TaskMarker(checked)),
            _ => {}
        }
    }
    out
}

#[test]
fn test_heading_renders() {
    let events = parse("# Hello World");
    let lines = render(events, 80, false, false);
    assert!(lines.iter().any(|l| l.contains("Hello World")));
}

#[test]
fn test_bold_renders() {
    let events = parse("**bold text**");
    let lines = render(events, 80, true, false);
    let joined = lines.join("");
    assert!(joined.contains("bold text"));
}

#[test]
fn test_inline_formatting_stays_on_one_line() {
    let events = parse("This is **bold** and *italic* text.");
    let lines = render(events, 80, false, false);
    let content_lines: Vec<&String> = lines.iter().filter(|l| !l.is_empty()).collect();
    assert_eq!(content_lines.len(), 1, "Expected 1 content line, got: {:?}", content_lines);
    assert!(content_lines[0].contains("bold"));
    assert!(content_lines[0].contains("italic"));
}

#[test]
fn test_list_renders() {
    let events = parse("- item one\n- item two");
    let lines = render(events, 80, false, false);
    assert!(lines.iter().any(|l| l.contains("item one")));
    assert!(lines.iter().any(|l| l.contains("item two")));
}

#[test]
fn test_code_block_renders() {
    let events = parse("```\nlet x = 1;\n```");
    let lines = render(events, 80, false, false);
    assert!(lines.iter().any(|l| l.contains("let x = 1;")));
}

#[test]
fn test_horizontal_rule() {
    let events = parse("---");
    let lines = render(events, 40, false, false);
    assert!(lines.iter().any(|l| l.contains("─")));
}

#[test]
fn test_word_wrap() {
    let events = parse("This is a very long line that should be wrapped when the terminal width is narrow enough to require it.");
    let lines = render(events, 40, false, false);
    let content_lines: Vec<&String> = lines.iter().filter(|l| !l.is_empty()).collect();
    assert!(content_lines.len() > 1, "Long text should wrap");
    for line in &content_lines {
        assert!(visible_len(line) <= 40, "No line should exceed width");
    }
}

#[test]
fn test_no_wrap_truncates_with_ellipsis() {
    let events = parse("This is a very long line that should be truncated when no-wrap mode is enabled.");
    let lines = render(events, 30, false, true);
    let content_lines: Vec<&String> = lines.iter().filter(|l| !l.is_empty()).collect();
    assert_eq!(content_lines.len(), 1, "No-wrap should produce one line");
    assert!(content_lines[0].ends_with('…'), "Truncated line should end with ellipsis");
    assert!(visible_len(content_lines[0]) <= 30, "Line should not exceed width");
}

#[test]
fn test_heading_preceded_by_blank_line() {
    let events = parse("# Hello World");
    let lines = render(events, 80, false, false);
    let pos = lines.iter().position(|l| l.contains("Hello World")).unwrap();
    assert!(pos > 0);
    assert_eq!(lines[pos - 1], "");
}

#[test]
fn test_wrapped_paragraph_has_multiple_bounded_lines() {
    let sentence = "The quick brown fox jumps over the lazy dog while the curious cat watches from a comfortable distance nearby.";
    assert!(sentence.len() >= 100);
    let events = parse(sentence);
    let lines = render(events, 40, false, false);
    let content_lines: Vec<&String> = lines.iter().filter(|l| !l.is_empty()).collect();
    assert!(content_lines.len() > 1);
    for line in &content_lines {
        assert!(visible_len(line) <= 40);
    }
}

#[test]
fn test_truncation_of_known_sentence() {
    let sentence = "The quick brown fox jumps over the lazy dog while the curious cat watches from a comfortable distance nearby.";
    let events = parse(sentence);
    let lines = render(events, 30, false, true);
    let content_lines: Vec<&String> = lines.iter().filter(|l| !l.is_empty()).collect();
    assert_eq!(content_lines.len(), 1);
    assert!(content_lines[0].ends_with('…'));
    assert!(visible_len(content_lines[0]) <= 30);
}

#[test]
fn test_ordered_list_markers_in_order() {
    let events = parse("1. a\n2. b");
    let lines = render(events, 80, false, false);
    let first = lines.iter().position(|l| l.contains("1. a")).unwrap();
    let second = lines.iter().position(|l| l.contains("2. b")).unwrap();
    assert!(first < second);
}

#[test]
fn test_ordered_list_counter_crosses_ten() {
    let events = parse("9. first\n10. second");
    let lines = render(events, 80, false, false);
    assert!(lines.iter().any(|l| l.contains("9. first")));
    assert!(lines.iter().any(|l| l.contains("10. second")));
}

#[test]
fn test_table_borders_and_cells() {
    let events = parse("| h1 | h2 |\n|----|----|\n| c1 | c2 |\n| d1 | d2 |");
    let lines = render(events, 80, false, false);
    let top = lines.iter().position(|l| l.contains("┌")).unwrap();
    let header = lines.iter().position(|l| l.contains("h1")).unwrap();
    let mid = lines.iter().position(|l| l.contains("├")).unwrap();
    let bottom = lines.iter().position(|l| l.contains("└")).unwrap();
    assert!(top < header);
    assert_eq!(mid, header + 1, "header separator comes immediately after the header row");
    assert!(bottom > mid);
    assert!(lines.iter().any(|l| l.contains("c1") && l.contains("c2")));
    assert!(lines.iter().any(|l| l.contains("d1") && l.contains("d2")));
}

#[test]
fn test_no_consecutive_blank_lines() {
    let md = "# Title\n\nPara one.\n\n## Sub\n\n- a\n- b\n\n---\n\n> quoted\n\nPara two.";
    let lines = render(parse(md), 60, false, false);
    for w in lines.windows(2) {
        assert!(!(w[0].is_empty() && w[1].is_empty()), "two adjacent blank lines: {:?}", lines);
    }
}

#[test]
fn test_blockquote_prefix() {
    let events = parse("> quoted words");
    let lines = render(events, 80, false, false);
    assert!(lines.iter().any(|l| l.starts_with("  | ") && l.contains("quoted words")));
}

#[test]
fn test_task_markers() {
    let events = parse("- [x] done\n- [ ] todo");
    let lines = render(events, 80, false, false);
    assert!(lines.iter().any(|l| l.contains("[✓]") && l.contains("done")));
    assert!(lines.iter().any(|l| l.contains("[ ]") && l.contains("todo")));
}

#[test]
fn test_link_destination_shown() {
    let events = parse("[text](https://example.com)");
    let lines = render(events, 80, false, false);
    assert!(lines.iter().any(|l| l.contains("text (https://example.com)")));
}

#[test]
fn test_inline_code_backticks_when_plain() {
    let events = parse("run `ls` now");
    let lines = render(events, 80, false, false);
    assert!(lines.iter().any(|l| l.contains("`ls`")));
}

#[test]
fn test_fenced_code_language_label() {
    let events = parse("```rust\nfn main() {}\n```");
    let lines = render(events, 80, false, false);
    assert!(lines.iter().any(|l| l.contains("╭─ rust")));
    assert!(lines.iter().any(|l| l.contains("  | fn main() {}")));
    assert!(lines.iter().any(|l| l.contains("╰───")));
}

#[test]
fn test_empty_input_renders_nothing() {
    let lines = render(Vec::new(), 80, false, false);
    assert!(lines.is_empty());
}

#[test]
fn test_zero_width_degrades_without_panic() {
    let events = parse("some words here");
    let lines = render(events, 0, false, false);
    assert!(lines.iter().any(|l| l.contains("some words here")));
}
