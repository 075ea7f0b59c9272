//! The layout engine: consumes a document event stream and produces an
//! ordered sequence of finished, styled, width-constrained display lines.
//!
//! The engine is a state machine; its behaviour is specified by a functional
//! model (`RenderModel` and the `step_*` functions below), and every event
//! handler is proved to implement one step of that model.

use vstd::prelude::*;

use vstd::pervasive::VecAdditionalExecFns;

use crate::events::{Align, MdEvent, MdTag, MdTagEnd};
use crate::numfmt::dec_view;
use crate::style::{
    char_repeat, styled_view, visible_width, BG_GREY, BOLD, DIM, FG_BRIGHT_CYAN, FG_BRIGHT_WHITE,
    FG_BRIGHT_YELLOW, FG_CYAN, FG_GREEN, ITALIC, RESET, STRIKETHROUGH, UNDERLINE,
};
use crate::wrap::{truncated, wrap_text};

verus! {

/// One entry of the active-list stack: an unordered list remembers its
/// nesting depth (for marker glyph selection), an ordered list the number of
/// its next item.
#[derive(Clone, Copy, Debug)]
pub enum ListContext {
    Unordered(usize),
    Ordered(u64),
}

/// The mathematical model of the render state.
#[verifier::ext_equal]
pub struct RenderModel {
    pub use_color: bool,
    pub no_wrap: bool,
    pub width: nat,
    pub lines: Seq<Seq<char>>,
    pub current_line: Seq<char>,
    pub indent: nat,
    pub bold: bool,
    pub italic: bool,
    pub strikethrough: bool,
    pub in_code_block: bool,
    pub in_blockquote: bool,
    pub in_heading: Option<u8>,
    pub list_stack: Seq<ListContext>,
    pub link_url: Option<Seq<char>>,
    pub table_row: Seq<Seq<char>>,
    pub table_cell_buf: Seq<char>,
    pub table_alignments: Seq<Align>,
    pub table_rows: Seq<Seq<Seq<char>>>,
    pub in_table_head: bool,
    pub in_table_cell: bool,
}

/// The render state: the mutable accumulator of one render pass.
pub struct RenderState {
    pub use_color: bool,
    pub no_wrap: bool,
    pub width: usize,
    pub lines: Vec<String>,
    pub current_line: String,
    pub indent: usize,
    pub bold: bool,
    pub italic: bool,
    pub strikethrough: bool,
    pub in_code_block: bool,
    pub in_blockquote: bool,
    pub in_heading: Option<u8>,
    pub list_stack: Vec<ListContext>,
    pub link_url: Option<String>,
    pub table_row: Vec<String>,
    pub table_cell_buf: String,
    pub table_alignments: Vec<Align>,
    pub table_rows: Vec<Vec<String>>,
    pub in_table_head: bool,
    pub in_table_cell: bool,
}

impl View for RenderState {
    type V = RenderModel;

    open spec fn view(&self) -> RenderModel {
        RenderModel {
            use_color: self.use_color,
            no_wrap: self.no_wrap,
            width: self.width as nat,
            lines: self.lines.deep_view(),
            current_line: self.current_line@,
            indent: self.indent as nat,
            bold: self.bold,
            italic: self.italic,
            strikethrough: self.strikethrough,
            in_code_block: self.in_code_block,
            in_blockquote: self.in_blockquote,
            in_heading: self.in_heading,
            list_stack: self.list_stack@,
            link_url: match self.link_url {
                Some(ref u) => Some(u@),
                None => None,
            },
            table_row: self.table_row.deep_view(),
            table_cell_buf: self.table_cell_buf@,
            table_alignments: self.table_alignments@,
            table_rows: self.table_rows.deep_view(),
            in_table_head: self.in_table_head,
            in_table_cell: self.in_table_cell,
        }
    }
}

/// The initial render state for a pass at terminal width `width`: a
/// two-column margin is reserved, all accumulators start empty.
pub open spec fn init_model(width: u16, use_color: bool, no_wrap: bool) -> RenderModel {
    RenderModel {
        use_color: use_color,
        no_wrap: no_wrap,
        width: if width >= 2 {
            (width - 2) as nat
        } else {
            0
        },
        lines: Seq::empty(),
        current_line: Seq::empty(),
        indent: 0,
        bold: false,
        italic: false,
        strikethrough: false,
        in_code_block: false,
        in_blockquote: false,
        in_heading: None,
        list_stack: Seq::empty(),
        link_url: None,
        table_row: Seq::empty(),
        table_cell_buf: Seq::empty(),
        table_alignments: Seq::empty(),
        table_rows: Seq::empty(),
        in_table_head: false,
        in_table_cell: false,
    }
}

/// The line prefix applied in front of wrapped content: a blockquote margin
/// marker when inside a blockquote, then the indent spaces.
pub open spec fn indent_prefix_model(m: RenderModel) -> Seq<char> {
    (if m.in_blockquote {
        if m.use_color {
            DIM@ + "  │ "@ + RESET@
        } else {
            "  | "@
        }
    } else {
        Seq::<char>::empty()
    }) + char_repeat(' ', m.indent)
}

/// The style codes activated by the current heading level and inline flags.
pub open spec fn style_prefix_model(m: RenderModel) -> Seq<char> {
    if !m.use_color {
        Seq::empty()
    } else {
        (match m.in_heading {
            Some(level) => {
                if level == 1 {
                    BOLD@ + UNDERLINE@ + FG_BRIGHT_WHITE@
                } else if level == 2 {
                    BOLD@ + FG_BRIGHT_CYAN@
                } else if level == 3 {
                    BOLD@ + FG_BRIGHT_YELLOW@
                } else {
                    BOLD@
                }
            },
            None => Seq::<char>::empty(),
        }) + (if m.bold {
            BOLD@
        } else {
            Seq::<char>::empty()
        }) + (if m.italic {
            ITALIC@
        } else {
            Seq::<char>::empty()
        }) + (if m.strikethrough {
            STRIKETHROUGH@
        } else {
            Seq::<char>::empty()
        })
    }
}

/// The reset appended after styled text, when any style is active.
pub open spec fn style_suffix_model(m: RenderModel) -> Seq<char> {
    if !m.use_color {
        Seq::empty()
    } else if m.bold || m.italic || m.strikethrough || m.in_heading is Some {
        RESET@
    } else {
        Seq::empty()
    }
}

/// Flushing the pending line: wrap it (or truncate it) behind the current
/// prefix and move the finished lines to the output; a zero available width
/// degrades to a single overflowing line.
pub open spec fn flush_model(m: RenderModel) -> RenderModel {
    if m.current_line.len() == 0 {
        m
    } else {
        let text = m.current_line;
        let prefix = indent_prefix_model(m);
        let pvl = visible_width(prefix);
        let avail: nat = if m.width > pvl {
            (m.width - pvl) as nat
        } else {
            0
        };
        let m2 = RenderModel { current_line: Seq::empty(), ..m };
        if avail == 0 {
            RenderModel { lines: m.lines.push(prefix + text), ..m2 }
        } else if m.no_wrap {
            let full = prefix + text;
            if visible_width(full) <= m.width {
                RenderModel { lines: m.lines.push(full), ..m2 }
            } else {
                RenderModel {
                    lines: m.lines.push(truncated(full, (m.width - 1) as nat, m.use_color)),
                    ..m2
                }
            }
        } else {
            RenderModel { lines: m.lines + wrap_text(text, prefix, avail), ..m2 }
        }
    }
}

/// Flush, then emit a coalesced blank line: an empty line is appended only
/// when the last emitted line is non-empty.
pub open spec fn push_blank_model(m: RenderModel) -> RenderModel {
    let f = flush_model(m);
    if f.lines.len() == 0 || f.lines.last().len() > 0 {
        RenderModel { lines: f.lines.push(Seq::empty()), ..f }
    } else {
        f
    }
}

impl RenderState {
    /// A fresh state for one render pass.
    pub fn new(width: u16, use_color: bool, no_wrap: bool) -> (s: Self)
        ensures
            s@ == init_model(width, use_color, no_wrap),
    {
        let s = RenderState {
            use_color,
            no_wrap,
            width: if width >= 2 {
                (width - 2) as usize
            } else {
                0
            },
            lines: Vec::new(),
            current_line: String::new(),
            indent: 0,
            bold: false,
            italic: false,
            strikethrough: false,
            in_code_block: false,
            in_blockquote: false,
            in_heading: None,
            list_stack: Vec::new(),
            link_url: None,
            table_row: Vec::new(),
            table_cell_buf: String::new(),
            table_alignments: Vec::new(),
            table_rows: Vec::new(),
            in_table_head: false,
            in_table_cell: false,
        };
        proof {
            assert(s@ =~~= init_model(width, use_color, no_wrap));
        }
        s
    }

    fn push_line(&mut self, line: String)
        ensures
            final(self)@ == (RenderModel { lines: old(self)@.lines.push(line@), ..old(self)@ }),
    {
        let ghost lv = line@;
        self.lines.push(line);
        proof {
            assert(self@ =~~= RenderModel { lines: old(self)@.lines.push(lv), ..old(self)@ });
        }
    }

    fn push_blank(&mut self)
        ensures
            final(self)@ == push_blank_model(old(self)@),
    {
        self.flush_wrapped();
        let needs_blank = if self.lines.len() == 0 {
            true
        } else {
            !self.lines[self.lines.len() - 1].as_str().is_empty()
        };
        if needs_blank {
            let ghost before = self@;
            self.lines.push(String::new());
            proof {
                assert(self@ =~~= RenderModel { lines: before.lines.push(Seq::empty()), ..before });
            }
        }
    }

    /// The line prefix for the current state.
    fn indent_prefix(&self) -> (r: String)
        ensures
            r@ == indent_prefix_model(self@),
    {
        let mut prefix = String::new();
        if self.in_blockquote {
            if self.use_color {
                prefix.append(DIM);
                prefix.append("  │ ");
                prefix.append(RESET);
            } else {
                prefix.append("  | ");
            }
        }
        proof {
            reveal_strlit(" ");
        }
        let spaces = crate::style::repeat_str(" ", self.indent);
        prefix.append(spaces.as_str());
        proof {
            assert(prefix@ =~= indent_prefix_model(self@));
        }
        prefix
    }

    fn current_style_prefix(&self) -> (r: String)
        ensures
            r@ == style_prefix_model(self@),
    {
        let mut r = String::new();
        if !self.use_color {
            proof {
                assert(r@ =~= style_prefix_model(self@));
            }
            return r;
        }
        match self.in_heading {
            Some(level) => {
                if level == 1 {
                    r.append(BOLD);
                    r.append(UNDERLINE);
                    r.append(FG_BRIGHT_WHITE);
                } else if level == 2 {
                    r.append(BOLD);
                    r.append(FG_BRIGHT_CYAN);
                } else if level == 3 {
                    r.append(BOLD);
                    r.append(FG_BRIGHT_YELLOW);
                } else {
                    r.append(BOLD);
                }
            },
            None => {},
        }
        if self.bold {
            r.append(BOLD);
        }
        if self.italic {
            r.append(ITALIC);
        }
        if self.strikethrough {
            r.append(STRIKETHROUGH);
        }
        proof {
            assert(r@ =~= style_prefix_model(self@));
        }
        r
    }

    fn current_style_suffix(&self) -> (r: String)
        ensures
            r@ == style_suffix_model(self@),
    {
        if !self.use_color {
            let r = String::new();
            proof {
                assert(r@ =~= style_suffix_model(self@));
            }
            r
        } else if self.bold || self.italic || self.strikethrough || self.in_heading.is_some() {
            RESET.to_owned()
        } else {
            let r = String::new();
            proof {
                assert(r@ =~= style_suffix_model(self@));
            }
            r
        }
    }

    /// Flush the pending line with word wrapping (or truncation in no-wrap
    /// mode).
    fn flush_wrapped(&mut self)
        ensures
            final(self)@ == flush_model(old(self)@),
    {
        if self.current_line.as_str().is_empty() {
            return ;
        }
        let mut text = String::new();
        core::mem::swap(&mut text, &mut self.current_line);
        let prefix = self.indent_prefix();
        let prefix_visible_len = crate::style::visible_len(prefix.as_str());
        let available = if self.width > prefix_visible_len {
            self.width - prefix_visible_len
        } else {
            0
        };
        proof {
            assert(indent_prefix_model(self@) == indent_prefix_model(old(self)@));
        }
        if available == 0 {
            let mut full = prefix;
            full.append(text.as_str());
            self.lines.push(full);
            proof {
                assert(self@ =~~= flush_model(old(self)@));
            }
            return ;
        }
        if self.no_wrap {
            let mut full = prefix;
            full.append(text.as_str());
            let visible = crate::style::visible_len(full.as_str());
            if visible <= self.width {
                self.lines.push(full);
                proof {
                    assert(self@ =~~= flush_model(old(self)@));
                }
            } else {
                let trunc = crate::wrap::truncate_styled(
                    full.as_str(),
                    self.width - 1,
                    self.use_color,
                );
                self.lines.push(trunc);
                proof {
                    assert(self@ =~~= flush_model(old(self)@));
                }
            }
            return ;
        }
        let mut wrapped = crate::wrap::wrap_styled_text(
            text.as_str(),
            prefix.as_str(),
            available,
        );
        let ghost wv = wrapped.deep_view();
        let ghost old_lines = self.lines.deep_view();
        self.lines.append(&mut wrapped);
        proof {
            assert(self.lines.deep_view() =~= old_lines + wv);
            assert(self@ =~~= flush_model(old(self)@));
        }
    }
}

/// The saturating successor of an ordered-list counter.
pub open spec fn next_count(n: u64) -> u64 {
    if n < u64::MAX {
        (n + 1) as u64
    } else {
        n
    }
}

/// The marker glyph (or number) of the next list item.
pub open spec fn item_marker(stack: Seq<ListContext>) -> Seq<char> {
    if stack.len() == 0 {
        "\u{2022} "@
    } else {
        match stack.last() {
            ListContext::Unordered(depth) => {
                if depth == 0 {
                    "\u{2022} "@
                } else if depth == 1 {
                    "\u{25e6} "@
                } else {
                    "\u{25aa} "@
                }
            },
            ListContext::Ordered(num) => dec_view(num as nat) + ". "@,
        }
    }
}

/// After emitting an ordered item's marker, the counter on top of the list
/// stack advances.
pub open spec fn bump_ordered(stack: Seq<ListContext>) -> Seq<ListContext> {
    if stack.len() == 0 {
        stack
    } else {
        match stack.last() {
            ListContext::Ordered(num) => stack.update(
                stack.len() - 1,
                ListContext::Ordered(next_count(num)),
            ),
            ListContext::Unordered(_) => stack,
        }
    }
}

/// A list-item start: flush, then seed the pending line with the prefix and
/// the styled marker.
pub open spec fn step_item(m: RenderModel) -> RenderModel {
    let m1 = flush_model(m);
    let prefix = indent_prefix_model(m1);
    let marker = item_marker(m1.list_stack);
    let styled_marker = if m1.use_color {
        styled_view(marker, FG_CYAN@, true)
    } else {
        marker
    };
    RenderModel {
        current_line: prefix + styled_marker,
        list_stack: bump_ordered(m1.list_stack),
        ..m1
    }
}

/// The code-block top border, carrying the language label when present.
pub open spec fn code_top_border(lang: Option<Seq<char>>, use_color: bool) -> Seq<char> {
    match lang {
        Some(l) => if l.len() > 0 {
            styled_view("  \u{256d}\u{2500} "@ + l + " "@, DIM@, use_color)
        } else {
            styled_view("  \u{256d}\u{2500}\u{2500}\u{2500}"@, DIM@, use_color)
        },
        None => styled_view("  \u{256d}\u{2500}\u{2500}\u{2500}"@, DIM@, use_color),
    }
}

/// One step of the state machine for a start event.
pub open spec fn step_start(m: RenderModel, tag: MdTag) -> RenderModel {
    match tag {
        MdTag::Heading(level) => {
            let m1 = push_blank_model(m);
            RenderModel { in_heading: Some(level), ..m1 }
        },
        MdTag::Paragraph => {
            if m.in_code_block {
                m
            } else {
                push_blank_model(m)
            }
        },
        MdTag::BlockQuote => push_blank_model(RenderModel { in_blockquote: true, ..m }),
        MdTag::CodeBlock(lang) => {
            let m1 = push_blank_model(RenderModel { in_code_block: true, ..m });
            let label = code_top_border(
                match lang {
                    Some(l) => Some(l@),
                    None => None,
                },
                m.use_color,
            );
            RenderModel { lines: m1.lines.push(label), ..m1 }
        },
        MdTag::List(first) => {
            let m1 = if m.list_stack.len() == 0 {
                push_blank_model(m)
            } else {
                m
            };
            let depth = m1.list_stack.len();
            let ctx = match first {
                Some(start) => ListContext::Ordered(start),
                None => ListContext::Unordered(depth as usize),
            };
            RenderModel { list_stack: m1.list_stack.push(ctx), indent: (depth + 1) * 2, ..m1 }
        },
        MdTag::Item => step_item(m),
        MdTag::Emphasis => RenderModel { italic: true, ..m },
        MdTag::Strong => RenderModel { bold: true, ..m },
        MdTag::Strikethrough => RenderModel { strikethrough: true, ..m },
        MdTag::Link(dest) => RenderModel { link_url: Some(dest@), ..m },
        MdTag::Table(aligns) => {
            let m1 = push_blank_model(m);
            RenderModel { table_alignments: aligns@, table_rows: Seq::empty(), ..m1 }
        },
        MdTag::TableHead => RenderModel { in_table_head: true, table_row: Seq::empty(), ..m },
        MdTag::TableRow => RenderModel { table_row: Seq::empty(), ..m },
        MdTag::TableCell => RenderModel {
            in_table_cell: true,
            table_cell_buf: Seq::empty(),
            ..m
        },
    }
}

/// One step of the state machine for an end event.
pub open spec fn step_end(m: RenderModel, tag: MdTagEnd) -> RenderModel {
    match tag {
        MdTagEnd::Heading => RenderModel { in_heading: None, ..flush_model(m) },
        MdTagEnd::Paragraph => flush_model(m),
        MdTagEnd::BlockQuote => RenderModel { in_blockquote: false, ..flush_model(m) },
        MdTagEnd::CodeBlock => {
            let label = styled_view(
                "  \u{2570}\u{2500}\u{2500}\u{2500}"@,
                DIM@,
                m.use_color,
            );
            RenderModel { lines: m.lines.push(label), in_code_block: false, ..m }
        },
        MdTagEnd::List => {
            let stack = if m.list_stack.len() > 0 {
                m.list_stack.drop_last()
            } else {
                m.list_stack
            };
            let m1 = RenderModel { list_stack: stack, indent: stack.len() * 2, ..m };
            if stack.len() == 0 {
                push_blank_model(m1)
            } else {
                m1
            }
        },
        MdTagEnd::Item => flush_model(m),
        MdTagEnd::Emphasis => RenderModel { italic: false, ..m },
        MdTagEnd::Strong => RenderModel { bold: false, ..m },
        MdTagEnd::Strikethrough => RenderModel { strikethrough: false, ..m },
        MdTagEnd::Link => {
            match m.link_url {
                Some(url) => RenderModel {
                    current_line: m.current_line + styled_view(
                        " ("@ + url + ")"@,
                        DIM@,
                        m.use_color,
                    ),
                    link_url: None,
                    ..m
                },
                None => m,
            }
        },
        MdTagEnd::Table => step_table_end(m),
        MdTagEnd::TableHead => RenderModel {
            in_table_head: false,
            table_rows: m.table_rows.push(m.table_row),
            table_row: Seq::empty(),
            ..m
        },
        MdTagEnd::TableRow => RenderModel {
            table_rows: m.table_rows.push(m.table_row),
            table_row: Seq::empty(),
            ..m
        },
        MdTagEnd::TableCell => RenderModel {
            table_row: m.table_row.push(m.table_cell_buf),
            table_cell_buf: Seq::empty(),
            in_table_cell: false,
            ..m
        },
    }
}

/// The physical lines of `s`, split on newline characters; splitting yields
/// one segment more than there are newlines.
pub open spec fn split_newlines_from(s: Seq<char>, cur: Seq<char>) -> Seq<Seq<char>>
    decreases s.len(),
{
    if s.len() == 0 {
        seq![cur]
    } else if s[0] == '\n' {
        seq![cur] + split_newlines_from(s.drop_first(), Seq::empty())
    } else {
        split_newlines_from(s.drop_first(), cur.push(s[0]))
    }
}

pub open spec fn split_newlines(s: Seq<char>) -> Seq<Seq<char>> {
    split_newlines_from(s, Seq::empty())
}

/// One emitted code-block line: a vertical-bar marker, then the text
/// verbatim.
pub open spec fn code_line_view(l: Seq<char>, use_color: bool) -> Seq<char> {
    if use_color {
        DIM@ + "  \u{2502} "@ + RESET@ + l
    } else {
        "  | "@ + l
    }
}

pub open spec fn code_block_lines(segs: Seq<Seq<char>>, use_color: bool) -> Seq<Seq<char>>
    decreases segs.len(),
{
    if segs.len() == 0 {
        Seq::empty()
    } else {
        seq![code_line_view(segs[0], use_color)] + code_block_lines(segs.drop_first(), use_color)
    }
}

/// One step of the state machine for a text event: verbatim inside a code
/// block, buffered inside a table cell, styled and accumulated otherwise.
pub open spec fn step_text(m: RenderModel, s: Seq<char>) -> RenderModel {
    if m.in_code_block {
        RenderModel { lines: m.lines + code_block_lines(split_newlines(s), m.use_color), ..m }
    } else if m.in_table_cell {
        RenderModel { table_cell_buf: m.table_cell_buf + s, ..m }
    } else {
        RenderModel {
            current_line: m.current_line + style_prefix_model(m) + s + style_suffix_model(m),
            ..m
        }
    }
}

/// One step for an inline code span: a background highlight when colored,
/// backticks when not.
pub open spec fn step_code(m: RenderModel, s: Seq<char>) -> RenderModel {
    if m.in_table_cell {
        RenderModel { table_cell_buf: m.table_cell_buf + s, ..m }
    } else {
        let piece = if m.use_color {
            BG_GREY@ + " "@ + s + " "@ + RESET@
        } else {
            "`"@ + s + "`"@
        };
        RenderModel { current_line: m.current_line + piece, ..m }
    }
}

/// One step for a horizontal rule: a coalesced blank, a full-width dim rule
/// line, another coalesced blank.
pub open spec fn step_rule(m: RenderModel) -> RenderModel {
    let m1 = push_blank_model(m);
    let rule = styled_view(char_repeat('\u{2500}', m1.width), DIM@, m1.use_color);
    push_blank_model(RenderModel { lines: m1.lines.push(rule), ..m1 })
}

/// One step for a task-list marker: a styled checkbox glyph and a space.
pub open spec fn step_task(m: RenderModel, checked: bool) -> RenderModel {
    let marker = if checked {
        styled_view("[\u{2713}]"@, FG_GREEN@ + BOLD@, m.use_color)
    } else {
        styled_view("[ ]"@, DIM@, m.use_color)
    };
    RenderModel { current_line: m.current_line + marker + " "@, ..m }
}

/// One step of the state machine, by event kind.
pub open spec fn step(m: RenderModel, ev: MdEvent) -> RenderModel {
    match ev {
        MdEvent::Start(tag) => step_start(m, tag),
        MdEvent::End(tag) => step_end(m, tag),
        MdEvent::Text(s) => step_text(m, s@),
        MdEvent::InlineCode(s) => step_code(m, s@),
        MdEvent::SoftBreak => if m.in_code_block {
            m
        } else {
            RenderModel { current_line: m.current_line.push(' '), ..m }
        },
        MdEvent::HardBreak => flush_model(m),
        MdEvent::Rule => step_rule(m),
        MdEvent::TaskMarker(checked) => step_task(m, checked),
    }
}

fn styled1(text: &str, code: &'static str, use_color: bool) -> (r: String)
    ensures
        r@ == styled_view(text@, code@, use_color),
{
    if use_color {
        let mut r = code.to_owned();
        r.append(text);
        r.append(RESET);
        r
    } else {
        text.to_owned()
    }
}

fn styled2(text: &str, code1: &'static str, code2: &'static str, use_color: bool) -> (r: String)
    ensures
        r@ == styled_view(text@, code1@ + code2@, use_color),
{
    if use_color {
        let mut r = code1.to_owned();
        r.append(code2);
        r.append(text);
        r.append(RESET);
        r
    } else {
        text.to_owned()
    }
}

/// Split text into its physical lines at newline characters.
fn split_text_lines(text: &str) -> (segs: Vec<String>)
    ensures
        segs.deep_view() == split_newlines(text@),
{
    let n = text.unicode_len();
    let mut segs: Vec<String> = Vec::new();
    let mut start: usize = 0;
    let mut i: usize = 0;
    proof {
        assert(text@.skip(0) =~= text@);
        assert(text@.subrange(0, 0) =~= Seq::<char>::empty());
    }
    while i < n
        invariant
            n == text@.len(),
            i <= n,
            start <= i,
            split_newlines(text@) == segs.deep_view() + split_newlines_from(
                text@.skip(i as int),
                text@.subrange(start as int, i as int),
            ),
        decreases n - i,
    {
        let ghost cur = text@.subrange(start as int, i as int);
        proof {
            assert(text@.skip(i as int).len() > 0);
            assert(text@.skip(i as int)[0] == text@[i as int]);
            assert(text@.skip(i as int).drop_first() =~= text@.skip(i as int + 1));
            assert(cur.push(text@[i as int]) =~= text@.subrange(start as int, i as int + 1));
        }
        let ch = text.get_char(i);
        if ch == '\n' {
            let ghost old_dv = segs.deep_view();
            let seg = text.substring_char(start, i).to_owned();
            segs.push(seg);
            start = i + 1;
            proof {
                assert(segs.deep_view() =~= old_dv.push(cur));
                assert(old_dv + (seq![cur] + split_newlines_from(
                    text@.skip(i as int + 1),
                    Seq::empty(),
                )) =~= old_dv.push(cur) + split_newlines_from(
                    text@.skip(i as int + 1),
                    Seq::empty(),
                ));
                assert(text@.subrange(start as int, i as int + 1) =~= Seq::<char>::empty());
            }
        }
        i = i + 1;
    }
    proof {
        assert(text@.skip(n as int) =~= Seq::<char>::empty());
    }
    let ghost old_dv = segs.deep_view();
    let ghost cur = text@.subrange(start as int, n as int);
    let seg = text.substring_char(start, n).to_owned();
    segs.push(seg);
    proof {
        assert(segs.deep_view() =~= old_dv.push(cur));
        assert(old_dv + seq![cur] =~= old_dv.push(cur));
    }
    segs
}

fn start_heading(state: &mut RenderState, level: u8)
    ensures
        final(state)@ == step_start(old(state)@, MdTag::Heading(level)),
{
    state.push_blank();
    state.in_heading = Some(level);
    proof {
        assert(state@ =~~= step_start(old(state)@, MdTag::Heading(level)));
    }
}

fn start_paragraph(state: &mut RenderState)
    ensures
        final(state)@ == step_start(old(state)@, MdTag::Paragraph),
{
    if !state.in_code_block {
        state.push_blank();
    }
    proof {
        assert(state@ =~~= step_start(old(state)@, MdTag::Paragraph));
    }
}

fn start_blockquote(state: &mut RenderState)
    ensures
        final(state)@ == step_start(old(state)@, MdTag::BlockQuote),
{
    state.in_blockquote = true;
    state.push_blank();
    proof {
        assert(state@ =~~= step_start(old(state)@, MdTag::BlockQuote));
    }
}

/// The top border of a code block, with its language label when present.
fn code_top_border_line(lang: &Option<String>, use_color: bool) -> (r: String)
    ensures
        r@ == code_top_border(
            match lang {
                Some(l) => Some(l@),
                None => None,
            },
            use_color,
        ),
{
    match lang {
        Some(l) => {
            if !l.as_str().is_empty() {
                let mut t = "  \u{256d}\u{2500} ".to_owned();
                t.append(l.as_str());
                t.append(" ");
                proof {
                    assert(t@ =~= "  \u{256d}\u{2500} "@ + l@ + " "@);
                }
                styled1(t.as_str(), DIM, use_color)
            } else {
                styled1("  \u{256d}\u{2500}\u{2500}\u{2500}", DIM, use_color)
            }
        },
        None => styled1("  \u{256d}\u{2500}\u{2500}\u{2500}", DIM, use_color),
    }
}

#[verifier::rlimit(100)]
fn start_code_block(state: &mut RenderState, lang: &Option<String>)
    ensures
        final(state)@ == step_start(old(state)@, MdTag::CodeBlock(*lang)),
{
    let label = code_top_border_line(lang, state.use_color);
    state.in_code_block = true;
    state.push_blank();
    state.push_line(label);
    proof {
        assert(state@ =~~= step_start(old(state)@, MdTag::CodeBlock(*lang)));
    }
}

#[verifier::rlimit(100)]
fn start_list(state: &mut RenderState, first: &Option<u64>)
    requires
        old(state)@.list_stack.len() <= usize::MAX / 2 - 2,
    ensures
        final(state)@ == step_start(old(state)@, MdTag::List(*first)),
{
    if state.list_stack.len() == 0 {
        state.push_blank();
    }
    let ghost mid = state@;
    let depth = state.list_stack.len();
    match first {
        Some(start) => state.list_stack.push(ListContext::Ordered(*start)),
        None => state.list_stack.push(ListContext::Unordered(depth)),
    }
    state.indent = (depth + 1) * 2;
    proof {
        assert(state@.list_stack =~= mid.list_stack.push(
            match *first {
                Some(n) => ListContext::Ordered(n),
                None => ListContext::Unordered(mid.list_stack.len() as usize),
            },
        ));
        assert(state@ =~~= step_start(old(state)@, MdTag::List(*first)));
    }
}

fn start_item(state: &mut RenderState)
    ensures
        final(state)@ == step_item(old(state)@),
{
    state.flush_wrapped();
    let mut line = state.indent_prefix();
    let marker: String;
    if state.list_stack.len() == 0 {
        marker = "\u{2022} ".to_owned();
    } else {
        let last_idx = state.list_stack.len() - 1;
        match state.list_stack[last_idx] {
            ListContext::Unordered(depth) => {
                marker = if depth == 0 {
                    "\u{2022} ".to_owned()
                } else if depth == 1 {
                    "\u{25e6} ".to_owned()
                } else {
                    "\u{25aa} ".to_owned()
                };
            },
            ListContext::Ordered(num) => {
                let mut ms = crate::numfmt::dec_string(num);
                ms.append(". ");
                marker = ms;
                let next = if num < u64::MAX {
                    num + 1
                } else {
                    num
                };
                state.list_stack.set(last_idx, ListContext::Ordered(next));
            },
        }
    }
    let styled_marker = if state.use_color {
        styled1(marker.as_str(), FG_CYAN, true)
    } else {
        marker
    };
    line.append(styled_marker.as_str());
    state.current_line = line;
    proof {
        assert(state@ =~~= step_item(old(state)@));
    }
}

fn start_table(state: &mut RenderState, aligns: &Vec<Align>)
    ensures
        final(state)@ == step_start(old(state)@, MdTag::Table(*aligns)),
{
    state.push_blank();
    let mut copied: Vec<Align> = Vec::new();
    let mut k: usize = 0;
    while k < aligns.len()
        invariant
            k <= aligns@.len(),
            copied@ =~= aligns@.subrange(0, k as int),
        decreases aligns@.len() - k,
    {
        copied.push(aligns[k]);
        k = k + 1;
    }
    proof {
        assert(copied@ =~= aligns@);
    }
    state.table_alignments = copied;
    state.table_rows.clear();
    proof {
        assert(state@ =~~= step_start(old(state)@, MdTag::Table(*aligns)));
    }
}

/// Handle a start event.
#[verifier::rlimit(100)]
pub fn handle_start_tag(state: &mut RenderState, tag: &MdTag)
    requires
        old(state)@.list_stack.len() <= usize::MAX / 2 - 2,
    ensures
        final(state)@ == step_start(old(state)@, *tag),
{
    match tag {
        MdTag::Heading(level) => {
            start_heading(state, *level);
        },
        MdTag::Paragraph => {
            start_paragraph(state);
        },
        MdTag::BlockQuote => {
            start_blockquote(state);
        },
        MdTag::CodeBlock(lang) => {
            start_code_block(state, lang);
        },
        MdTag::List(first) => {
            start_list(state, first);
        },
        MdTag::Item => {
            start_item(state);
        },
        MdTag::Emphasis => {
            state.italic = true;
            proof {
                assert(state@ =~~= step_start(old(state)@, *tag));
            }
        },
        MdTag::Strong => {
            state.bold = true;
            proof {
                assert(state@ =~~= step_start(old(state)@, *tag));
            }
        },
        MdTag::Strikethrough => {
            state.strikethrough = true;
            proof {
                assert(state@ =~~= step_start(old(state)@, *tag));
            }
        },
        MdTag::Link(dest) => {
            state.link_url = Some(dest.clone());
            proof {
                assert(state@ =~~= step_start(old(state)@, *tag));
            }
        },
        MdTag::Table(aligns) => {
            start_table(state, aligns);
        },
        MdTag::TableHead => {
            state.in_table_head = true;
            state.table_row.clear();
            proof {
                assert(state.table_row.deep_view() =~= Seq::<Seq<char>>::empty());
                assert(state@ =~~= step_start(old(state)@, *tag));
            }
        },
        MdTag::TableRow => {
            state.table_row.clear();
            proof {
                assert(state.table_row.deep_view() =~= Seq::<Seq<char>>::empty());
                assert(state@ =~~= step_start(old(state)@, *tag));
            }
        },
        MdTag::TableCell => {
            state.in_table_cell = true;
            state.table_cell_buf = String::new();
            proof {
                assert(state@ =~~= step_start(old(state)@, *tag));
            }
        },
    }
}

fn end_heading(state: &mut RenderState)
    ensures
        final(state)@ == step_end(old(state)@, MdTagEnd::Heading),
{
    state.flush_wrapped();
    state.in_heading = None;
    proof {
        assert(state@ =~~= step_end(old(state)@, MdTagEnd::Heading));
    }
}

fn end_blockquote(state: &mut RenderState)
    ensures
        final(state)@ == step_end(old(state)@, MdTagEnd::BlockQuote),
{
    state.flush_wrapped();
    state.in_blockquote = false;
    proof {
        assert(state@ =~~= step_end(old(state)@, MdTagEnd::BlockQuote));
    }
}

fn end_code_block(state: &mut RenderState)
    ensures
        final(state)@ == step_end(old(state)@, MdTagEnd::CodeBlock),
{
    let label = styled1("  \u{2570}\u{2500}\u{2500}\u{2500}", DIM, state.use_color);
    state.push_line(label);
    state.in_code_block = false;
    proof {
        assert(state@ =~~= step_end(old(state)@, MdTagEnd::CodeBlock));
    }
}

fn end_list(state: &mut RenderState)
    requires
        old(state)@.list_stack.len() <= usize::MAX / 2,
    ensures
        final(state)@ == step_end(old(state)@, MdTagEnd::List),
{
    if state.list_stack.len() > 0 {
        let _ = state.list_stack.pop();
    }
    state.indent = state.list_stack.len() * 2;
    if state.list_stack.len() == 0 {
        state.push_blank();
    }
    proof {
        assert(state@ =~~= step_end(old(state)@, MdTagEnd::List));
    }
}

fn end_link(state: &mut RenderState)
    ensures
        final(state)@ == step_end(old(state)@, MdTagEnd::Link),
{
    let mut url_taken: Option<String> = None;
    core::mem::swap(&mut url_taken, &mut state.link_url);
    match url_taken {
        Some(url) => {
            let mut t = " (".to_owned();
            t.append(url.as_str());
            t.append(")");
            let disp = styled1(t.as_str(), DIM, state.use_color);
            state.current_line.append(disp.as_str());
        },
        None => {},
    }
    proof {
        assert(state@ =~~= step_end(old(state)@, MdTagEnd::Link));
    }
}

fn end_table_head(state: &mut RenderState)
    ensures
        final(state)@ == step_end(old(state)@, MdTagEnd::TableHead),
{
    state.in_table_head = false;
    let mut row: Vec<String> = Vec::new();
    core::mem::swap(&mut row, &mut state.table_row);
    let ghost row_dv = row.deep_view();
    let ghost old_rows = state.table_rows.deep_view();
    state.table_rows.push(row);
    proof {
        assert(state.table_rows.deep_view() =~= old_rows.push(row_dv));
        assert(state.table_row.deep_view() =~= Seq::<Seq<char>>::empty());
        assert(state@ =~~= step_end(old(state)@, MdTagEnd::TableHead));
    }
}

fn end_table_row(state: &mut RenderState)
    ensures
        final(state)@ == step_end(old(state)@, MdTagEnd::TableRow),
{
    let mut row: Vec<String> = Vec::new();
    core::mem::swap(&mut row, &mut state.table_row);
    let ghost row_dv = row.deep_view();
    let ghost old_rows = state.table_rows.deep_view();
    state.table_rows.push(row);
    proof {
        assert(state.table_rows.deep_view() =~= old_rows.push(row_dv));
        assert(state.table_row.deep_view() =~= Seq::<Seq<char>>::empty());
        assert(state@ =~~= step_end(old(state)@, MdTagEnd::TableRow));
    }
}

fn end_table_cell(state: &mut RenderState)
    ensures
        final(state)@ == step_end(old(state)@, MdTagEnd::TableCell),
{
    let mut cell = String::new();
    core::mem::swap(&mut cell, &mut state.table_cell_buf);
    let ghost cell_v = cell@;
    let ghost old_row = state.table_row.deep_view();
    state.table_row.push(cell);
    state.in_table_cell = false;
    proof {
        assert(state.table_row.deep_view() =~= old_row.push(cell_v));
        assert(state@ =~~= step_end(old(state)@, MdTagEnd::TableCell));
    }
}

/// Handle an end event.
#[verifier::rlimit(100)]
pub fn handle_end_tag(state: &mut RenderState, tag: &MdTagEnd)
    requires
        old(state)@.list_stack.len() <= usize::MAX / 2,
    ensures
        final(state)@ == step_end(old(state)@, *tag),
{
    match tag {
        MdTagEnd::Heading => {
            end_heading(state);
        },
        MdTagEnd::Paragraph => {
            state.flush_wrapped();
            proof {
                assert(state@ =~~= step_end(old(state)@, *tag));
            }
        },
        MdTagEnd::BlockQuote => {
            end_blockquote(state);
        },
        MdTagEnd::CodeBlock => {
            end_code_block(state);
        },
        MdTagEnd::List => {
            end_list(state);
        },
        MdTagEnd::Item => {
            state.flush_wrapped();
            proof {
                assert(state@ =~~= step_end(old(state)@, *tag));
            }
        },
        MdTagEnd::Emphasis => {
            state.italic = false;
            proof {
                assert(state@ =~~= step_end(old(state)@, *tag));
            }
        },
        MdTagEnd::Strong => {
            state.bold = false;
            proof {
                assert(state@ =~~= step_end(old(state)@, *tag));
            }
        },
        MdTagEnd::Strikethrough => {
            state.strikethrough = false;
            proof {
                assert(state@ =~~= step_end(old(state)@, *tag));
            }
        },
        MdTagEnd::Link => {
            end_link(state);
        },
        MdTagEnd::Table => {
            render_table(state);
        },
        MdTagEnd::TableHead => {
            end_table_head(state);
        },
        MdTagEnd::TableRow => {
            end_table_row(state);
        },
        MdTagEnd::TableCell => {
            end_table_cell(state);
        },
    }
}

/// Handle a text event.
pub fn handle_text(state: &mut RenderState, text: &str)
    ensures
        final(state)@ == step_text(old(state)@, text@),
{
    if state.in_code_block {
        let segs = split_text_lines(text);
        let ghost segviews = segs.deep_view();
        let ghost target = old(state)@.lines + code_block_lines(segviews, state.use_color);
        let mut k: usize = 0;
        proof {
            assert(segviews.skip(0) =~= segviews);
        }
        while k < segs.len()
            invariant
                segviews == segs.deep_view(),
                k <= segs@.len(),
                segviews.len() == segs@.len(),
                state@ == (RenderModel { lines: state@.lines, ..old(state)@ }),
                target == state@.lines + code_block_lines(
                    segviews.skip(k as int),
                    old(state)@.use_color,
                ),
                state.use_color == old(state)@.use_color,
            decreases segs@.len() - k,
        {
            proof {
                assert(segviews.skip(k as int).len() > 0);
                assert(segviews.skip(k as int)[0] == segs@[k as int]@);
                assert(segviews.skip(k as int).drop_first() =~= segviews.skip(k as int + 1));
            }
            let formatted: String = if state.use_color {
                let mut t = DIM.to_owned();
                t.append("  \u{2502} ");
                t.append(RESET);
                t.append(segs[k].as_str());
                t
            } else {
                let mut t = "  | ".to_owned();
                t.append(segs[k].as_str());
                t
            };
            let ghost fv = formatted@;
            let ghost before = state@;
            state.push_line(formatted);
            proof {
                assert(fv == code_line_view(segviews.skip(k as int)[0], old(state)@.use_color));
                assert(before.lines + (seq![fv] + code_block_lines(
                    segviews.skip(k as int + 1),
                    old(state)@.use_color,
                )) =~= before.lines.push(fv) + code_block_lines(
                    segviews.skip(k as int + 1),
                    old(state)@.use_color,
                ));
            }
            k = k + 1;
        }
        proof {
            assert(segviews.skip(segs@.len() as int) =~= Seq::<Seq<char>>::empty());
            assert(state@.lines =~= target);
            assert(state@ =~~= step_text(old(state)@, text@));
        }
        return ;
    }
    if state.in_table_cell {
        state.table_cell_buf.append(text);
        proof {
            assert(state@ =~~= step_text(old(state)@, text@));
        }
        return ;
    }
    let style_pre = state.current_style_prefix();
    let style_suf = state.current_style_suffix();
    state.current_line.append(style_pre.as_str());
    state.current_line.append(text);
    state.current_line.append(style_suf.as_str());
    proof {
        assert(state@ =~~= step_text(old(state)@, text@));
    }
}

/// Handle an inline code span.
pub fn handle_code(state: &mut RenderState, code: &str)
    ensures
        final(state)@ == step_code(old(state)@, code@),
{
    if state.in_table_cell {
        state.table_cell_buf.append(code);
        proof {
            assert(state@ =~~= step_code(old(state)@, code@));
        }
        return ;
    }
    if state.use_color {
        state.current_line.append(BG_GREY);
        state.current_line.append(" ");
        state.current_line.append(code);
        state.current_line.append(" ");
        state.current_line.append(RESET);
    } else {
        state.current_line.append("`");
        state.current_line.append(code);
        state.current_line.append("`");
    }
    proof {
        assert(state@ =~~= step_code(old(state)@, code@));
    }
}

/// Handle a soft break: a single space, ignored inside code blocks.
pub fn handle_soft_break(state: &mut RenderState)
    ensures
        final(state)@ == step(old(state)@, MdEvent::SoftBreak),
{
    if !state.in_code_block {
        state.current_line.append(" ");
        proof {
            reveal_strlit(" ");
            assert(state.current_line@ =~= old(state)@.current_line.push(' '));
        }
    }
    proof {
        assert(state@ =~~= step(old(state)@, MdEvent::SoftBreak));
    }
}

/// Handle a hard break: an immediate flush.
pub fn handle_hard_break(state: &mut RenderState)
    ensures
        final(state)@ == flush_model(old(state)@),
{
    state.flush_wrapped();
}

/// Handle a horizontal rule.
pub fn handle_rule(state: &mut RenderState)
    ensures
        final(state)@ == step_rule(old(state)@),
{
    state.push_blank();
    proof {
        reveal_strlit("\u{2500}");
    }
    let rule = crate::style::repeat_str("\u{2500}", state.width);
    let styled_rule = styled1(rule.as_str(), DIM, state.use_color);
    state.push_line(styled_rule);
    state.push_blank();
    proof {
        assert(state@ =~~= step_rule(old(state)@));
    }
}

/// Handle a task-list marker.
pub fn handle_task_marker(state: &mut RenderState, checked: bool)
    ensures
        final(state)@ == step_task(old(state)@, checked),
{
    let marker = if checked {
        styled2("[\u{2713}]", FG_GREEN, BOLD, state.use_color)
    } else {
        styled1("[ ]", DIM, state.use_color)
    };
    state.current_line.append(marker.as_str());
    state.current_line.append(" ");
    proof {
        assert(state@ =~~= step_task(old(state)@, checked));
    }
}

pub open spec fn nat_max(a: nat, b: nat) -> nat {
    if a > b {
        a
    } else {
        b
    }
}

/// The number of columns of a table: the length of the longest observed row.
pub open spec fn max_row_len(rows: Seq<Seq<Seq<char>>>) -> nat
    decreases rows.len(),
{
    if rows.len() == 0 {
        0
    } else {
        nat_max(rows[0].len(), max_row_len(rows.drop_first()))
    }
}

/// The character length of the longest cell in column `col`.
pub open spec fn raw_col_width(rows: Seq<Seq<Seq<char>>>, col: int) -> nat
    decreases rows.len(),
{
    if rows.len() == 0 {
        0
    } else {
        let this = if 0 <= col < rows[0].len() {
            rows[0][col].len()
        } else {
            0
        };
        nat_max(this, raw_col_width(rows.drop_first(), col))
    }
}

/// A column's width: its longest cell, floored at 3.
pub open spec fn col_width(rows: Seq<Seq<Seq<char>>>, col: int) -> nat {
    nat_max(raw_col_width(rows, col), 3)
}

pub open spec fn col_widths_seq(rows: Seq<Seq<Seq<char>>>, ncols: nat) -> Seq<nat> {
    Seq::new(ncols, |i: int| col_width(rows, i))
}

pub open spec fn widths_of(ws: Seq<usize>) -> Seq<nat> {
    Seq::new(ws.len(), |i: int| ws[i] as nat)
}

/// The cell runs of a border line: each column's fill, two wider than the
/// column, with a joint between columns.
pub open spec fn sep_cells(widths: Seq<nat>, mid: Seq<char>) -> Seq<char>
    decreases widths.len(),
{
    if widths.len() == 0 {
        Seq::empty()
    } else {
        char_repeat('\u{2500}', widths[0] + 2) + (if widths.len() > 1 {
            mid
        } else {
            Seq::<char>::empty()
        }) + sep_cells(widths.drop_first(), mid)
    }
}

/// A full border line, styled dim when color is enabled.
pub open spec fn sep_line_view(
    widths: Seq<nat>,
    left: Seq<char>,
    mid: Seq<char>,
    right: Seq<char>,
    use_color: bool,
) -> Seq<char> {
    styled_view("  "@ + left + sep_cells(widths, mid) + right, DIM@, use_color)
}

/// A cell padded with spaces to its column width (left-justified; a cell
/// already at or past the width is kept as it is).
pub open spec fn cell_padded(cell: Seq<char>, w: nat) -> Seq<char> {
    cell + char_repeat(' ', if w > cell.len() {
        (w - cell.len()) as nat
    } else {
        0
    })
}

pub open spec fn row_lead(use_color: bool) -> Seq<char> {
    if use_color {
        "  "@ + DIM@ + "\u{2502}"@ + RESET@ + " "@
    } else {
        "  | "@
    }
}

pub open spec fn row_mid(use_color: bool) -> Seq<char> {
    if use_color {
        " "@ + DIM@ + "\u{2502}"@ + RESET@ + " "@
    } else {
        " | "@
    }
}

pub open spec fn row_trail(use_color: bool) -> Seq<char> {
    if use_color {
        " "@ + DIM@ + "\u{2502}"@ + RESET@
    } else {
        " |"@
    }
}

/// The cells of one table row from position `j` on, padded and separated;
/// the cells of the header row are additionally bold.
pub open spec fn row_cells_view(
    row: Seq<Seq<char>>,
    widths: Seq<nat>,
    j: int,
    ncols: nat,
    header: bool,
    use_color: bool,
) -> Seq<char>
    decreases row.len() - j,
{
    if j < 0 || j >= row.len() {
        Seq::empty()
    } else {
        let w = if 0 <= j < widths.len() {
            widths[j]
        } else {
            3
        };
        let padded = cell_padded(row[j], w);
        let cell_text = if header {
            styled_view(padded, BOLD@, use_color)
        } else {
            padded
        };
        cell_text + (if j + 1 < ncols {
            row_mid(use_color)
        } else {
            Seq::<char>::empty()
        }) + row_cells_view(row, widths, j + 1, ncols, header, use_color)
    }
}

/// A full bordered table row line.
pub open spec fn row_line_view(
    row: Seq<Seq<char>>,
    widths: Seq<nat>,
    ncols: nat,
    header: bool,
    use_color: bool,
) -> Seq<char> {
    row_lead(use_color) + row_cells_view(row, widths, 0, ncols, header, use_color) + row_trail(
        use_color,
    )
}

/// The row lines of the table from row `idx` on; the first row is the
/// header and is followed by a header/body separator.
pub open spec fn table_body_lines(
    rows: Seq<Seq<Seq<char>>>,
    widths: Seq<nat>,
    ncols: nat,
    idx: int,
    use_color: bool,
) -> Seq<Seq<char>>
    decreases rows.len() - idx,
{
    if idx < 0 || idx >= rows.len() {
        Seq::empty()
    } else {
        seq![row_line_view(rows[idx], widths, ncols, idx == 0, use_color)] + (if idx == 0 {
            seq![
                sep_line_view(widths, "\u{251c}"@, "\u{253c}"@, "\u{2524}"@, use_color),
            ]
        } else {
            Seq::<Seq<char>>::empty()
        }) + table_body_lines(rows, widths, ncols, idx + 1, use_color)
    }
}

/// All lines emitted for a finished table: top border, header row, header
/// separator, body rows, bottom border.
pub open spec fn table_lines(rows: Seq<Seq<Seq<char>>>, use_color: bool) -> Seq<Seq<char>> {
    let ncols = max_row_len(rows);
    let widths = col_widths_seq(rows, ncols);
    seq![
        sep_line_view(widths, "\u{250c}"@, "\u{252c}"@, "\u{2510}"@, use_color),
    ] + table_body_lines(rows, widths, ncols, 0, use_color) + seq![
        sep_line_view(widths, "\u{2514}"@, "\u{2534}"@, "\u{2518}"@, use_color),
    ]
}

/// One step for a table end: render the accumulated rows (a table with no
/// rows emits nothing and is left untouched) and clear the table state.
pub open spec fn step_table_end(m: RenderModel) -> RenderModel {
    if m.table_rows.len() == 0 {
        m
    } else {
        RenderModel {
            lines: m.lines + table_lines(m.table_rows, m.use_color),
            table_rows: Seq::empty(),
            table_alignments: Seq::empty(),
            ..m
        }
    }
}

/// A cell padded with spaces to width `w`.
fn pad_cell(cell: &str, w: usize) -> (r: String)
    ensures
        r@ == cell_padded(cell@, w as nat),
{
    let len = cell.unicode_len();
    let pad = if w > len {
        w - len
    } else {
        0
    };
    let mut r = cell.to_owned();
    proof {
        reveal_strlit(" ");
    }
    let spaces = crate::style::repeat_str(" ", pad);
    r.append(spaces.as_str());
    proof {
        assert(r@ =~= cell_padded(cell@, w as nat));
    }
    r
}

/// One table border line.
fn table_sep(
    widths: &Vec<usize>,
    left: &'static str,
    mid_piece: &'static str,
    right: &'static str,
    use_color: bool,
) -> (r: String)
    ensures
        r@ == sep_line_view(widths_of(widths@), left@, mid_piece@, right@, use_color),
{
    let ghost ws = widths_of(widths@);
    let mut line = "  ".to_owned();
    line.append(left);
    let n = widths.len();
    let mut i: usize = 0;
    proof {
        assert(ws.skip(0) =~= ws);
    }
    while i < n
        invariant
            n == widths@.len(),
            ws == widths_of(widths@),
            ws.len() == n,
            i <= n,
            line@ + sep_cells(ws.skip(i as int), mid_piece@) == "  "@ + left@ + sep_cells(
                ws,
                mid_piece@,
            ),
        decreases n - i,
    {
        proof {
            assert(ws.skip(i as int).len() > 0);
            assert(ws.skip(i as int)[0] == widths@[i as int] as nat);
            assert(ws.skip(i as int).drop_first() =~= ws.skip(i as int + 1));
            reveal_strlit("\u{2500}");
            reveal_strlit("\u{2500}\u{2500}");
        }
        let fill = crate::style::repeat_str("\u{2500}", widths[i]);
        line.append(fill.as_str());
        line.append("\u{2500}\u{2500}");
        proof {
            assert(char_repeat('\u{2500}', (widths@[i as int] + 2) as nat) =~= char_repeat(
                '\u{2500}',
                widths@[i as int] as nat,
            ) + "\u{2500}\u{2500}"@);
        }
        if i + 1 < n {
            line.append(mid_piece);
        }
        i = i + 1;
    }
    proof {
        assert(sep_cells(ws.skip(n as int), mid_piece@) =~= Seq::<char>::empty());
        assert(line@ =~= "  "@ + left@ + sep_cells(ws, mid_piece@));
    }
    line.append(right);
    styled1(line.as_str(), DIM, use_color)
}

/// One padded (and, in the header row, bold) cell, followed by a column
/// separator when another column follows.
fn cell_piece(cell: &str, w: usize, more: bool, header: bool, use_color: bool) -> (r: String)
    ensures
        r@ == ({
            let padded = cell_padded(cell@, w as nat);
            let cell_text = if header {
                styled_view(padded, BOLD@, use_color)
            } else {
                padded
            };
            cell_text + (if more {
                row_mid(use_color)
            } else {
                Seq::<char>::empty()
            })
        }),
{
    let padded = pad_cell(cell, w);
    let mut r = if header {
        styled1(padded.as_str(), BOLD, use_color)
    } else {
        padded
    };
    let ghost base = r@;
    if more {
        if use_color {
            r.append(" ");
            r.append(DIM);
            r.append("\u{2502}");
            r.append(RESET);
            r.append(" ");
        } else {
            r.append(" | ");
        }
        proof {
            assert(r@ =~= base + row_mid(use_color));
        }
    } else {
        proof {
            assert(r@ =~= base + Seq::<char>::empty());
        }
    }
    r
}

/// One bordered, padded table row line.
#[verifier::rlimit(100)]
fn table_row_line(
    row: &Vec<String>,
    widths: &Vec<usize>,
    ncols: usize,
    header: bool,
    use_color: bool,
) -> (r: String)
    ensures
        r@ == row_line_view(
            row.deep_view(),
            widths_of(widths@),
            ncols as nat,
            header,
            use_color,
        ),
{
    let ghost rdv = row.deep_view();
    let ghost ws = widths_of(widths@);
    let mut line: String = if use_color {
        let mut t = "  ".to_owned();
        t.append(DIM);
        t.append("\u{2502}");
        t.append(RESET);
        t.append(" ");
        t
    } else {
        "  | ".to_owned()
    };
    proof {
        assert(line@ =~= row_lead(use_color));
    }
    let n = row.len();
    let mut j: usize = 0;
    while j < n
        invariant
            n == row@.len(),
            rdv == row.deep_view(),
            ws == widths_of(widths@),
            rdv.len() == n,
            ws.len() == widths@.len(),
            j <= n,
            line@ + row_cells_view(rdv, ws, j as int, ncols as nat, header, use_color) == row_lead(
                use_color,
            ) + row_cells_view(rdv, ws, 0, ncols as nat, header, use_color),
        decreases n - j,
    {
        proof {
            assert(rdv[j as int] == row@[j as int]@);
        }
        let w = if j < widths.len() {
            widths[j]
        } else {
            3
        };
        let piece = cell_piece(row[j].as_str(), w, j + 1 < ncols, header, use_color);
        let ghost prev = line@;
        line.append(piece.as_str());
        proof {
            assert(w as nat == (if 0 <= j < ws.len() {
                ws[j as int]
            } else {
                3
            }));
            assert(prev + (piece@ + row_cells_view(
                rdv,
                ws,
                j as int + 1,
                ncols as nat,
                header,
                use_color,
            )) =~= line@ + row_cells_view(rdv, ws, j as int + 1, ncols as nat, header, use_color));
        }
        j = j + 1;
    }
    proof {
        assert(row_cells_view(rdv, ws, n as int, ncols as nat, header, use_color) =~= Seq::<
            char,
        >::empty());
        assert(line@ =~= row_lead(use_color) + row_cells_view(
            rdv,
            ws,
            0,
            ncols as nat,
            header,
            use_color,
        ));
    }
    if use_color {
        line.append(" ");
        line.append(DIM);
        line.append("\u{2502}");
        line.append(RESET);
    } else {
        line.append(" |");
    }
    proof {
        assert(line@ =~= row_line_view(rdv, ws, ncols as nat, header, use_color));
    }
    line
}

/// Render the accumulated table rows as bordered lines and clear the table
/// state; a table with no rows emits nothing.
#[verifier::rlimit(100)]
pub fn render_table(state: &mut RenderState)
    ensures
        final(state)@ == step_table_end(old(state)@),
{
    if state.table_rows.len() == 0 {
        proof {
            assert(state@ =~~= step_table_end(old(state)@));
        }
        return ;
    }
    let mut rows: Vec<Vec<String>> = Vec::new();
    core::mem::swap(&mut rows, &mut state.table_rows);
    let ghost rdv = rows.deep_view();
    let use_color = state.use_color;

    // Column count: the longest observed row.
    let mut num_cols: usize = 0;
    let nrows = rows.len();
    let mut r: usize = 0;
    proof {
        assert(rdv.skip(0) =~= rdv);
    }
    while r < nrows
        invariant
            nrows == rows@.len(),
            rdv == rows.deep_view(),
            rdv.len() == nrows,
            r <= nrows,
            nat_max(num_cols as nat, max_row_len(rdv.skip(r as int))) == max_row_len(rdv),
        decreases nrows - r,
    {
        proof {
            assert(rdv.skip(r as int).len() > 0);
            assert(rdv.skip(r as int)[0] == rdv[r as int]);
            assert(rdv.skip(r as int).drop_first() =~= rdv.skip(r as int + 1));
            assert(rdv[r as int].len() == rows@[r as int]@.len());
        }
        if rows[r].len() > num_cols {
            num_cols = rows[r].len();
        }
        r = r + 1;
    }
    proof {
        assert(max_row_len(rdv.skip(nrows as int)) == 0);
        assert(num_cols as nat == max_row_len(rdv));
    }

    // Column widths: longest cell per column, floored at 3.
    let mut widths: Vec<usize> = Vec::new();
    let mut col: usize = 0;
    while col < num_cols
        invariant
            rdv == rows.deep_view(),
            rdv.len() == rows@.len(),
            col <= num_cols,
            widths@.len() == col,
            forall|k: int| 0 <= k < col ==> widths@[k] as nat == col_width(rdv, k),
        decreases num_cols - col,
    {
        let mut w: usize = 0;
        let mut r2: usize = 0;
        let nr = rows.len();
        proof {
            assert(rdv.skip(0) =~= rdv);
        }
        while r2 < nr
            invariant
                nr == rows@.len(),
                rdv == rows.deep_view(),
                rdv.len() == nr,
                r2 <= nr,
                nat_max(w as nat, raw_col_width(rdv.skip(r2 as int), col as int)) == raw_col_width(
                    rdv,
                    col as int,
                ),
            decreases nr - r2,
        {
            proof {
                assert(rdv.skip(r2 as int).len() > 0);
                assert(rdv.skip(r2 as int)[0] == rdv[r2 as int]);
                assert(rdv.skip(r2 as int).drop_first() =~= rdv.skip(r2 as int + 1));
                assert(rdv[r2 as int].len() == rows@[r2 as int]@.len());
            }
            if col < rows[r2].len() {
                proof {
                    assert(rdv[r2 as int][col as int] == rows@[r2 as int]@[col as int]@);
                }
                let cl = rows[r2][col].as_str().unicode_len();
                if cl > w {
                    w = cl;
                }
            }
            r2 = r2 + 1;
        }
        proof {
            assert(raw_col_width(rdv.skip(nr as int), col as int) == 0);
            assert(w as nat == raw_col_width(rdv, col as int));
        }
        let floored = if w > 3 {
            w
        } else {
            3
        };
        widths.push(floored);
        col = col + 1;
    }
    let ghost ws = widths_of(widths@);
    proof {
        assert(ws =~= col_widths_seq(rdv, max_row_len(rdv)));
    }

    // Emit: top border, rows (header separator after the first), bottom.
    let ghost tlines = table_lines(rdv, use_color);
    let ghost target = old(state)@.lines + tlines;
    let top = table_sep(&widths, "\u{250c}", "\u{252c}", "\u{2510}", use_color);
    let ghost top_v = top@;
    state.push_line(top);
    proof {
        assert(old(state)@.lines + (seq![top_v] + (table_body_lines(
            rdv,
            ws,
            num_cols as nat,
            0,
            use_color,
        ) + seq![
            sep_line_view(ws, "\u{2514}"@, "\u{2534}"@, "\u{2518}"@, use_color),
        ])) =~= (old(state)@.lines.push(top_v) + table_body_lines(
            rdv,
            ws,
            num_cols as nat,
            0,
            use_color,
        )) + seq![
            sep_line_view(ws, "\u{2514}"@, "\u{2534}"@, "\u{2518}"@, use_color),
        ]);
        assert(target =~= (old(state)@.lines.push(top_v) + table_body_lines(
            rdv,
            ws,
            num_cols as nat,
            0,
            use_color,
        )) + seq![
            sep_line_view(ws, "\u{2514}"@, "\u{2534}"@, "\u{2518}"@, use_color),
        ]);
    }
    let mut idx: usize = 0;
    while idx < nrows
        invariant
            nrows == rows@.len(),
            rdv == rows.deep_view(),
            rdv.len() == nrows,
            idx <= nrows,
            ws == widths_of(widths@),
            ws.len() == widths@.len(),
            use_color == state@.use_color,
            state@ == (RenderModel {
                lines: state@.lines,
                table_rows: Seq::empty(),
                ..old(state)@
            }),
            target =~= (state@.lines + table_body_lines(
                rdv,
                ws,
                num_cols as nat,
                idx as int,
                use_color,
            )) + seq![
                sep_line_view(ws, "\u{2514}"@, "\u{2534}"@, "\u{2518}"@, use_color),
            ],
        decreases nrows - idx,
    {
        let line = table_row_line(&rows[idx], &widths, num_cols, idx == 0, use_color);
        let ghost line_v = line@;
        let ghost before = state@.lines;
        proof {
            assert(rdv[idx as int] == rows@[idx as int].deep_view());
            assert(line_v == row_line_view(
                rdv[idx as int],
                ws,
                num_cols as nat,
                idx == 0,
                use_color,
            ));
        }
        state.push_line(line);
        if idx == 0 {
            let mid = table_sep(&widths, "\u{251c}", "\u{253c}", "\u{2524}", use_color);
            let ghost mid_v = mid@;
            state.push_line(mid);
            proof {
                assert(before + (seq![line_v] + (seq![mid_v] + table_body_lines(
                    rdv,
                    ws,
                    num_cols as nat,
                    idx as int + 1,
                    use_color,
                ))) =~= state@.lines + table_body_lines(
                    rdv,
                    ws,
                    num_cols as nat,
                    idx as int + 1,
                    use_color,
                ));
            }
        } else {
            proof {
                assert(before + (seq![line_v] + table_body_lines(
                    rdv,
                    ws,
                    num_cols as nat,
                    idx as int + 1,
                    use_color,
                )) =~= state@.lines + table_body_lines(
                    rdv,
                    ws,
                    num_cols as nat,
                    idx as int + 1,
                    use_color,
                ));
            }
        }
        idx = idx + 1;
    }
    proof {
        assert(table_body_lines(rdv, ws, num_cols as nat, nrows as int, use_color) =~= Seq::<
            Seq<char>,
        >::empty());
    }
    let bottom = table_sep(&widths, "\u{2514}", "\u{2534}", "\u{2518}", use_color);
    let ghost bottom_v = bottom@;
    state.push_line(bottom);
    state.table_alignments = Vec::new();
    proof {
        assert(state@.lines =~= target);
        assert(state@ =~~= step_table_end(old(state)@));
    }
}

/// The state after running every event of `events` from state `m`.
pub open spec fn run_events(m: RenderModel, events: Seq<MdEvent>) -> RenderModel
    decreases events.len(),
{
    if events.len() == 0 {
        m
    } else {
        run_events(step(m, events[0]), events.drop_first())
    }
}

/// The lines of a full render pass: every event applied in order, then a
/// final flush.
pub open spec fn render_spec(
    events: Seq<MdEvent>,
    width: u16,
    use_color: bool,
    no_wrap: bool,
) -> Seq<Seq<char>> {
    flush_model(run_events(init_model(width, use_color, no_wrap), events)).lines
}

/// A single step grows the list stack by at most one entry.
proof fn lemma_step_stack_le(m: RenderModel, ev: MdEvent)
    ensures
        step(m, ev).list_stack.len() <= m.list_stack.len() + 1,
{
    match ev {
        MdEvent::Start(tag) => {
            match tag {
                MdTag::Heading(_) => {},
                MdTag::Paragraph => {},
                MdTag::BlockQuote => {},
                MdTag::CodeBlock(_) => {},
                MdTag::List(_) => {},
                MdTag::Item => {},
                MdTag::Emphasis => {},
                MdTag::Strong => {},
                MdTag::Strikethrough => {},
                MdTag::Link(_) => {},
                MdTag::Table(_) => {},
                MdTag::TableHead => {},
                MdTag::TableRow => {},
                MdTag::TableCell => {},
            }
        },
        MdEvent::End(tag) => {
            match tag {
                MdTagEnd::Heading => {},
                MdTagEnd::Paragraph => {},
                MdTagEnd::BlockQuote => {},
                MdTagEnd::CodeBlock => {},
                MdTagEnd::List => {},
                MdTagEnd::Item => {},
                MdTagEnd::Emphasis => {},
                MdTagEnd::Strong => {},
                MdTagEnd::Strikethrough => {},
                MdTagEnd::Link => {},
                MdTagEnd::Table => {},
                MdTagEnd::TableHead => {},
                MdTagEnd::TableRow => {},
                MdTagEnd::TableCell => {},
            }
        },
        MdEvent::Text(_) => {},
        MdEvent::InlineCode(_) => {},
        MdEvent::SoftBreak => {},
        MdEvent::HardBreak => {},
        MdEvent::Rule => {},
        MdEvent::TaskMarker(_) => {},
    }
}

/// Render a stream of document events into styled terminal lines.
pub fn render(events: Vec<MdEvent>, width: u16, use_color: bool, no_wrap: bool) -> (lines: Vec<
    String,
>)
    requires
        events@.len() <= usize::MAX / 4,
    ensures
        lines.deep_view() == render_spec(events@, width, use_color, no_wrap),
{
    let ghost m0 = init_model(width, use_color, no_wrap);
    let mut state = RenderState::new(width, use_color, no_wrap);
    let n = events.len();
    let mut i: usize = 0;
    proof {
        assert(events@.skip(0) =~= events@);
    }
    while i < n
        invariant
            n == events@.len(),
            n <= usize::MAX / 4,
            i <= n,
            state@.list_stack.len() <= i,
            run_events(state@, events@.skip(i as int)) == run_events(m0, events@),
        decreases n - i,
    {
        proof {
            assert(events@.skip(i as int).len() > 0);
            assert(events@.skip(i as int)[0] == events@[i as int]);
            assert(events@.skip(i as int).drop_first() =~= events@.skip(i as int + 1));
            lemma_step_stack_le(state@, events@[i as int]);
        }
        let ghost pre = state@;
        let ev = &events[i];
        match ev {
            MdEvent::Start(tag) => handle_start_tag(&mut state, tag),
            MdEvent::End(tag) => handle_end_tag(&mut state, tag),
            MdEvent::Text(s) => handle_text(&mut state, s.as_str()),
            MdEvent::InlineCode(s) => handle_code(&mut state, s.as_str()),
            MdEvent::SoftBreak => handle_soft_break(&mut state),
            MdEvent::HardBreak => handle_hard_break(&mut state),
            MdEvent::Rule => handle_rule(&mut state),
            MdEvent::TaskMarker(checked) => handle_task_marker(&mut state, *checked),
        }
        proof {
            assert(state@ == step(pre, events@[i as int]));
        }
        i = i + 1;
    }
    proof {
        assert(events@.skip(n as int) =~= Seq::<MdEvent>::empty());
    }
    state.flush_wrapped();
    let lines = state.lines;
    lines
}

/// Law (truncate-mode single line): in truncate mode, flushing a non-empty
/// pending line whose prefix leaves room emits exactly one new line; the
/// line fits the configured width, and when the content had to be cut it
/// ends in the ellipsis character.
pub proof fn lemma_truncate_single_line(m: RenderModel)
    requires
        m.no_wrap,
        m.current_line.len() > 0,
        visible_width(indent_prefix_model(m)) < m.width,
    ensures
        flush_model(m).lines.len() == m.lines.len() + 1,
        visible_width(flush_model(m).lines.last()) <= m.width,
        visible_width(indent_prefix_model(m) + m.current_line) > m.width ==> flush_model(
            m,
        ).lines.last().last() == '\u{2026}',
{
    let prefix = indent_prefix_model(m);
    let full = prefix + m.current_line;
    if visible_width(full) <= m.width {
    } else {
        let t = crate::wrap::truncated(full, (m.width - 1) as nat, m.use_color);
        crate::wrap::lemma_truncated_width(full, (m.width - 1) as nat, m.use_color);
        reveal_strlit("\u{2026}");
        assert(t.last() == '\u{2026}');
    }
}

/// No two adjacent output lines are both empty.
pub open spec fn no_adjacent_blanks(lines: Seq<Seq<char>>) -> bool {
    forall|i: int|
        0 <= i && i + 1 < lines.len() ==> !((#[trigger] lines[i]).len() == 0 && lines[i
            + 1].len() == 0)
}

pub open spec fn all_nonempty(lines: Seq<Seq<char>>) -> bool {
    forall|i: int| 0 <= i < lines.len() ==> (#[trigger] lines[i]).len() > 0
}

proof fn lemma_append_nonempty_preserves(lines: Seq<Seq<char>>, added: Seq<Seq<char>>)
    requires
        no_adjacent_blanks(lines),
        all_nonempty(added),
    ensures
        no_adjacent_blanks(lines + added),
{
    let t = lines + added;
    assert forall|i: int| 0 <= i && i + 1 < t.len() implies !((#[trigger] t[i]).len() == 0 && t[i
        + 1].len() == 0) by {
        if i + 1 < lines.len() {
        } else if i >= lines.len() {
            assert(t[i] == added[i - lines.len()]);
        } else {
            assert(t[i + 1] == added[i + 1 - lines.len()]);
        }
    }
}

proof fn lemma_push_nonempty_ok(lines: Seq<Seq<char>>, x: Seq<char>)
    requires
        no_adjacent_blanks(lines),
        x.len() > 0,
    ensures
        no_adjacent_blanks(lines.push(x)),
{
    assert(seq![x][0] == x);
    lemma_append_nonempty_preserves(lines, seq![x]);
    assert(lines.push(x) =~= lines + seq![x]);
}

proof fn lemma_push_blank_ok(lines: Seq<Seq<char>>)
    requires
        no_adjacent_blanks(lines),
        lines.len() == 0 || lines.last().len() > 0,
    ensures
        no_adjacent_blanks(lines.push(Seq::empty())),
{
    let t = lines.push(Seq::<char>::empty());
    assert forall|i: int| 0 <= i && i + 1 < t.len() implies !((#[trigger] t[i]).len() == 0 && t[i
        + 1].len() == 0) by {
        if i + 1 < lines.len() {
            assert(t[i] == lines[i]);
            assert(t[i + 1] == lines[i + 1]);
        } else {
            assert(t[i] == lines[lines.len() - 1]);
        }
    }
}

/// A flush only appends non-empty lines, so it preserves the coalescing
/// invariant.
proof fn lemma_flush_no_adjacent(m: RenderModel)
    requires
        no_adjacent_blanks(m.lines),
    ensures
        no_adjacent_blanks(flush_model(m).lines),
{
    if m.current_line.len() > 0 {
        let text = m.current_line;
        let prefix = indent_prefix_model(m);
        let pvl = visible_width(prefix);
        let avail: nat = if m.width > pvl {
            (m.width - pvl) as nat
        } else {
            0
        };
        if avail == 0 {
            lemma_push_nonempty_ok(m.lines, prefix + text);
        } else if m.no_wrap {
            let full = prefix + text;
            if visible_width(full) <= m.width {
                lemma_push_nonempty_ok(m.lines, full);
            } else {
                let t = crate::wrap::truncated(full, (m.width - 1) as nat, m.use_color);
                reveal_strlit("\u{2026}");
                lemma_push_nonempty_ok(m.lines, t);
            }
        } else {
            crate::wrap::lemma_split_words_nonempty(text, Seq::empty(), false, false);
            crate::wrap::lemma_pack_nonempty(
                crate::wrap::split_words(text),
                prefix,
                0,
                prefix,
                avail,
            );
            lemma_append_nonempty_preserves(m.lines, wrap_text(text, prefix, avail));
        }
    }
}

proof fn lemma_push_blank_no_adjacent(m: RenderModel)
    requires
        no_adjacent_blanks(m.lines),
    ensures
        no_adjacent_blanks(push_blank_model(m).lines),
{
    lemma_flush_no_adjacent(m);
    let f = flush_model(m);
    if f.lines.len() == 0 || f.lines.last().len() > 0 {
        lemma_push_blank_ok(f.lines);
    }
}

proof fn lemma_code_block_lines_nonempty(segs: Seq<Seq<char>>, use_color: bool)
    ensures
        all_nonempty(code_block_lines(segs, use_color)),
    decreases segs.len(),
{
    reveal_strlit("  | ");
    reveal_strlit("  \u{2502} ");
    let res = code_block_lines(segs, use_color);
    if segs.len() > 0 {
        lemma_code_block_lines_nonempty(segs.drop_first(), use_color);
        let sub = code_block_lines(segs.drop_first(), use_color);
        assert(res == seq![code_line_view(segs[0], use_color)] + sub);
        assert forall|i: int| 0 <= i < res.len() implies (#[trigger] res[i]).len() > 0 by {
            if i == 0 {
                assert(res[i] == code_line_view(segs[0], use_color));
            } else {
                assert(res[i] == sub[i - 1]);
            }
        }
    }
}

proof fn lemma_sep_line_nonempty(
    widths: Seq<nat>,
    left: Seq<char>,
    mid: Seq<char>,
    right: Seq<char>,
    use_color: bool,
)
    ensures
        sep_line_view(widths, left, mid, right, use_color).len() > 0,
{
    reveal_strlit("  ");
}

proof fn lemma_table_body_nonempty(
    rows: Seq<Seq<Seq<char>>>,
    widths: Seq<nat>,
    ncols: nat,
    idx: int,
    use_color: bool,
)
    ensures
        all_nonempty(table_body_lines(rows, widths, ncols, idx, use_color)),
    decreases rows.len() - idx,
{
    reveal_strlit("  ");
    reveal_strlit("  | ");
    let res = table_body_lines(rows, widths, ncols, idx, use_color);
    if 0 <= idx < rows.len() {
        lemma_table_body_nonempty(rows, widths, ncols, idx + 1, use_color);
        let sub = table_body_lines(rows, widths, ncols, idx + 1, use_color);
        let hd = seq![row_line_view(rows[idx], widths, ncols, idx == 0, use_color)] + (if idx == 0 {
            seq![sep_line_view(widths, "\u{251c}"@, "\u{253c}"@, "\u{2524}"@, use_color)]
        } else {
            Seq::<Seq<char>>::empty()
        });
        assert(res == hd + sub);
        if idx == 0 {
            lemma_sep_line_nonempty(widths, "\u{251c}"@, "\u{253c}"@, "\u{2524}"@, use_color);
        }
        assert forall|i: int| 0 <= i < res.len() implies (#[trigger] res[i]).len() > 0 by {
            if i < hd.len() {
                assert(res[i] == hd[i]);
            } else {
                assert(res[i] == sub[i - hd.len()]);
            }
        }
    }
}

proof fn lemma_table_lines_nonempty(rows: Seq<Seq<Seq<char>>>, use_color: bool)
    ensures
        all_nonempty(table_lines(rows, use_color)),
{
    let ncols = max_row_len(rows);
    let widths = col_widths_seq(rows, ncols);
    lemma_sep_line_nonempty(widths, "\u{250c}"@, "\u{252c}"@, "\u{2510}"@, use_color);
    lemma_sep_line_nonempty(widths, "\u{2514}"@, "\u{2534}"@, "\u{2518}"@, use_color);
    lemma_table_body_nonempty(rows, widths, ncols, 0, use_color);
    let body = table_body_lines(rows, widths, ncols, 0, use_color);
    let res = table_lines(rows, use_color);
    assert forall|i: int| 0 <= i < res.len() implies (#[trigger] res[i]).len() > 0 by {
        if i == 0 {
        } else if i <= body.len() {
            assert(res[i] == body[i - 1]);
        }
    }
}

#[verifier::rlimit(100)]
proof fn lemma_step_start_no_adjacent(m: RenderModel, tag: MdTag)
    requires
        no_adjacent_blanks(m.lines),
        m.width > 0 || m.use_color,
    ensures
        no_adjacent_blanks(step_start(m, tag).lines),
        step_start(m, tag).width == m.width,
        step_start(m, tag).use_color == m.use_color,
        step_start(m, tag).no_wrap == m.no_wrap,
{
    match tag {
        MdTag::Heading(_) => {
            lemma_push_blank_no_adjacent(m);
        },
        MdTag::Paragraph => {
            if !m.in_code_block {
                lemma_push_blank_no_adjacent(m);
            }
        },
        MdTag::BlockQuote => {
            lemma_push_blank_no_adjacent(RenderModel { in_blockquote: true, ..m });
        },
        MdTag::CodeBlock(lang) => {
            let m1 = push_blank_model(RenderModel { in_code_block: true, ..m });
            lemma_push_blank_no_adjacent(RenderModel { in_code_block: true, ..m });
            let lv: Option<Seq<char>> = match lang {
                Some(l) => Some(l@),
                None => None,
            };
            reveal_strlit("  \u{256d}\u{2500} ");
            reveal_strlit("  \u{256d}\u{2500}\u{2500}\u{2500}");
            lemma_push_nonempty_ok(m1.lines, code_top_border(lv, m.use_color));
        },
        MdTag::List(_) => {
            if m.list_stack.len() == 0 {
                lemma_push_blank_no_adjacent(m);
            }
        },
        MdTag::Item => {
            lemma_flush_no_adjacent(m);
        },
        MdTag::Emphasis => {},
        MdTag::Strong => {},
        MdTag::Strikethrough => {},
        MdTag::Link(_) => {},
        MdTag::Table(_) => {
            lemma_push_blank_no_adjacent(m);
        },
        MdTag::TableHead => {},
        MdTag::TableRow => {},
        MdTag::TableCell => {},
    }
}

#[verifier::rlimit(100)]
proof fn lemma_step_end_no_adjacent(m: RenderModel, tag: MdTagEnd)
    requires
        no_adjacent_blanks(m.lines),
        m.width > 0 || m.use_color,
    ensures
        no_adjacent_blanks(step_end(m, tag).lines),
        step_end(m, tag).width == m.width,
        step_end(m, tag).use_color == m.use_color,
        step_end(m, tag).no_wrap == m.no_wrap,
{
    match tag {
        MdTagEnd::Heading => {
            lemma_flush_no_adjacent(m);
        },
        MdTagEnd::Paragraph => {
            lemma_flush_no_adjacent(m);
        },
        MdTagEnd::BlockQuote => {
            lemma_flush_no_adjacent(m);
        },
        MdTagEnd::CodeBlock => {
            reveal_strlit("  \u{2570}\u{2500}\u{2500}\u{2500}");
            lemma_push_nonempty_ok(
                m.lines,
                styled_view(
                    "  \u{2570}\u{2500}\u{2500}\u{2500}"@,
                    DIM@,
                    m.use_color,
                ),
            );
        },
        MdTagEnd::List => {
            let stack = if m.list_stack.len() > 0 {
                m.list_stack.drop_last()
            } else {
                m.list_stack
            };
            let m1 = RenderModel { list_stack: stack, indent: stack.len() * 2, ..m };
            if stack.len() == 0 {
                lemma_push_blank_no_adjacent(m1);
            }
        },
        MdTagEnd::Item => {
            lemma_flush_no_adjacent(m);
        },
        MdTagEnd::Emphasis => {},
        MdTagEnd::Strong => {},
        MdTagEnd::Strikethrough => {},
        MdTagEnd::Link => {},
        MdTagEnd::Table => {
            if m.table_rows.len() > 0 {
                lemma_table_lines_nonempty(m.table_rows, m.use_color);
                lemma_append_nonempty_preserves(
                    m.lines,
                    table_lines(m.table_rows, m.use_color),
                );
            }
        },
        MdTagEnd::TableHead => {},
        MdTagEnd::TableRow => {},
        MdTagEnd::TableCell => {},
    }
}

/// One step of the renderer preserves the coalescing invariant and never
/// changes the configuration. Color-less output at inner width 0 is left
/// out: there a horizontal rule is itself an empty line.
#[verifier::rlimit(100)]
proof fn lemma_step_no_adjacent(m: RenderModel, ev: MdEvent)
    requires
        no_adjacent_blanks(m.lines),
        m.width > 0 || m.use_color,
    ensures
        no_adjacent_blanks(step(m, ev).lines),
        step(m, ev).width == m.width,
        step(m, ev).use_color == m.use_color,
        step(m, ev).no_wrap == m.no_wrap,
{
    reveal_strlit("\u{0020}");
    match ev {
        MdEvent::Start(tag) => {
            lemma_step_start_no_adjacent(m, tag);
        },
        MdEvent::End(tag) => {
            lemma_step_end_no_adjacent(m, tag);
        },
        MdEvent::Text(s) => {
            if m.in_code_block {
                lemma_code_block_lines_nonempty(split_newlines(s@), m.use_color);
                lemma_append_nonempty_preserves(
                    m.lines,
                    code_block_lines(split_newlines(s@), m.use_color),
                );
            }
        },
        MdEvent::InlineCode(_) => {},
        MdEvent::SoftBreak => {},
        MdEvent::HardBreak => {
            lemma_flush_no_adjacent(m);
        },
        MdEvent::Rule => {
            lemma_push_blank_no_adjacent(m);
            let m1 = push_blank_model(m);
            let rule = styled_view(char_repeat('\u{2500}', m1.width), DIM@, m1.use_color);
            if m.use_color {
                crate::style::lemma_reset_is_style_code();
            }
            lemma_push_nonempty_ok(m1.lines, rule);
            lemma_push_blank_no_adjacent(RenderModel { lines: m1.lines.push(rule), ..m1 });
        },
        MdEvent::TaskMarker(_) => {},
    }
}

proof fn lemma_run_no_adjacent(m: RenderModel, events: Seq<MdEvent>)
    requires
        no_adjacent_blanks(m.lines),
        m.width > 0 || m.use_color,
    ensures
        no_adjacent_blanks(run_events(m, events).lines),
        run_events(m, events).width == m.width,
        run_events(m, events).use_color == m.use_color,
    decreases events.len(),
{
    if events.len() > 0 {
        lemma_step_no_adjacent(m, events[0]);
        lemma_run_no_adjacent(step(m, events[0]), events.drop_first());
    }
}

/// Law (no consecutive blank lines): the rendered output never holds two
/// adjacent empty lines. Left out is color-less rendering at a terminal
/// width so small that the reserved margin leaves no columns at all: there
/// a horizontal rule is itself rendered as an empty line.
pub proof fn lemma_render_no_adjacent_blanks(
    events: Seq<MdEvent>,
    width: u16,
    use_color: bool,
    no_wrap: bool,
)
    requires
        width > 2 || use_color,
    ensures
        no_adjacent_blanks(render_spec(events, width, use_color, no_wrap)),
{
    let m0 = init_model(width, use_color, no_wrap);
    lemma_run_no_adjacent(m0, events);
    lemma_flush_no_adjacent(run_events(m0, events));
}

/// Law (width containment): in wrap mode, when no style-aware word of the
/// pending line is wider than the room the prefix leaves, every line that a
/// flush emits has visible width at most the configured width. A single
/// overlong word is the one documented exception, covered by
/// `crate::wrap::lemma_wrap_width_containment`.
pub proof fn lemma_flush_width_containment(m: RenderModel)
    requires
        !m.no_wrap,
        visible_width(indent_prefix_model(m)) < m.width,
        crate::wrap::words_fit(
            crate::wrap::split_words(m.current_line),
            (m.width - visible_width(indent_prefix_model(m))) as nat,
        ),
    ensures
        forall|i: int|
            m.lines.len() <= i < flush_model(m).lines.len() ==> visible_width(
                #[trigger] flush_model(m).lines[i],
            ) <= m.width,
{
    if m.current_line.len() > 0 {
        let prefix = indent_prefix_model(m);
        let avail = (m.width - visible_width(prefix)) as nat;
        let wrapped = wrap_text(m.current_line, prefix, avail);
        crate::wrap::lemma_wrap_width_containment(m.current_line, prefix, avail, avail);
        assert forall|i: int|
            m.lines.len() <= i < flush_model(m).lines.len() implies visible_width(
            #[trigger] flush_model(m).lines[i],
        ) <= m.width by {
            assert(flush_model(m).lines[i] == wrapped[i - m.lines.len()]);
        }
    }
}

} // verus!
