//! The pager's navigation state machine and status-bar layout.
//!
//! The interactive loop itself (raw terminal mode, key reads, drawing) lives
//! outside the library; everything it decides or computes is here: the
//! key-to-command table, the clamped scroll-offset arithmetic, the visible
//! page bounds, and the exact status-bar text.

use vstd::prelude::*;

use crate::numfmt::dec_view;
use crate::style::{char_repeat, visible_width, RESET, REVERSE};

verus! {

/// A navigation command of the pager.
#[derive(Clone, Copy, Debug, PartialEq, Eq, Structural)]
pub enum PagerCommand {
    NextPage,
    PrevPage,
    NextLine,
    PrevLine,
    Top,
    Bottom,
    HalfPageDown,
    HalfPageUp,
}

/// A key event, reduced to plain values.
#[derive(Clone, Copy, Debug, PartialEq, Eq, Structural)]
pub enum KeyInput {
    /// A printable character, and whether the control modifier was held.
    Char(char, bool),
    Enter,
    Escape,
    Up,
    Down,
    PageUp,
    PageDown,
    Home,
    End,
}

/// What the pager does with one key.
#[derive(Clone, Copy, Debug, PartialEq, Eq, Structural)]
pub enum PagerAction {
    Quit,
    Move(PagerCommand),
    Ignore,
}

/// The command table: which action each key triggers. Any unmapped key is a
/// no-op.
pub open spec fn key_action_spec(key: KeyInput) -> PagerAction {
    match key {
        KeyInput::Char(c, ctrl) => {
            if c == 'q' {
                PagerAction::Quit
            } else if c == 'c' && ctrl {
                PagerAction::Quit
            } else if c == ' ' {
                PagerAction::Move(PagerCommand::NextPage)
            } else if c == 'f' && ctrl {
                PagerAction::Move(PagerCommand::NextPage)
            } else if c == 'b' {
                PagerAction::Move(PagerCommand::PrevPage)
            } else if c == 'j' {
                PagerAction::Move(PagerCommand::NextLine)
            } else if c == 'k' {
                PagerAction::Move(PagerCommand::PrevLine)
            } else if c == 'g' {
                PagerAction::Move(PagerCommand::Top)
            } else if c == 'G' {
                PagerAction::Move(PagerCommand::Bottom)
            } else if c == 'd' {
                PagerAction::Move(PagerCommand::HalfPageDown)
            } else if c == 'u' {
                PagerAction::Move(PagerCommand::HalfPageUp)
            } else {
                PagerAction::Ignore
            }
        },
        KeyInput::Enter => PagerAction::Move(PagerCommand::NextLine),
        KeyInput::Escape => PagerAction::Quit,
        KeyInput::Up => PagerAction::Move(PagerCommand::PrevLine),
        KeyInput::Down => PagerAction::Move(PagerCommand::NextLine),
        KeyInput::PageUp => PagerAction::Move(PagerCommand::PrevPage),
        KeyInput::PageDown => PagerAction::Move(PagerCommand::NextPage),
        KeyInput::Home => PagerAction::Move(PagerCommand::Top),
        KeyInput::End => PagerAction::Move(PagerCommand::Bottom),
    }
}

/// Map one key event to its action.
pub fn key_action(key: &KeyInput) -> (a: PagerAction)
    ensures
        a == key_action_spec(*key),
{
    match key {
        KeyInput::Char(c, ctrl) => {
            if *c == 'q' {
                PagerAction::Quit
            } else if *c == 'c' && *ctrl {
                PagerAction::Quit
            } else if *c == ' ' {
                PagerAction::Move(PagerCommand::NextPage)
            } else if *c == 'f' && *ctrl {
                PagerAction::Move(PagerCommand::NextPage)
            } else if *c == 'b' {
                PagerAction::Move(PagerCommand::PrevPage)
            } else if *c == 'j' {
                PagerAction::Move(PagerCommand::NextLine)
            } else if *c == 'k' {
                PagerAction::Move(PagerCommand::PrevLine)
            } else if *c == 'g' {
                PagerAction::Move(PagerCommand::Top)
            } else if *c == 'G' {
                PagerAction::Move(PagerCommand::Bottom)
            } else if *c == 'd' {
                PagerAction::Move(PagerCommand::HalfPageDown)
            } else if *c == 'u' {
                PagerAction::Move(PagerCommand::HalfPageUp)
            } else {
                PagerAction::Ignore
            }
        },
        KeyInput::Enter => PagerAction::Move(PagerCommand::NextLine),
        KeyInput::Escape => PagerAction::Quit,
        KeyInput::Up => PagerAction::Move(PagerCommand::PrevLine),
        KeyInput::Down => PagerAction::Move(PagerCommand::NextLine),
        KeyInput::PageUp => PagerAction::Move(PagerCommand::PrevPage),
        KeyInput::PageDown => PagerAction::Move(PagerCommand::NextPage),
        KeyInput::Home => PagerAction::Move(PagerCommand::Top),
        KeyInput::End => PagerAction::Move(PagerCommand::Bottom),
    }
}

/// The largest admissible scroll offset: max(0, total − page_height).
pub open spec fn spec_max_offset(total: nat, page_height: nat) -> nat {
    if total > page_height {
        (total - page_height) as nat
    } else {
        0
    }
}

pub fn max_offset(total: usize, page_height: usize) -> (r: usize)
    ensures
        r as nat == spec_max_offset(total as nat, page_height as nat),
{
    if total > page_height {
        total - page_height
    } else {
        0
    }
}

/// The offset after one navigation command, clamped to the admissible
/// range; input is never rejected.
pub open spec fn step_offset(offset: nat, cmd: PagerCommand, page_height: nat, total: nat) -> nat {
    let maxo = spec_max_offset(total, page_height);
    match cmd {
        PagerCommand::NextPage => {
            if offset + page_height > maxo {
                maxo
            } else {
                offset + page_height
            }
        },
        PagerCommand::PrevPage => {
            if offset > page_height {
                (offset - page_height) as nat
            } else {
                0
            }
        },
        PagerCommand::NextLine => {
            if offset < maxo {
                offset + 1
            } else {
                offset
            }
        },
        PagerCommand::PrevLine => {
            if offset > 0 {
                (offset - 1) as nat
            } else {
                0
            }
        },
        PagerCommand::Top => 0,
        PagerCommand::Bottom => maxo,
        PagerCommand::HalfPageDown => {
            if offset + page_height / 2 > maxo {
                maxo
            } else {
                offset + page_height / 2
            }
        },
        PagerCommand::HalfPageUp => {
            if offset > page_height / 2 {
                (offset - page_height / 2) as nat
            } else {
                0
            }
        },
    }
}

/// Apply one navigation command to the scroll offset.
pub fn apply_command(offset: usize, cmd: &PagerCommand, page_height: usize, total: usize) -> (r:
    usize)
    requires
        offset as nat <= spec_max_offset(total as nat, page_height as nat),
    ensures
        r as nat == step_offset(offset as nat, *cmd, page_height as nat, total as nat),
        r as nat <= spec_max_offset(total as nat, page_height as nat),
{
    let maxo = max_offset(total, page_height);
    match cmd {
        PagerCommand::NextPage => {
            if maxo - offset <= page_height {
                maxo
            } else {
                offset + page_height
            }
        },
        PagerCommand::PrevPage => {
            if offset > page_height {
                offset - page_height
            } else {
                0
            }
        },
        PagerCommand::NextLine => {
            if offset < maxo {
                offset + 1
            } else {
                offset
            }
        },
        PagerCommand::PrevLine => {
            if offset > 0 {
                offset - 1
            } else {
                0
            }
        },
        PagerCommand::Top => 0,
        PagerCommand::Bottom => maxo,
        PagerCommand::HalfPageDown => {
            if maxo - offset <= page_height / 2 {
                maxo
            } else {
                offset + page_height / 2
            }
        },
        PagerCommand::HalfPageUp => {
            if offset > page_height / 2 {
                offset - page_height / 2
            } else {
                0
            }
        },
    }
}

/// The offset after a whole sequence of navigation commands.
pub open spec fn run_commands(
    offset: nat,
    cmds: Seq<PagerCommand>,
    page_height: nat,
    total: nat,
) -> nat
    decreases cmds.len(),
{
    if cmds.len() == 0 {
        offset
    } else {
        run_commands(step_offset(offset, cmds[0], page_height, total), cmds.drop_first(), page_height, total)
    }
}

/// One command keeps the offset within the admissible range.
pub proof fn lemma_step_offset_in_range(
    offset: nat,
    cmd: PagerCommand,
    page_height: nat,
    total: nat,
)
    requires
        offset <= spec_max_offset(total, page_height),
    ensures
        step_offset(offset, cmd, page_height, total) <= spec_max_offset(total, page_height),
{
}

/// Law (pager offset invariant): after any sequence of navigation commands,
/// the offset stays between 0 and max(0, total − page_height).
pub proof fn lemma_pager_offset_invariant(
    offset: nat,
    cmds: Seq<PagerCommand>,
    page_height: nat,
    total: nat,
)
    requires
        offset <= spec_max_offset(total, page_height),
    ensures
        run_commands(offset, cmds, page_height, total) <= spec_max_offset(total, page_height),
    decreases cmds.len(),
{
    if cmds.len() > 0 {
        lemma_step_offset_in_range(offset, cmds[0], page_height, total);
        lemma_pager_offset_invariant(
            step_offset(offset, cmds[0], page_height, total),
            cmds.drop_first(),
            page_height,
            total,
        );
    }
}

/// Whether an interactive session is needed: a usable viewport and content
/// that overflows one page. Otherwise the lines are simply printed once.
pub fn pager_enabled(total: usize, page_height: usize) -> (r: bool)
    ensures
        r == (page_height > 0 && total > page_height),
{
    page_height > 0 && total > page_height
}

/// The index one past the last visible line of the current page.
pub open spec fn spec_page_end(offset: nat, page_height: nat, total: nat) -> nat {
    if offset + page_height > total {
        total
    } else {
        offset + page_height
    }
}

pub fn page_end(offset: usize, page_height: usize, total: usize) -> (r: usize)
    requires
        offset <= total,
    ensures
        r as nat == spec_page_end(offset as nat, page_height as nat, total as nat),
        offset <= r <= total,
{
    if total - offset <= page_height {
        total
    } else {
        offset + page_height
    }
}

/// Percentage scrolled: the share of lines at or above the bottom of the
/// screen, rounded to the nearest integer; 100 for an empty document.
pub open spec fn spec_percent(end: nat, total: nat) -> nat {
    if total == 0 {
        100
    } else {
        (100 * end + total / 2) / total
    }
}

pub fn percent(end: usize, total: usize) -> (p: usize)
    requires
        end <= total,
    ensures
        p as nat == spec_percent(end as nat, total as nat),
        p <= 100,
{
    if total == 0 {
        100
    } else {
        let num: u128 = 100u128 * (end as u128) + (total as u128) / 2;
        let q: u128 = num / (total as u128);
        proof {
            assert(num == 100 * (end as nat) + (total as nat) / 2);
            assert(num < 101 * (total as u128)) by (nonlinear_arith)
                requires
                    num == 100u128 * (end as u128) + (total as u128) / 2,
                    end as u128 <= total as u128,
                    total as u128 > 0,
            ;
            assert(q <= 100) by (nonlinear_arith)
                requires
                    q == num / (total as u128),
                    num < 101 * (total as u128),
                    total as u128 > 0,
            ;
        }
        q as usize
    }
}

/// The left segment of the status bar, exactly as displayed.
pub open spec fn status_text(title: Seq<char>, offset: nat, end: nat, total: nat) -> Seq<char> {
    " "@ + title + " | lines "@ + dec_view(offset + 1) + "-"@ + dec_view(end) + " of "@ + dec_view(
        total,
    ) + " ("@ + dec_view(spec_percent(end, total)) + "%) "@
}

pub open spec fn help_text() -> Seq<char> {
    " [Space] next  [b] back  [q] quit "@
}

/// The full status bar: reverse-video, the left segment, spaces padding the
/// visible width to the terminal width, the help legend, and a reset.
pub open spec fn status_bar_view(
    title: Seq<char>,
    offset: nat,
    page_height: nat,
    total: nat,
    term_width: nat,
) -> Seq<char> {
    let s = status_text(title, offset, spec_page_end(offset, page_height, total), total);
    let slen = visible_width(s) + visible_width(help_text());
    let pad: nat = if term_width > slen {
        (term_width - slen) as nat
    } else {
        0
    };
    REVERSE@ + s + char_repeat(' ', pad) + help_text() + RESET@
}

/// Build the status bar for the current page.
pub fn status_bar(
    title: &str,
    offset: usize,
    page_height: usize,
    total: usize,
    term_width: usize,
) -> (r: String)
    requires
        page_height >= 1,
        offset as nat <= spec_max_offset(total as nat, page_height as nat),
    ensures
        r@ == status_bar_view(
            title@,
            offset as nat,
            page_height as nat,
            total as nat,
            term_width as nat,
        ),
{
    let end = page_end(offset, page_height, total);
    let pct = percent(end, total);
    let mut s = " ".to_owned();
    s.append(title);
    s.append(" | lines ");
    s.append(crate::numfmt::dec_string_usize(offset + 1).as_str());
    s.append("-");
    s.append(crate::numfmt::dec_string_usize(end).as_str());
    s.append(" of ");
    s.append(crate::numfmt::dec_string_usize(total).as_str());
    s.append(" (");
    s.append(crate::numfmt::dec_string_usize(pct).as_str());
    s.append("%) ");
    let help = " [Space] next  [b] back  [q] quit ";
    proof {
        assert(help@ == help_text());
        assert(s@ =~= status_text(
            title@,
            offset as nat,
            spec_page_end(offset as nat, page_height as nat, total as nat),
            total as nat,
        ));
    }
    let s_len = crate::style::visible_len(s.as_str());
    let help_len = crate::style::visible_len(help);
    let pad_n = if term_width > s_len && term_width - s_len > help_len {
        term_width - s_len - help_len
    } else {
        0
    };
    proof {
        reveal_strlit(" ");
    }
    let padding = crate::style::repeat_str(" ", pad_n);
    let mut r = REVERSE.to_owned();
    r.append(s.as_str());
    r.append(padding.as_str());
    r.append(help);
    r.append(RESET);
    proof {
        assert(r@ =~= status_bar_view(
            title@,
            offset as nat,
            page_height as nat,
            total as nat,
            term_width as nat,
        ));
    }
    r
}

} // verus!
