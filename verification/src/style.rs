//! ANSI/VT100 escape-code helpers and escape-aware text measurement.
//!
//! A string shown on a terminal may contain embedded style-escape runs. An
//! escape run begins at the escape introducer `'\x1b'` and ends at (and
//! includes) the first subsequent ASCII-alphabetic character; it contributes
//! nothing to the visible width of the string.

use vstd::prelude::*;

verus! {

pub const RESET: &'static str = "\x1b[0m";

pub const BOLD: &'static str = "\x1b[1m";

pub const DIM: &'static str = "\x1b[2m";

pub const ITALIC: &'static str = "\x1b[3m";

pub const UNDERLINE: &'static str = "\x1b[4m";

pub const REVERSE: &'static str = "\x1b[7m";

pub const STRIKETHROUGH: &'static str = "\x1b[9m";

pub const FG_CYAN: &'static str = "\x1b[36m";

pub const FG_GREEN: &'static str = "\x1b[32m";

pub const FG_BRIGHT_WHITE: &'static str = "\x1b[97m";

pub const FG_BRIGHT_CYAN: &'static str = "\x1b[96m";

pub const FG_BRIGHT_YELLOW: &'static str = "\x1b[93m";

pub const BG_GREY: &'static str = "\x1b[48;5;236m";

/// The character that introduces an escape run.
pub open spec fn esc_intro() -> char {
    '\x1b'
}

/// An escape run is terminated by the first ASCII-alphabetic character.
pub open spec fn is_ascii_alpha(c: char) -> bool {
    ('a' <= c && c <= 'z') || ('A' <= c && c <= 'Z')
}

/// Number of visible characters of `s` when scanning starts in escape state
/// `esc0` (`true` means the scanner is inside an unfinished escape run).
pub open spec fn visible_width_from(s: Seq<char>, esc0: bool) -> nat
    decreases s.len(),
{
    if s.len() == 0 {
        0
    } else {
        let c = s[0];
        let rest = s.drop_first();
        if esc0 {
            visible_width_from(rest, !is_ascii_alpha(c))
        } else if c == esc_intro() {
            visible_width_from(rest, true)
        } else {
            1 + visible_width_from(rest, false)
        }
    }
}

/// The visible width of a string: one unit per character outside escape runs.
pub open spec fn visible_width(s: Seq<char>) -> nat {
    visible_width_from(s, false)
}

/// The escape state left behind after scanning all of `s` from state `esc0`.
pub open spec fn esc_after(s: Seq<char>, esc0: bool) -> bool
    decreases s.len(),
{
    if s.len() == 0 {
        esc0
    } else {
        let c = s[0];
        let rest = s.drop_first();
        if esc0 {
            esc_after(rest, !is_ascii_alpha(c))
        } else if c == esc_intro() {
            esc_after(rest, true)
        } else {
            esc_after(rest, false)
        }
    }
}

/// A string is plain when it contains no escape introducer at all.
pub open spec fn plain(s: Seq<char>) -> bool {
    forall|i: int| 0 <= i < s.len() ==> s[i] != esc_intro()
}

/// Scanning distributes over concatenation: the right half is scanned from
/// the escape state the left half ends in.
pub proof fn lemma_scan_concat(a: Seq<char>, b: Seq<char>, esc0: bool)
    ensures
        visible_width_from(a + b, esc0) == visible_width_from(a, esc0) + visible_width_from(
            b,
            esc_after(a, esc0),
        ),
        esc_after(a + b, esc0) == esc_after(b, esc_after(a, esc0)),
    decreases a.len(),
{
    if a.len() == 0 {
        assert(a + b =~= b);
    } else {
        let c = a[0];
        let e1 = if esc0 {
            !is_ascii_alpha(c)
        } else {
            c == esc_intro()
        };
        assert((a + b).drop_first() =~= a.drop_first() + b);
        lemma_scan_concat(a.drop_first(), b, e1);
    }
}

/// A plain string is exactly as wide as it is long, and leaves the scanner
/// outside any escape run.
pub proof fn lemma_plain_width(s: Seq<char>)
    requires
        plain(s),
    ensures
        visible_width(s) == s.len(),
        !esc_after(s, false),
    decreases s.len(),
{
    if s.len() > 0 {
        assert(plain(s.drop_first()));
        lemma_plain_width(s.drop_first());
    }
}

/// Starting inside an escape run can only hide characters, never reveal more.
pub proof fn lemma_width_esc_le(s: Seq<char>)
    ensures
        visible_width_from(s, true) <= visible_width_from(s, false),
    decreases s.len(),
{
    if s.len() > 0 {
        lemma_width_esc_le(s.drop_first());
    }
}

/// A string is never wider than it is long.
pub proof fn lemma_width_le_len(s: Seq<char>, esc0: bool)
    ensures
        visible_width_from(s, esc0) <= s.len(),
    decreases s.len(),
{
    if s.len() > 0 {
        let c = s[0];
        let e1 = if esc0 {
            !is_ascii_alpha(c)
        } else {
            c == esc_intro()
        };
        lemma_width_le_len(s.drop_first(), e1);
    }
}

/// A style code is a complete escape run: zero visible width, and it leaves
/// the scanner outside any escape run.
pub open spec fn is_style_code(s: Seq<char>) -> bool {
    visible_width(s) == 0 && !esc_after(s, false)
}

/// The concatenation of the views of a sequence of strings.
pub open spec fn concat_views(codes: Seq<Seq<char>>) -> Seq<char>
    decreases codes.len(),
{
    if codes.len() == 0 {
        Seq::empty()
    } else {
        codes[0] + concat_views(codes.drop_first())
    }
}

/// What `styled` produces: the concatenated codes, the text, then a reset,
/// or the text unchanged when color is disabled.
pub open spec fn styled_view(text: Seq<char>, codes: Seq<char>, use_color: bool) -> Seq<char> {
    if use_color {
        codes + text + RESET@
    } else {
        text
    }
}

/// The reset code is itself a complete escape run.
pub proof fn lemma_reset_is_style_code()
    ensures
        is_style_code(RESET@),
        RESET@.len() == 4,
{
    reveal_strlit("\x1b[0m");
    reveal_with_fuel(visible_width_from, 6);
    reveal_with_fuel(esc_after, 6);
    assert(RESET@.drop_first().drop_first().drop_first().drop_first() =~= Seq::<char>::empty());
}

/// Concatenating complete escape runs yields a complete escape run, so the
/// combination of several style codes is itself a style code.
pub proof fn lemma_style_code_concat(a: Seq<char>, b: Seq<char>)
    requires
        is_style_code(a),
        is_style_code(b),
    ensures
        is_style_code(a + b),
{
    lemma_scan_concat(a, b, false);
}

/// Each named style constant is a complete escape run.
pub proof fn lemma_style_constants_are_codes()
    ensures
        is_style_code(BOLD@),
        is_style_code(DIM@),
        is_style_code(ITALIC@),
        is_style_code(UNDERLINE@),
        is_style_code(REVERSE@),
        is_style_code(STRIKETHROUGH@),
        is_style_code(FG_CYAN@),
        is_style_code(FG_GREEN@),
        is_style_code(FG_BRIGHT_WHITE@),
        is_style_code(FG_BRIGHT_CYAN@),
        is_style_code(FG_BRIGHT_YELLOW@),
        is_style_code(BG_GREY@),
{
    reveal_strlit("\x1b[1m");
    reveal_strlit("\x1b[2m");
    reveal_strlit("\x1b[3m");
    reveal_strlit("\x1b[4m");
    reveal_strlit("\x1b[7m");
    reveal_strlit("\x1b[9m");
    reveal_strlit("\x1b[36m");
    reveal_strlit("\x1b[32m");
    reveal_strlit("\x1b[97m");
    reveal_strlit("\x1b[96m");
    reveal_strlit("\x1b[93m");
    reveal_strlit("\x1b[48;5;236m");
    reveal_with_fuel(visible_width_from, 13);
    reveal_with_fuel(esc_after, 13);
    assert(BOLD@.len() == 4 && BOLD@[0] == '\x1b' && BOLD@[3] == 'm');
}

/// Law (idempotent style stripping): wrapping plain text in style codes does
/// not change its visible width.
pub proof fn lemma_styled_plain_width(text: Seq<char>, codes: Seq<char>, use_color: bool)
    requires
        plain(text),
        is_style_code(codes),
    ensures
        visible_width(styled_view(text, codes, use_color)) == visible_width(text),
{
    if use_color {
        lemma_plain_width(text);
        lemma_reset_is_style_code();
        lemma_scan_concat(codes, text, false);
        lemma_scan_concat(codes + text, RESET@, false);
        assert(codes + text + RESET@ =~= (codes + text) + RESET@);
    }
}

/// `n` copies of the character `c`.
pub open spec fn char_repeat(c: char, n: nat) -> Seq<char> {
    Seq::new(n, |i: int| c)
}

/// `n` copies of the single character held by `piece`.
pub fn repeat_str(piece: &str, n: usize) -> (r: String)
    requires
        piece@.len() == 1,
    ensures
        r@ == char_repeat(piece@[0], n as nat),
{
    let mut r = String::new();
    let mut i: usize = 0;
    proof {
        assert(r@ =~= char_repeat(piece@[0], 0));
    }
    while i < n
        invariant
            i <= n,
            piece@.len() == 1,
            r@ == char_repeat(piece@[0], i as nat),
        decreases n - i,
    {
        r.append(piece);
        i = i + 1;
        proof {
            assert(r@ =~= char_repeat(piece@[0], i as nat));
        }
    }
    r
}

/// Build a style string from multiple codes.
pub fn combine(codes: &[&str]) -> (r: String)
    ensures
        r@ == concat_views(codes.deep_view()),
{
    let ghost all = codes.deep_view();
    let mut r = String::new();
    let n = codes.len();
    let mut i: usize = 0;
    proof {
        assert(all.skip(0) =~= all);
    }
    while i < n
        invariant
            n == codes@.len(),
            all == codes.deep_view(),
            i <= n,
            concat_views(all) == r@ + concat_views(all.skip(i as int)),
        decreases n - i,
    {
        proof {
            assert(all.skip(i as int).len() > 0);
            assert(all.skip(i as int)[0] == codes@[i as int]@);
            assert(all.skip(i as int).drop_first() =~= all.skip(i as int + 1));
        }
        let code: &str = codes[i];
        r.append(code);
        i = i + 1;
    }
    proof {
        assert(all.skip(n as int) =~= Seq::<Seq<char>>::empty());
    }
    r
}

/// Wrap text with style codes, appending a reset at the end; with color
/// disabled the text is returned unchanged.
pub fn styled(text: &str, codes: &[&str], use_color: bool) -> (r: String)
    ensures
        r@ == styled_view(text@, concat_views(codes.deep_view()), use_color),
{
    if !use_color {
        return text.to_owned();
    }
    let mut r = combine(codes);
    r.append(text);
    r.append(RESET);
    r
}

/// The display width of a string, ignoring ANSI escape runs. An unterminated
/// run simply consumes the remainder of the string with zero contribution.
pub fn visible_len(s: &str) -> (len: usize)
    ensures
        len == visible_width(s@),
{
    let n = s.unicode_len();
    let mut len: usize = 0;
    let mut in_escape: bool = false;
    let mut i: usize = 0;
    proof {
        assert(s@.skip(0) =~= s@);
    }
    while i < n
        invariant
            n == s@.len(),
            i <= n,
            len <= i,
            visible_width(s@) == len + visible_width_from(s@.skip(i as int), in_escape),
        decreases n - i,
    {
        proof {
            assert(s@.skip(i as int).len() > 0);
            assert(s@.skip(i as int)[0] == s@[i as int]);
            assert(s@.skip(i as int).drop_first() =~= s@.skip(i as int + 1));
        }
        let ch = s.get_char(i);
        if in_escape {
            if ('a' <= ch && ch <= 'z') || ('A' <= ch && ch <= 'Z') {
                in_escape = false;
            }
        } else if ch == '\x1b' {
            in_escape = true;
        } else {
            len = len + 1;
        }
        i = i + 1;
    }
    proof {
        assert(s@.skip(n as int) =~= Seq::<char>::empty());
    }
    len
}

} // verus!
