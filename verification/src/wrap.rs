//! Escape-aware word splitting, greedy word-wrap packing, and truncation.
//!
//! The atomic unit of wrapping is a style-aware word: a maximal run of
//! non-whitespace characters with any escape runs it contains kept attached.
//! Inter-word whitespace is discarded and a single space is re-inserted
//! between words during packing.

use vstd::prelude::*;

use crate::style::{
    esc_after, esc_intro, is_ascii_alpha, visible_width, visible_width_from, RESET,
};

verus! {

pub open spec fn is_word_sep(c: char) -> bool {
    c == ' ' || c == '\t'
}

/// The style-aware words of `s`, scanned with a partial word `cur` in hand,
/// escape state `esc0`, and `has_vis` recording whether `cur` holds any
/// visible character yet.
pub open spec fn split_words_from(s: Seq<char>, cur: Seq<char>, esc0: bool, has_vis: bool) -> Seq<
    Seq<char>,
>
    decreases s.len(),
{
    if s.len() == 0 {
        if cur.len() > 0 {
            seq![cur]
        } else {
            Seq::empty()
        }
    } else {
        let c = s[0];
        let rest = s.drop_first();
        if esc0 {
            split_words_from(rest, cur.push(c), !is_ascii_alpha(c), has_vis)
        } else if c == esc_intro() {
            split_words_from(rest, cur.push(c), true, has_vis)
        } else if is_word_sep(c) {
            if has_vis {
                seq![cur] + split_words_from(rest, Seq::empty(), false, false)
            } else {
                split_words_from(rest, cur, false, has_vis)
            }
        } else {
            split_words_from(rest, cur.push(c), false, true)
        }
    }
}

pub open spec fn split_words(s: Seq<char>) -> Seq<Seq<char>> {
    split_words_from(s, Seq::empty(), false, false)
}

/// The prefix of `s` kept by truncation: characters are copied (escape runs
/// passed through uncounted) until `left` visible characters have been
/// copied; the copy then stops at the next visible character.
pub open spec fn truncate_prefix(s: Seq<char>, esc0: bool, left: nat) -> Seq<char>
    decreases s.len(),
{
    if s.len() == 0 {
        Seq::empty()
    } else {
        let c = s[0];
        let rest = s.drop_first();
        if esc0 {
            seq![c] + truncate_prefix(rest, !is_ascii_alpha(c), left)
        } else if c == esc_intro() {
            seq![c] + truncate_prefix(rest, true, left)
        } else if left == 0 {
            Seq::empty()
        } else {
            seq![c] + truncate_prefix(rest, false, (left - 1) as nat)
        }
    }
}

/// What `truncate_styled` produces: the kept prefix, a reset when color is
/// enabled, and a single ellipsis character.
pub open spec fn truncated(s: Seq<char>, max_visible: nat, use_color: bool) -> Seq<char> {
    truncate_prefix(s, false, max_visible) + (if use_color {
        RESET@
    } else {
        Seq::<char>::empty()
    }) + "…"@
}

/// Greedy packing of words into lines: `buf` is the line under construction,
/// `vis` the visible width it has accumulated past its prefix. A word joins
/// the current line if a separating space still fits; the first word of a
/// line always joins, however wide.
pub open spec fn pack_words_from(
    words: Seq<Seq<char>>,
    buf: Seq<char>,
    vis: nat,
    prefix: Seq<char>,
    avail: nat,
) -> Seq<Seq<char>>
    decreases words.len(),
{
    if words.len() == 0 {
        if vis > 0 || buf.len() > 0 {
            seq![buf]
        } else {
            Seq::empty()
        }
    } else {
        let w = words[0];
        let rest = words.drop_first();
        let wv = visible_width(w);
        if vis == 0 {
            pack_words_from(rest, buf + w, wv, prefix, avail)
        } else if vis + 1 + wv <= avail {
            pack_words_from(rest, buf + seq![' '] + w, vis + 1 + wv, prefix, avail)
        } else {
            seq![buf] + pack_words_from(rest, prefix + w, wv, prefix, avail)
        }
    }
}

/// The lines produced by word-wrapping `text` behind `prefix` into
/// `avail` columns of visible width.
pub open spec fn wrap_text(text: Seq<char>, prefix: Seq<char>, avail: nat) -> Seq<Seq<char>> {
    pack_words_from(split_words(text), prefix, 0, prefix, avail)
}

pub open spec fn words_fit(words: Seq<Seq<char>>, m: nat) -> bool {
    forall|i: int| 0 <= i < words.len() ==> visible_width(#[trigger] words[i]) <= m
}

/// Every word produced by splitting is non-empty.
pub proof fn lemma_split_words_nonempty(s: Seq<char>, cur: Seq<char>, esc0: bool, has_vis: bool)
    requires
        has_vis ==> cur.len() > 0,
    ensures
        forall|i: int|
            0 <= i < split_words_from(s, cur, esc0, has_vis).len() ==> #[trigger] split_words_from(
                s,
                cur,
                esc0,
                has_vis,
            )[i].len() > 0,
    decreases s.len(),
{
    let res = split_words_from(s, cur, esc0, has_vis);
    if s.len() > 0 {
        let c = s[0];
        let rest = s.drop_first();
        let cur1 = if esc0 || c == esc_intro() || !is_word_sep(c) {
            cur.push(c)
        } else {
            cur
        };
        let esc1 = if esc0 {
            !is_ascii_alpha(c)
        } else {
            c == esc_intro()
        };
        let hv1 = if esc0 || c == esc_intro() {
            has_vis
        } else if is_word_sep(c) {
            has_vis
        } else {
            true
        };
        if !esc0 && c != esc_intro() && is_word_sep(c) && has_vis {
            lemma_split_words_nonempty(rest, Seq::empty(), false, false);
            let sub = split_words_from(rest, Seq::empty(), false, false);
            assert(res == seq![cur] + sub);
            assert forall|i: int| 0 <= i < res.len() implies #[trigger] res[i].len() > 0 by {
                if i == 0 {
                    assert(res[i] == cur);
                } else {
                    assert(res[i] == sub[i - 1]);
                }
            }
        } else {
            lemma_split_words_nonempty(rest, cur1, esc1, hv1);
            let sub = split_words_from(rest, cur1, esc1, hv1);
            assert(res == sub);
            assert forall|i: int| 0 <= i < res.len() implies #[trigger] res[i].len() > 0 by {
                assert(res[i] == sub[i]);
            }
        }
    }
}

/// The visible width of a line built from counted pieces is at most the sum
/// of the counts: appending `w` after `buf` adds at most `visible_width(w)`.
proof fn lemma_append_width(buf: Seq<char>, w: Seq<char>)
    ensures
        visible_width(buf + w) <= visible_width(buf) + visible_width(w),
{
    crate::style::lemma_scan_concat(buf, w, false);
    if esc_after(buf, false) {
        crate::style::lemma_width_esc_le(w);
    }
}

/// Law (width containment, packing step): when every word has visible width
/// at most `m`, every packed line has visible width at most the prefix width
/// plus the larger of `avail` and `m`.
pub proof fn lemma_pack_contained(
    words: Seq<Seq<char>>,
    buf: Seq<char>,
    vis: nat,
    prefix: Seq<char>,
    avail: nat,
    m: nat,
)
    requires
        words_fit(words, m),
        visible_width(buf) <= visible_width(prefix) + vis,
        vis <= avail || vis <= m,
    ensures
        forall|i: int|
            0 <= i < pack_words_from(words, buf, vis, prefix, avail).len()
                ==> visible_width(#[trigger] pack_words_from(words, buf, vis, prefix, avail)[i])
                <= visible_width(prefix) + (if avail > m {
                avail
            } else {
                m
            }),
    decreases words.len(),
{
    let res = pack_words_from(words, buf, vis, prefix, avail);
    let bound = visible_width(prefix) + (if avail > m {
        avail
    } else {
        m
    });
    if words.len() > 0 {
        let w = words[0];
        let rest = words.drop_first();
        let wv = visible_width(w);
        assert(visible_width(w) <= m);
        assert(words_fit(rest, m)) by {
            assert(forall|i: int|
                0 <= i < rest.len() ==> rest[i] == words[i + 1] && visible_width(
                    #[trigger] rest[i],
                ) <= m);
        }
        if vis == 0 {
            lemma_append_width(buf, w);
            lemma_pack_contained(rest, buf + w, wv, prefix, avail, m);
            let sub = pack_words_from(rest, buf + w, wv, prefix, avail);
            assert(res == sub);
            assert forall|i: int| 0 <= i < res.len() implies visible_width(#[trigger] res[i])
                <= bound by {
                assert(res[i] == sub[i]);
            }
        } else if vis + 1 + wv <= avail {
            lemma_append_width(buf, seq![' ']);
            lemma_append_width(buf + seq![' '], w);
            crate::style::lemma_width_le_len(seq![' '], false);
            lemma_pack_contained(rest, buf + seq![' '] + w, vis + 1 + wv, prefix, avail, m);
            let sub = pack_words_from(rest, buf + seq![' '] + w, vis + 1 + wv, prefix, avail);
            assert(res == sub);
            assert forall|i: int| 0 <= i < res.len() implies visible_width(#[trigger] res[i])
                <= bound by {
                assert(res[i] == sub[i]);
            }
        } else {
            lemma_append_width(prefix, w);
            lemma_pack_contained(rest, prefix + w, wv, prefix, avail, m);
            let sub = pack_words_from(rest, prefix + w, wv, prefix, avail);
            assert(res == seq![buf] + sub);
            assert forall|i: int| 0 <= i < res.len() implies visible_width(#[trigger] res[i])
                <= bound by {
                if i == 0 {
                    assert(res[i] == buf);
                } else {
                    assert(res[i] == sub[i - 1]);
                }
            }
        }
    }
}

/// Law (width containment): when every style-aware word of `text` has
/// visible width at most `m`, every wrapped line has visible width at most
/// `visible_width(prefix) + max(avail, m)`. In particular, when no word is
/// wider than `avail`, every line fits in `visible_width(prefix) + avail`.
pub proof fn lemma_wrap_width_containment(text: Seq<char>, prefix: Seq<char>, avail: nat, m: nat)
    requires
        words_fit(split_words(text), m),
    ensures
        forall|i: int|
            0 <= i < wrap_text(text, prefix, avail).len() ==> visible_width(
                #[trigger] wrap_text(text, prefix, avail)[i],
            ) <= visible_width(prefix) + (if avail > m {
                avail
            } else {
                m
            }),
{
    lemma_pack_contained(split_words(text), prefix, 0, prefix, avail, m);
}

/// Every line produced by packing is a non-empty string, provided a line
/// with visible content is never empty on entry.
pub proof fn lemma_pack_nonempty(
    words: Seq<Seq<char>>,
    buf: Seq<char>,
    vis: nat,
    prefix: Seq<char>,
    avail: nat,
)
    requires
        vis > 0 ==> buf.len() > 0,
        forall|i: int| 0 <= i < words.len() ==> #[trigger] words[i].len() > 0,
    ensures
        forall|i: int|
            0 <= i < pack_words_from(words, buf, vis, prefix, avail).len()
                ==> #[trigger] pack_words_from(words, buf, vis, prefix, avail)[i].len() > 0,
    decreases words.len(),
{
    let res = pack_words_from(words, buf, vis, prefix, avail);
    if words.len() > 0 {
        let w = words[0];
        let rest = words.drop_first();
        let wv = visible_width(w);
        assert(w.len() > 0);
        assert(forall|i: int| 0 <= i < rest.len() ==> #[trigger] rest[i].len() > 0) by {
            assert(forall|i: int| 0 <= i < rest.len() ==> rest[i] == words[i + 1]);
        }
        if vis == 0 {
            lemma_pack_nonempty(rest, buf + w, wv, prefix, avail);
            let sub = pack_words_from(rest, buf + w, wv, prefix, avail);
            assert(res == sub);
            assert forall|i: int| 0 <= i < res.len() implies #[trigger] res[i].len() > 0 by {
                assert(res[i] == sub[i]);
            }
        } else if vis + 1 + wv <= avail {
            lemma_pack_nonempty(rest, buf + seq![' '] + w, vis + 1 + wv, prefix, avail);
            let sub = pack_words_from(rest, buf + seq![' '] + w, vis + 1 + wv, prefix, avail);
            assert(res == sub);
            assert forall|i: int| 0 <= i < res.len() implies #[trigger] res[i].len() > 0 by {
                assert(res[i] == sub[i]);
            }
        } else {
            lemma_pack_nonempty(rest, prefix + w, wv, prefix, avail);
            let sub = pack_words_from(rest, prefix + w, wv, prefix, avail);
            assert(res == seq![buf] + sub);
            assert forall|i: int| 0 <= i < res.len() implies #[trigger] res[i].len() > 0 by {
                if i == 0 {
                    assert(res[i] == buf);
                } else {
                    assert(res[i] == sub[i - 1]);
                }
            }
        }
    }
}

/// The kept prefix of a truncation has at most `left` visible characters,
/// whatever escape state the copy starts in.
pub proof fn lemma_truncate_prefix_width(s: Seq<char>, esc0: bool, left: nat)
    ensures
        visible_width_from(truncate_prefix(s, esc0, left), esc0) <= left,
    decreases s.len(),
{
    if s.len() > 0 {
        let c = s[0];
        let rest = s.drop_first();
        if esc0 {
            lemma_truncate_prefix_width(rest, !is_ascii_alpha(c), left);
            lemma_cons_scan(c, truncate_prefix(rest, !is_ascii_alpha(c), left), esc0);
        } else if c == esc_intro() {
            lemma_truncate_prefix_width(rest, true, left);
            lemma_cons_scan(c, truncate_prefix(rest, true, left), esc0);
        } else if left == 0 {
        } else {
            lemma_truncate_prefix_width(rest, false, (left - 1) as nat);
            lemma_cons_scan(c, truncate_prefix(rest, false, (left - 1) as nat), esc0);
        }
    }
}

/// Unfolds one scanning step over an explicit first character.
proof fn lemma_cons_scan(c: char, rest: Seq<char>, esc0: bool)
    ensures
        visible_width_from(seq![c] + rest, esc0) == if esc0 {
            visible_width_from(rest, !is_ascii_alpha(c))
        } else if c == esc_intro() {
            visible_width_from(rest, true)
        } else {
            1 + visible_width_from(rest, false)
        },
        esc_after(seq![c] + rest, esc0) == if esc0 {
            esc_after(rest, !is_ascii_alpha(c))
        } else if c == esc_intro() {
            esc_after(rest, true)
        } else {
            esc_after(rest, false)
        },
{
    assert((seq![c] + rest)[0] == c);
    assert((seq![c] + rest).drop_first() =~= rest);
}

/// Law (truncation width): the truncated string has visible width at most
/// `max_visible + 1` — the kept visible characters plus the ellipsis.
pub proof fn lemma_truncated_width(s: Seq<char>, max_visible: nat, use_color: bool)
    ensures
        visible_width(truncated(s, max_visible, use_color)) <= max_visible + 1,
{
    let kept = truncate_prefix(s, false, max_visible);
    let mid = if use_color {
        RESET@
    } else {
        Seq::<char>::empty()
    };
    lemma_truncate_prefix_width(s, false, max_visible);
    crate::style::lemma_scan_concat(kept, mid + "…"@, false);
    crate::style::lemma_scan_concat(mid, "…"@, esc_after(kept, false));
    assert(kept + (mid + "…"@) =~= kept + mid + "…"@);
    if use_color {
        crate::style::lemma_reset_is_style_code();
        lemma_reset_width_any(esc_after(kept, false));
    }
    crate::style::lemma_width_le_len("…"@, esc_after(mid, esc_after(kept, false)));
    reveal_strlit("…");
}

/// The reset code has zero visible width from either escape state.
proof fn lemma_reset_width_any(esc0: bool)
    ensures
        visible_width_from(RESET@, esc0) == 0,
        !esc_after(RESET@, esc0),
{
    reveal_strlit("\x1b[0m");
    reveal_with_fuel(visible_width_from, 6);
    reveal_with_fuel(esc_after, 6);
    assert(RESET@.drop_first().drop_first().drop_first().drop_first() =~= Seq::<char>::empty());
}

/// Split a string (possibly containing ANSI codes) into whitespace-delimited
/// words, keeping escape runs attached to the words they surround and
/// discarding the whitespace itself.
pub fn split_styled_words(text: &str) -> (words: Vec<String>)
    ensures
        words.deep_view() == split_words(text@),
{
    let n = text.unicode_len();
    let mut words: Vec<String> = Vec::new();
    let mut pending: String = String::new();
    let mut start: usize = 0;
    let mut i: usize = 0;
    let mut in_escape: bool = false;
    let mut has_visible: bool = false;
    proof {
        assert(text@.skip(0) =~= text@);
        assert(pending@ + text@.subrange(0, 0) =~= Seq::<char>::empty());
    }
    while i < n
        invariant
            n == text@.len(),
            i <= n,
            start <= i,
            has_visible ==> (pending@ + text@.subrange(start as int, i as int)).len() > 0,
            split_words(text@) == words.deep_view() + split_words_from(
                text@.skip(i as int),
                pending@ + text@.subrange(start as int, i as int),
                in_escape,
                has_visible,
            ),
        decreases n - i,
    {
        let ghost cur = pending@ + text@.subrange(start as int, i as int);
        proof {
            assert(text@.skip(i as int).len() > 0);
            assert(text@.skip(i as int)[0] == text@[i as int]);
            assert(text@.skip(i as int).drop_first() =~= text@.skip(i as int + 1));
            assert(cur.push(text@[i as int]) =~= pending@ + text@.subrange(
                start as int,
                i as int + 1,
            ));
        }
        let ch = text.get_char(i);
        if in_escape {
            if ('a' <= ch && ch <= 'z') || ('A' <= ch && ch <= 'Z') {
                in_escape = false;
            }
        } else if ch == '\x1b' {
            in_escape = true;
        } else if ch == ' ' || ch == '\t' {
            if has_visible {
                let ghost old_dv = words.deep_view();
                let mut word = String::new();
                core::mem::swap(&mut word, &mut pending);
                word.append(text.substring_char(start, i));
                words.push(word);
                has_visible = false;
                start = i + 1;
                proof {
                    assert(words.deep_view() =~= old_dv.push(cur));
                    assert(old_dv + (seq![cur] + split_words_from(
                        text@.skip(i as int + 1),
                        Seq::empty(),
                        false,
                        false,
                    )) =~= old_dv.push(cur) + split_words_from(
                        text@.skip(i as int + 1),
                        Seq::empty(),
                        false,
                        false,
                    ));
                    assert(pending@ + text@.subrange(start as int, i as int + 1) =~= Seq::<
                        char,
                    >::empty());
                }
            } else {
                pending.append(text.substring_char(start, i));
                start = i + 1;
                proof {
                    assert(pending@ + text@.subrange(start as int, i as int + 1) =~= cur);
                }
            }
        } else {
            has_visible = true;
        }
        i = i + 1;
    }
    proof {
        assert(text@.skip(n as int) =~= Seq::<char>::empty());
    }
    let ghost cur = pending@ + text@.subrange(start as int, n as int);
    if !pending.as_str().is_empty() || start < n {
        let ghost old_dv = words.deep_view();
        let mut word = String::new();
        core::mem::swap(&mut word, &mut pending);
        word.append(text.substring_char(start, n));
        words.push(word);
        proof {
            assert(cur.len() > 0);
            assert(words.deep_view() =~= old_dv.push(cur));
            assert(old_dv + seq![cur] =~= old_dv.push(cur));
        }
    } else {
        proof {
            assert(cur =~= Seq::<char>::empty());
        }
    }
    words
}

/// Truncate a string containing ANSI codes to `max_visible` visible
/// characters, appending a reset (when color is enabled) and an ellipsis.
pub fn truncate_styled(text: &str, max_visible: usize, use_color: bool) -> (r: String)
    ensures
        r@ == truncated(text@, max_visible as nat, use_color),
{
    let n = text.unicode_len();
    let mut i: usize = 0;
    let mut copied: usize = 0;
    let mut in_escape: bool = false;
    let mut done: bool = false;
    proof {
        assert(text@.skip(0) =~= text@);
        assert(text@.subrange(0, 0) =~= Seq::<char>::empty());
    }
    while i < n && !done
        invariant
            n == text@.len(),
            i <= n,
            copied <= max_visible,
            !done ==> truncate_prefix(text@, false, max_visible as nat) == text@.subrange(
                0,
                i as int,
            ) + truncate_prefix(text@.skip(i as int), in_escape, (max_visible - copied) as nat),
            done ==> truncate_prefix(text@, false, max_visible as nat) == text@.subrange(
                0,
                i as int,
            ),
        decreases n - i, (if done { 0int } else { 1int }),
    {
        proof {
            assert(text@.skip(i as int).len() > 0);
            assert(text@.skip(i as int)[0] == text@[i as int]);
            assert(text@.skip(i as int).drop_first() =~= text@.skip(i as int + 1));
        }
        let ghost pre = text@.subrange(0, i as int);
        let ghost step = text@[i as int];
        proof {
            assert(pre.push(step) =~= text@.subrange(0, i as int + 1));
            assert(pre + (seq![step] + truncate_prefix(
                text@.skip(i as int + 1),
                true,
                (max_visible - copied) as nat,
            )) =~= pre.push(step) + truncate_prefix(
                text@.skip(i as int + 1),
                true,
                (max_visible - copied) as nat,
            ));
            assert(pre + (seq![step] + truncate_prefix(
                text@.skip(i as int + 1),
                false,
                (max_visible - copied) as nat,
            )) =~= pre.push(step) + truncate_prefix(
                text@.skip(i as int + 1),
                false,
                (max_visible - copied) as nat,
            ));
            if copied < max_visible {
                assert(pre + (seq![step] + truncate_prefix(
                    text@.skip(i as int + 1),
                    false,
                    (max_visible - copied - 1) as nat,
                )) =~= pre.push(step) + truncate_prefix(
                    text@.skip(i as int + 1),
                    false,
                    (max_visible - copied - 1) as nat,
                ));
            }
            assert(pre + Seq::<char>::empty() =~= pre);
        }
        let ch = text.get_char(i);
        if in_escape {
            if ('a' <= ch && ch <= 'z') || ('A' <= ch && ch <= 'Z') {
                in_escape = false;
            }
            i = i + 1;
        } else if ch == '\x1b' {
            in_escape = true;
            i = i + 1;
        } else if copied >= max_visible {
            done = true;
        } else {
            copied = copied + 1;
            i = i + 1;
        }
    }
    proof {
        if !done {
            assert(text@.skip(i as int) =~= Seq::<char>::empty());
            assert(text@.subrange(0, i as int) + Seq::<char>::empty() =~= text@.subrange(
                0,
                i as int,
            ));
        }
    }
    let mut r = text.substring_char(0, i).to_owned();
    if use_color {
        r.append(RESET);
    }
    r.append("…");
    proof {
        assert(r@ =~= truncated(text@, max_visible as nat, use_color));
    }
    r
}

/// Word-wrap styled `text` behind `prefix` into lines of at most `available`
/// visible columns past the prefix (a single word wider than `available` is
/// placed alone on its line and allowed to overflow).
pub fn wrap_styled_text(text: &str, prefix: &str, available: usize) -> (lines: Vec<String>)
    ensures
        lines.deep_view() == wrap_text(text@, prefix@, available as nat),
{
    let words = split_styled_words(text);
    let ghost wviews = words.deep_view();
    let mut lines: Vec<String> = Vec::new();
    let mut line_buf: String = prefix.to_owned();
    let mut line_visible: usize = 0;
    let mut j: usize = 0;
    proof {
        assert(wviews.skip(0) =~= wviews);
    }
    while j < words.len()
        invariant
            wviews == words.deep_view(),
            j <= words@.len(),
            wviews.len() == words@.len(),
            wrap_text(text@, prefix@, available as nat) == lines.deep_view() + pack_words_from(
                wviews.skip(j as int),
                line_buf@,
                line_visible as nat,
                prefix@,
                available as nat,
            ),
        decreases words@.len() - j,
    {
        proof {
            assert(wviews.skip(j as int).len() > 0);
            assert(wviews.skip(j as int)[0] == words@[j as int]@);
            assert(wviews.skip(j as int).drop_first() =~= wviews.skip(j as int + 1));
        }
        let seg_visible = crate::style::visible_len(words[j].as_str());
        if line_visible == 0 {
            line_buf.append(words[j].as_str());
            line_visible = seg_visible;
        } else if seg_visible < available && line_visible < available - seg_visible {
            line_buf.append(" ");
            line_buf.append(words[j].as_str());
            proof {
                reveal_strlit(" ");
                assert(" "@ =~= seq![' ']);
            }
            line_visible = line_visible + 1 + seg_visible;
        } else {
            let mut next_buf = prefix.to_owned();
            next_buf.append(words[j].as_str());
            core::mem::swap(&mut next_buf, &mut line_buf);
            let ghost old_dv = lines.deep_view();
            let ghost finished = next_buf@;
            lines.push(next_buf);
            line_visible = seg_visible;
            proof {
                assert(lines.deep_view() =~= old_dv.push(finished));
                assert(old_dv + (seq![finished] + pack_words_from(
                    wviews.skip(j as int + 1),
                    line_buf@,
                    line_visible as nat,
                    prefix@,
                    available as nat,
                )) =~= old_dv.push(finished) + pack_words_from(
                    wviews.skip(j as int + 1),
                    line_buf@,
                    line_visible as nat,
                    prefix@,
                    available as nat,
                ));
            }
        }
        j = j + 1;
    }
    proof {
        assert(wviews.skip(words@.len() as int) =~= Seq::<Seq<char>>::empty());
    }
    if line_visible > 0 || !line_buf.as_str().is_empty() {
        let ghost old_dv = lines.deep_view();
        let ghost buf_view = line_buf@;
        lines.push(line_buf);
        proof {
            assert(lines.deep_view() =~= old_dv.push(buf_view));
            assert(old_dv + seq![buf_view] =~= old_dv.push(buf_view));
        }
    }
    lines
}

} // verus!
