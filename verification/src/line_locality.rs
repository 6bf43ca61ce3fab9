//! How what is read relates to the lines of the text. A line that opens no
//! mode block is read from its own characters: what it reads as depends
//! only on the text from its start to its line feed (or to the end of the
//! document), and everything from a position on depends only on the text
//! from there on. Hence a document split after a line feed, with no mode
//! block opened before the split, reads as its two parts, one after the
//! other. A mode block holds the lines that its inside reads as on its
//! own. And the lines read span exactly the lines of the text, so that the
//! line numbers that the checks give are those of the document.

use vstd::prelude::*;

use crate::parser::{
    after_line_break, closing_end, is_blank, kw_mode, lemma_body_bounds, lemma_skip_blanks_facts, mode_header,
    name_end, spec_body, spec_mode, combo_end, ident_end, is_ident_char, kw_bindcode, kw_bindsym, kw_exec,
    kw_no_startup_id, kw_set, lemma_line_end_bounds, lemma_skip_blanks_bounds, line_end,
    line_moves_forward, skip_blanks,
    spec_binding, spec_binding_tail, spec_comment, spec_exec, spec_line, spec_line_content,
    spec_lines, spec_raw, spec_set, split_plus, split_plus_part, text_end, word_at,
};
use crate::lsp::{document_lines, lines_from, newline_pos};
use crate::text::{trimmed, trimmed_part};
use crate::{line_span, lines_span, lines_span_prepend, SpecConfigLine};

verus! {

/// `s` holds no carriage return.
pub open spec fn no_cr(s: Seq<char>) -> bool {
    forall|k: int| 0 <= k < s.len() ==> #[trigger] s[k] != '\r'
}

/// `s[lo..hi]` reads as `t[lo + d..hi + d]`, and both end alike: at a line
/// feed, or at the end of their text.
pub open spec fn same_window(s: Seq<char>, t: Seq<char>, d: int, lo: int, hi: int) -> bool {
    &&& 0 <= lo <= hi <= s.len()
    &&& 0 <= lo + d
    &&& hi + d <= t.len()
    &&& forall|m: int| lo <= m < hi ==> #[trigger] s[m] == t[m + d]
    &&& (hi < s.len() && hi + d < t.len() && s[hi] == '\n' && t[hi + d] == '\n') || (hi == s.len()
        && hi + d == t.len())
}

/// A parse result with its position moved by `d`.
pub open spec fn shifted(r: Option<(int, SpecConfigLine)>, d: int) -> Option<(int, SpecConfigLine)> {
    match r {
        Some((p, l)) => Some((p + d, l)),
        None => None,
    }
}

proof fn window_skip_blanks(s: Seq<char>, t: Seq<char>, d: int, lo: int, hi: int, p: int)
    requires
        same_window(s, t, d, lo, hi),
        lo <= p <= hi,
    ensures
        skip_blanks(t, p + d) == skip_blanks(s, p) + d,
        p <= skip_blanks(s, p) <= hi,
    decreases hi - p,
{
    if p < hi {
        assert(s[p] == t[p + d]);
        window_skip_blanks(s, t, d, lo, hi, p + 1);
    }
}

proof fn window_line_end(s: Seq<char>, t: Seq<char>, d: int, lo: int, hi: int, p: int)
    requires
        same_window(s, t, d, lo, hi),
        lo <= p <= hi,
    ensures
        line_end(t, p + d) == line_end(s, p) + d,
        p <= line_end(s, p) <= hi,
    decreases hi - p,
{
    if p < hi {
        assert(s[p] == t[p + d]);
        window_line_end(s, t, d, lo, hi, p + 1);
    }
}

proof fn window_ident_end(s: Seq<char>, t: Seq<char>, d: int, lo: int, hi: int, p: int)
    requires
        same_window(s, t, d, lo, hi),
        lo <= p <= hi,
    ensures
        ident_end(t, p + d) == ident_end(s, p) + d,
        p <= ident_end(s, p) <= hi,
    decreases hi - p,
{
    assert(!is_ident_char('\n'));
    if p < hi {
        assert(s[p] == t[p + d]);
        window_ident_end(s, t, d, lo, hi, p + 1);
    }
}

proof fn window_combo_end(s: Seq<char>, t: Seq<char>, d: int, lo: int, hi: int, p: int)
    requires
        same_window(s, t, d, lo, hi),
        lo <= p <= hi,
    ensures
        combo_end(t, p + d) == combo_end(s, p) + d,
        p <= combo_end(s, p) <= hi,
    decreases hi - p,
{
    if p < hi {
        assert(s[p] == t[p + d]);
        window_combo_end(s, t, d, lo, hi, p + 1);
    }
}

proof fn window_word(s: Seq<char>, t: Seq<char>, d: int, lo: int, hi: int, p: int, w: Seq<char>)
    requires
        same_window(s, t, d, lo, hi),
        lo <= p <= hi,
        forall|k: int| 0 <= k < w.len() ==> #[trigger] w[k] != '\n',
    ensures
        word_at(t, p + d, w) == word_at(s, p, w),
        word_at(s, p, w) ==> p + w.len() <= hi,
{
    if word_at(s, p, w) {
        if p + w.len() > hi {
            assert(s[hi] == s.subrange(p, p + w.len())[hi - p]);
        }
        assert(t.subrange(p + d, p + d + w.len()) =~= s.subrange(p, p + w.len()));
    }
    if word_at(t, p + d, w) {
        if p + w.len() > hi {
            assert(t[hi + d] == t.subrange(p + d, p + d + w.len())[hi - p]);
        }
        assert(t.subrange(p + d, p + d + w.len()) =~= s.subrange(p, p + w.len()));
    }
}

proof fn window_text_end(s: Seq<char>, t: Seq<char>, d: int, lo: int, hi: int, p: int)
    requires
        same_window(s, t, d, lo, hi),
        no_cr(s),
        no_cr(t),
        lo <= p <= hi,
    ensures
        text_end(s, p) == Some(line_end(s, p)),
        text_end(t, p + d) == Some(line_end(s, p) + d),
        p <= line_end(s, p) <= hi,
        line_end(s, p) == s.len() || s[line_end(s, p)] == '\n',
{
    window_line_end(s, t, d, lo, hi, p);
    lemma_line_end_bounds(s, p);
    lemma_line_end_bounds(t, p + d);
}

proof fn window_trimmed(s: Seq<char>, t: Seq<char>, d: int, lo: int, hi: int, x: int, y: int)
    requires
        same_window(s, t, d, lo, hi),
        lo <= x <= y <= hi,
    ensures
        trimmed(t, x + d, y + d) == trimmed(s, x, y),
{
    trimmed_part(s, x, y);
    trimmed_part(t, x + d, y + d);
    assert(t.subrange(x + d, y + d) =~= s.subrange(x, y));
}

proof fn window_split(s: Seq<char>, t: Seq<char>, d: int, lo: int, hi: int, x: int, y: int)
    requires
        same_window(s, t, d, lo, hi),
        lo <= x <= y <= hi,
    ensures
        split_plus(t, x + d, y + d) == split_plus(s, x, y),
{
    split_plus_part(s, x, y, x);
    split_plus_part(t, x + d, y + d, x + d);
    assert(t.subrange(x + d, y + d) =~= s.subrange(x, y));
}

/// A character that stands in the window at `p`, and is not a line feed, is
/// before its end.
proof fn window_char(s: Seq<char>, t: Seq<char>, d: int, lo: int, hi: int, p: int, c: char)
    requires
        same_window(s, t, d, lo, hi),
        lo <= p <= hi,
        c != '\n',
    ensures
        (p < s.len() && s[p] == c) == (p + d < t.len() && t[p + d] == c),
        p < s.len() && s[p] == c ==> p < hi,
{
    if p < hi {
        assert(s[p] == t[p + d]);
    }
}

proof fn keywords_have_no_line_feed()
    ensures
        forall|k: int| 0 <= k < kw_set().len() ==> #[trigger] kw_set()[k] != '\n',
        forall|k: int| 0 <= k < kw_bindsym().len() ==> #[trigger] kw_bindsym()[k] != '\n',
        forall|k: int| 0 <= k < kw_bindcode().len() ==> #[trigger] kw_bindcode()[k] != '\n',
        forall|k: int| 0 <= k < kw_exec().len() ==> #[trigger] kw_exec()[k] != '\n',
        forall|k: int|
            0 <= k < kw_no_startup_id().len() ==> #[trigger] kw_no_startup_id()[k] != '\n',
{
}

proof fn window_comment(s: Seq<char>, t: Seq<char>, d: int, lo: int, hi: int)
    requires
        same_window(s, t, d, lo, hi),
        no_cr(s),
        no_cr(t),
    ensures
        spec_comment(t, lo + d) == shifted(spec_comment(s, lo), d),
        spec_comment(s, lo) matches Some((p, _)) ==> lo <= p <= hi && (p == s.len() || s[p] == '\n'),
{
    window_skip_blanks(s, t, d, lo, hi, lo);
    let a = skip_blanks(s, lo);
    window_char(s, t, d, lo, hi, a, '#');
    if a < s.len() && s[a] == '#' {
        window_text_end(s, t, d, lo, hi, a + 1);
        let p = line_end(s, a + 1);
        window_trimmed(s, t, d, lo, hi, a + 1, p);
    }
}

proof fn window_set(s: Seq<char>, t: Seq<char>, d: int, lo: int, hi: int)
    requires
        same_window(s, t, d, lo, hi),
        no_cr(s),
        no_cr(t),
    ensures
        spec_set(t, lo + d) == shifted(spec_set(s, lo), d),
        spec_set(s, lo) matches Some((p, _)) ==> lo <= p <= hi && (p == s.len() || s[p] == '\n'),
{
    keywords_have_no_line_feed();
    window_skip_blanks(s, t, d, lo, hi, lo);
    let a = skip_blanks(s, lo);
    window_word(s, t, d, lo, hi, a, kw_set());
    if word_at(s, a, kw_set()) {
        window_skip_blanks(s, t, d, lo, hi, a + 3);
        let c = skip_blanks(s, a + 3);
        window_char(s, t, d, lo, hi, c, '$');
        if c < s.len() && s[c] == '$' {
            window_ident_end(s, t, d, lo, hi, c + 1);
            let e0 = ident_end(s, c + 1);
            window_skip_blanks(s, t, d, lo, hi, e0);
            let e = skip_blanks(s, e0);
            window_text_end(s, t, d, lo, hi, e);
            let p = line_end(s, e);
            window_trimmed(s, t, d, lo, hi, e, p);
            assert(t.subrange(c + 1 + d, e0 + d) =~= s.subrange(c + 1, e0));
        }
    }
}

proof fn window_binding_tail(s: Seq<char>, t: Seq<char>, d: int, lo: int, hi: int, b: int)
    requires
        same_window(s, t, d, lo, hi),
        no_cr(s),
        no_cr(t),
        lo <= b <= hi,
    ensures
        spec_binding_tail(t, b + d) == shifted(spec_binding_tail(s, b), d),
        spec_binding_tail(s, b) matches Some((p, _)) ==> lo <= p <= hi && (p == s.len() || s[p] == '\n'),
{
    window_skip_blanks(s, t, d, lo, hi, b);
    let c = skip_blanks(s, b);
    window_combo_end(s, t, d, lo, hi, c);
    let q = combo_end(s, c);
    window_skip_blanks(s, t, d, lo, hi, q);
    let e = skip_blanks(s, q);
    window_text_end(s, t, d, lo, hi, e);
    let p = line_end(s, e);
    window_trimmed(s, t, d, lo, hi, e, p);
    window_split(s, t, d, lo, hi, c, q);
}

proof fn window_binding(s: Seq<char>, t: Seq<char>, d: int, lo: int, hi: int)
    requires
        same_window(s, t, d, lo, hi),
        no_cr(s),
        no_cr(t),
    ensures
        spec_binding(t, lo + d) == shifted(spec_binding(s, lo), d),
        spec_binding(s, lo) matches Some((p, _)) ==> lo <= p <= hi && (p == s.len() || s[p] == '\n'),
{
    keywords_have_no_line_feed();
    window_skip_blanks(s, t, d, lo, hi, lo);
    let a = skip_blanks(s, lo);
    window_word(s, t, d, lo, hi, a, kw_bindsym());
    window_word(s, t, d, lo, hi, a, kw_bindcode());
    if word_at(s, a, kw_bindsym()) {
        window_binding_tail(s, t, d, lo, hi, a + 7);
    } else if word_at(s, a, kw_bindcode()) {
        window_binding_tail(s, t, d, lo, hi, a + 8);
    }
}

proof fn window_exec(s: Seq<char>, t: Seq<char>, d: int, lo: int, hi: int)
    requires
        same_window(s, t, d, lo, hi),
        no_cr(s),
        no_cr(t),
    ensures
        spec_exec(t, lo + d) == shifted(spec_exec(s, lo), d),
        spec_exec(s, lo) matches Some((p, _)) ==> lo <= p <= hi && (p == s.len() || s[p] == '\n'),
{
    keywords_have_no_line_feed();
    window_skip_blanks(s, t, d, lo, hi, lo);
    let a = skip_blanks(s, lo);
    window_word(s, t, d, lo, hi, a, kw_exec());
    if word_at(s, a, kw_exec()) {
        let b = a + 4;
        window_skip_blanks(s, t, d, lo, hi, b);
        let c = skip_blanks(s, b);
        window_word(s, t, d, lo, hi, c, kw_no_startup_id());
        let f = if b < c && word_at(s, c, kw_no_startup_id()) {
            c + 15
        } else {
            b
        };
        window_skip_blanks(s, t, d, lo, hi, f);
        let e = skip_blanks(s, f);
        window_text_end(s, t, d, lo, hi, e);
        let p = line_end(s, e);
        window_trimmed(s, t, d, lo, hi, e, p);
    }
}

proof fn window_raw(s: Seq<char>, t: Seq<char>, d: int, lo: int, hi: int)
    requires
        same_window(s, t, d, lo, hi),
        no_cr(s),
        no_cr(t),
    ensures
        spec_raw(t, lo + d) == shifted(spec_raw(s, lo), d),
        spec_raw(s, lo) matches Some((p, _)) ==> lo <= p <= hi && (p == s.len() || s[p] == '\n'),
{
    window_text_end(s, t, d, lo, hi, lo);
    window_trimmed(s, t, d, lo, hi, lo, line_end(s, lo));
}

proof fn window_name_end(s: Seq<char>, t: Seq<char>, d: int, lo: int, hi: int, p: int)
    requires
        same_window(s, t, d, lo, hi),
        lo <= p <= hi,
    ensures
        name_end(t, p + d) == name_end(s, p) + d,
        p <= name_end(s, p) <= hi,
    decreases hi - p,
{
    if p < hi {
        assert(s[p] == t[p + d]);
        window_name_end(s, t, d, lo, hi, p + 1);
    }
}

/// A position shifted by `d`, if there is one.
pub open spec fn shifted_pos(r: Option<int>, d: int) -> Option<int> {
    match r {
        Some(p) => Some(p + d),
        None => None,
    }
}

/// The rest of a mode block read, with its position moved by `d`.
pub open spec fn shifted_body(r: Option<(int, Seq<SpecConfigLine>)>, d: int) -> Option<
    (int, Seq<SpecConfigLine>),
> {
    match r {
        Some((p, ls)) => Some((p + d, ls)),
        None => None,
    }
}

/// `s` from `lo` on reads as `t` from `lo + d` on, to the end of both.
pub open spec fn same_suffix(s: Seq<char>, t: Seq<char>, d: int, lo: int) -> bool {
    same_window(s, t, d, lo, s.len() as int)
}

proof fn suffix_from(s: Seq<char>, t: Seq<char>, d: int, lo: int, p: int)
    requires
        same_suffix(s, t, d, lo),
        lo <= p <= s.len(),
    ensures
        same_suffix(s, t, d, p),
{
}

proof fn suffix_mode_header(s: Seq<char>, t: Seq<char>, d: int, p: int)
    requires
        same_suffix(s, t, d, p),
        no_cr(s),
        no_cr(t),
    ensures
        mode_header(t, p + d) == shifted_pos(mode_header(s, p), d),
{
    let hi = s.len() as int;
    assert(forall|k: int| 0 <= k < kw_mode().len() ==> #[trigger] kw_mode()[k] != '\n');
    window_skip_blanks(s, t, d, p, hi, p);
    let a = skip_blanks(s, p);
    window_word(s, t, d, p, hi, a, kw_mode());
    if word_at(s, a, kw_mode()) {
        let b = a + 4;
        window_skip_blanks(s, t, d, p, hi, b);
        let c = skip_blanks(s, b);
        window_name_end(s, t, d, p, hi, c);
        let n = name_end(s, c);
        window_skip_blanks(s, t, d, p, hi, n);
        let e = skip_blanks(s, n);
        window_char(s, t, d, p, hi, e, '{');
        if e < s.len() && s[e] == '{' {
            window_skip_blanks(s, t, d, p, hi, e + 1);
            let f = skip_blanks(s, e + 1);
            if f < s.len() {
                assert(s[f] == t[f + d]);
                assert(s[f] != '\r' && t[f + d] != '\r');
            }
        }
    }
}

proof fn suffix_closing(s: Seq<char>, t: Seq<char>, d: int, p: int)
    requires
        same_suffix(s, t, d, p),
        no_cr(s),
        no_cr(t),
    ensures
        closing_end(t, p + d) == shifted_pos(closing_end(s, p), d),
{
    let hi = s.len() as int;
    window_skip_blanks(s, t, d, p, hi, p);
    let a = skip_blanks(s, p);
    window_char(s, t, d, p, hi, a, '}');
    if a < s.len() && s[a] == '}' {
        window_skip_blanks(s, t, d, p, hi, a + 1);
        let b = skip_blanks(s, a + 1);
        if b < s.len() {
            assert(s[b] == t[b + d]);
            assert(s[b] != '\r' && t[b + d] != '\r');
        }
    }
}

/// Everything from a position on reads the same in a text and in another
/// that ends with the same characters: a line.
proof fn suffix_line(s: Seq<char>, t: Seq<char>, d: int, p: int)
    requires
        same_suffix(s, t, d, p),
        no_cr(s),
        no_cr(t),
    ensures
        spec_line(t, p + d) == shifted(spec_line(s, p), d),
    decreases s.len() - p, 2int,
{
    let hi = s.len() as int;
    if p < hi {
        assert(s[p] == t[p + d]);
        window_comment(s, t, d, p, hi);
        window_set(s, t, d, p, hi);
        window_binding(s, t, d, p, hi);
        window_exec(s, t, d, p, hi);
        window_raw(s, t, d, p, hi);
        suffix_mode(s, t, d, p);
        assert(spec_line_content(t, p + d) == shifted(spec_line_content(s, p), d));
        if let Some((q, _)) = spec_line_content(s, p) {
            lemma_mode_bounds(s, p);
            if q < hi {
                assert(s[q] == t[q + d]);
            }
            assert(after_line_break(t, q + d) == after_line_break(s, q) + d);
        }
    }
}

/// A mode block.
proof fn suffix_mode(s: Seq<char>, t: Seq<char>, d: int, p: int)
    requires
        same_suffix(s, t, d, p),
        no_cr(s),
        no_cr(t),
    ensures
        spec_mode(t, p + d) == shifted(spec_mode(s, p), d),
    decreases s.len() - p, 0int,
{
    suffix_mode_header(s, t, d, p);
    if let Some(h) = mode_header(s, p) {
        if p < h <= s.len() {
            suffix_from(s, t, d, p, h);
            suffix_body(s, t, d, h);
        }
    }
}

/// The rest of a mode block.
proof fn suffix_body(s: Seq<char>, t: Seq<char>, d: int, p: int)
    requires
        same_suffix(s, t, d, p),
        no_cr(s),
        no_cr(t),
    ensures
        spec_body(t, p + d) == shifted_body(spec_body(s, p), d),
    decreases s.len() - p, 3int,
{
    suffix_closing(s, t, d, p);
    if closing_end(s, p) is None {
        suffix_line(s, t, d, p);
        if let Some((j, _)) = spec_line(s, p) {
            if p < j <= s.len() {
                suffix_from(s, t, d, p, j);
                suffix_body(s, t, d, j);
            }
        }
    }
}

proof fn lemma_mode_bounds(s: Seq<char>, p: int)
    requires
        0 <= p <= s.len(),
    ensures
        spec_mode(s, p) matches Some((q, _)) ==> p < q <= s.len(),
{
    if let Some(h) = mode_header(s, p) {
        if p < h <= s.len() {
            lemma_body_bounds(s, h);
        }
    }
}

proof fn lemma_name_end_facts(s: Seq<char>, i: int)
    requires
        0 <= i <= s.len(),
    ensures
        i <= name_end(s, i) <= s.len(),
        forall|m: int| i <= m < name_end(s, i) ==> #[trigger] s[m] != '\n',
    decreases s.len() - i,
{
    if 0 <= i < s.len() && !is_blank(s[i]) && s[i] != '\n' && s[i] != '\r' {
        lemma_name_end_facts(s, i + 1);
    }
}

/// No mode block starts on a line of `s` that starts at `i` and ends with a
/// line feed at `n - 1`, where no `{` stands from `i` to `n`.
proof fn no_mode_without_brace(s: Seq<char>, i: int, n: int)
    requires
        0 <= i < n <= s.len(),
        s[n - 1] == '\n',
        forall|m: int| i <= m < n ==> #[trigger] s[m] != '{',
    ensures
        mode_header(s, i) is None,
        spec_mode(s, i) is None,
{
    if let Some(h) = mode_header(s, i) {
        lemma_skip_blanks_facts(s, i);
        let a = skip_blanks(s, i);
        let b = a + 4;
        assert(s.subrange(a, a + 4) =~= kw_mode());
        lemma_skip_blanks_facts(s, b);
        let c = skip_blanks(s, b);
        lemma_name_end_facts(s, c);
        let dd = name_end(s, c);
        lemma_skip_blanks_facts(s, dd);
        let e = skip_blanks(s, dd);
        assert(s[e] == '{');
        let k = n - 1;
        assert(i <= k < e);
        if k < a {
            assert(is_blank(s[k]));
        } else if k < b {
            assert(s[k] == s.subrange(a, a + 4)[k - a]);
        } else if k < c {
            assert(is_blank(s[k]));
        } else if k < dd {
            assert(s[k] != '\n');
        } else {
            assert(is_blank(s[k]));
        }
    }
}

/// A line that opens no mode block reads the same wherever its characters
/// stand.
pub proof fn window_line(s: Seq<char>, t: Seq<char>, d: int, lo: int, hi: int)
    requires
        same_window(s, t, d, lo, hi),
        no_cr(s),
        no_cr(t),
        spec_mode(s, lo) is None,
        spec_mode(t, lo + d) is None,
    ensures
        spec_line(t, lo + d) == shifted(spec_line(s, lo), d),
{
    if lo < hi {
        assert(s[lo] == t[lo + d]);
    }
    window_comment(s, t, d, lo, hi);
    window_set(s, t, d, lo, hi);
    window_binding(s, t, d, lo, hi);
    window_exec(s, t, d, lo, hi);
    window_raw(s, t, d, lo, hi);
    assert(spec_line_content(t, lo + d) == shifted(spec_line_content(s, lo), d));
    if let Some((p, _)) = spec_line_content(s, lo) {
        if p < hi {
            assert(s[p] == t[p + d]);
        }
        assert(after_line_break(t, p + d) == after_line_break(s, p) + d);
    }
}

proof fn lemma_no_cr_concat(a: Seq<char>, b: Seq<char>)
    requires
        no_cr(a),
        no_cr(b),
    ensures
        no_cr(a + b),
{
    assert forall|k: int| 0 <= k < (a + b).len() implies #[trigger] (a + b)[k] != '\r' by {
        if k < a.len() {
            assert((a + b)[k] == a[k]);
        } else {
            assert((a + b)[k] == b[k - a.len()]);
        }
    }
}

proof fn lemma_line_end_before(s: Seq<char>, i: int, k: int)
    requires
        0 <= i <= k < s.len(),
        s[k] == '\n',
    ensures
        line_end(s, i) <= k,
    decreases k - i,
{
    if i < k && s[i] != '\r' && s[i] != '\n' {
        lemma_line_end_before(s, i + 1, k);
    }
}

proof fn lines_in_second_part(a: Seq<char>, b: Seq<char>, j: int)
    requires
        no_cr(a),
        no_cr(b),
        0 <= j <= b.len(),
    ensures
        spec_lines(a + b, a.len() + j) == (a.len() + spec_lines(b, j).0, spec_lines(b, j).1),
    decreases b.len() - j,
{
    let s = a + b;
    let n = a.len() as int;
    lemma_no_cr_concat(a, b);
    assert forall|m: int| n + j <= m < s.len() implies #[trigger] s[m] == b[m + (-n)] by {}
    assert(same_window(s, b, -n, n + j, s.len() as int));
    suffix_line(s, b, -n, n + j);
    line_moves_forward(b, j);
    if let Some((k, l)) = spec_line(b, j) {
        lines_in_second_part(a, b, k);
    }
}

proof fn lines_in_first_part(a: Seq<char>, b: Seq<char>, i: int)
    requires
        no_cr(a),
        no_cr(b),
        a.len() == 0 || a.last() == '\n',
        forall|m: int| 0 <= m < a.len() ==> #[trigger] a[m] != '{',
        0 <= i <= a.len(),
    ensures
        spec_lines(a + b, i).1 == spec_lines(a, i).1 + spec_lines(b, 0).1,
    decreases a.len() - i,
{
    let s = a + b;
    lemma_no_cr_concat(a, b);
    if i == a.len() {
        lines_in_second_part(a, b, 0);
        assert(spec_lines(a, i).1 =~= Seq::<SpecConfigLine>::empty());
        assert(spec_lines(a, i).1 + spec_lines(b, 0).1 =~= spec_lines(b, 0).1);
    } else {
        let last = a.len() - 1;
        lemma_line_end_before(a, i, last);
        lemma_line_end_bounds(a, i);
        let hi = line_end(a, i);
        assert(a[hi] == '\n');
        assert forall|m: int| i <= m < hi implies #[trigger] a[m] == s[m + 0] by {}
        assert(s[hi] == a[hi]);
        assert(same_window(a, s, 0, i, hi));
        assert forall|m: int| 0 <= m < a.len() implies #[trigger] s[m] != '{' by {
            assert(s[m] == a[m]);
        }
        assert(s[a.len() - 1] == a[a.len() - 1]);
        no_mode_without_brace(a, i, a.len() as int);
        no_mode_without_brace(s, i, a.len() as int);
        window_line(a, s, 0, i, hi);
        line_moves_forward(a, i);
        assert(spec_raw(a, i) is Some);
        assert(spec_line(a, i) is Some);
        if let Some((k, l)) = spec_line(a, i) {
            lines_in_first_part(a, b, k);
            assert(spec_lines(a, i).1 == seq![l] + spec_lines(a, k).1);
            assert(spec_lines(s, i).1 == seq![l] + spec_lines(s, k).1);
            assert(seq![l] + (spec_lines(a, k).1 + spec_lines(b, 0).1) =~= (seq![l] + spec_lines(
                a,
                k,
            ).1) + spec_lines(b, 0).1);
        }
    }
}

/// A document without carriage returns, split after a line feed (or at its
/// start), where no `{` stands before the split (so no mode block opens in
/// the first part), reads as the lines of its first part followed by the
/// lines of its second part.
pub proof fn split_document_reads_as_parts(a: Seq<char>, b: Seq<char>)
    requires
        no_cr(a),
        no_cr(b),
        a.len() == 0 || a.last() == '\n',
        !a.contains('{'),
    ensures
        spec_lines(a + b, 0).1 == spec_lines(a, 0).1 + spec_lines(b, 0).1,
{
    assert forall|m: int| 0 <= m < a.len() implies #[trigger] a[m] != '{' by {
        if a[m] == '{' {
            assert(a.contains('{'));
        }
    }
    lines_in_first_part(a, b, 0);
}


proof fn lemma_newline_facts(s: Seq<char>, i: int)
    requires
        0 <= i <= s.len(),
    ensures
        i <= newline_pos(s, i) <= s.len(),
        forall|m: int| i <= m < newline_pos(s, i) ==> #[trigger] s[m] != '\n',
        newline_pos(s, i) < s.len() ==> s[newline_pos(s, i)] == '\n',
    decreases s.len() - i,
{
    if 0 <= i < s.len() && s[i] != '\n' {
        lemma_newline_facts(s, i + 1);
    }
}

proof fn lemma_newline_at(s: Seq<char>, i: int, p: int)
    requires
        0 <= i <= p <= s.len(),
        forall|m: int| i <= m < p ==> #[trigger] s[m] != '\n',
        p == s.len() || s[p] == '\n',
    ensures
        newline_pos(s, i) == p,
    decreases p - i,
{
    if i < p {
        lemma_newline_at(s, i + 1, p);
    }
}

/// A text line that starts at `i` is one line of `str::lines`, followed by
/// those after its line feed.
proof fn lemma_lines_from_step(s: Seq<char>, i: int)
    requires
        0 <= i < s.len(),
    ensures
        lines_from(s, i).len() == 1 + lines_from(s, after_line_break(s, newline_pos(s, i))).len(),
{
    lemma_newline_facts(s, i);
    let p = newline_pos(s, i);
    if p == s.len() {
        assert(lines_from(s, s.len() as int).len() == 0);
    }
}

/// In a text without carriage returns, the first line of a mode block is
/// one text line.
proof fn lemma_header_line(s: Seq<char>, i: int)
    requires
        no_cr(s),
        0 <= i < s.len(),
    ensures
        mode_header(s, i) matches Some(h) ==> newline_pos(s, i) < s.len() && h == newline_pos(s, i)
            + 1,
{
    if let Some(h) = mode_header(s, i) {
        lemma_skip_blanks_facts(s, i);
        let a = skip_blanks(s, i);
        let b = a + 4;
        assert(s.subrange(a, a + 4) =~= kw_mode());
        lemma_skip_blanks_facts(s, b);
        let c = skip_blanks(s, b);
        lemma_name_end_facts(s, c);
        let dd = name_end(s, c);
        lemma_skip_blanks_facts(s, dd);
        let e = skip_blanks(s, dd);
        lemma_skip_blanks_facts(s, e + 1);
        let f = skip_blanks(s, e + 1);
        assert(s[f] != '\r');
        assert forall|k: int| i <= k < f implies #[trigger] s[k] != '\n' by {
            if k < a {
                assert(is_blank(s[k]));
            } else if k < b {
                assert(s[k] == s.subrange(a, a + 4)[k - a]);
            } else if k < c {
                assert(is_blank(s[k]));
            } else if k < dd {
            } else if k < e {
                assert(is_blank(s[k]));
            } else if k == e {
            } else {
                assert(is_blank(s[k]));
            }
        }
        lemma_newline_at(s, i, f);
    }
}

/// In a text without carriage returns, the last line of a mode block is one
/// text line.
proof fn lemma_closing_line(s: Seq<char>, i: int)
    requires
        no_cr(s),
        0 <= i <= s.len(),
    ensures
        closing_end(s, i) matches Some(b) ==> i < s.len() && newline_pos(s, i) == b,
{
    if let Some(b) = closing_end(s, i) {
        lemma_skip_blanks_facts(s, i);
        let a = skip_blanks(s, i);
        lemma_skip_blanks_facts(s, a + 1);
        if b < s.len() {
            assert(s[b] != '\r');
        }
        assert forall|k: int| i <= k < b implies #[trigger] s[k] != '\n' by {
            if k < a {
                assert(is_blank(s[k]));
            } else if k > a {
                assert(is_blank(s[k]));
            }
        }
        lemma_newline_at(s, i, b);
    }
}

/// A line read at the start of a text line takes as many lines of the
/// document as `str::lines` gives up to where the next line is read.
proof fn count_line(s: Seq<char>, i: int)
    requires
        no_cr(s),
        0 <= i,
    ensures
        spec_line(s, i) matches Some((j, l)) ==> lines_from(s, i).len() == line_span(l) + lines_from(
            s,
            j,
        ).len(),
    decreases s.len() - i, 2int,
{
    if 0 <= i < s.len() {
        lemma_newline_facts(s, i);
        lemma_lines_from_step(s, i);
        let hi = newline_pos(s, i);
        if s[i] != '\n' {
            assert(same_window(s, s, 0, i, hi));
            window_comment(s, s, 0, i, hi);
            window_set(s, s, 0, i, hi);
            window_binding(s, s, 0, i, hi);
            window_exec(s, s, 0, i, hi);
            window_raw(s, s, 0, i, hi);
            count_mode(s, i);
            if let Some((p, l)) = spec_line_content(s, i) {
                if spec_line_content(s, i) != spec_mode(s, i) {
                    if p < hi {
                        assert(s[p] != '\n');
                    }
                    assert(p == hi);
                }
            }
        }
    }
}

/// A mode block read at the start of a text line.
proof fn count_mode(s: Seq<char>, i: int)
    requires
        no_cr(s),
        0 <= i < s.len(),
    ensures
        spec_mode(s, i) matches Some((k, l)) ==> lines_from(s, i).len() == line_span(l) + lines_from(
            s,
            after_line_break(s, k),
        ).len(),
    decreases s.len() - i, 0int,
{
    if let Some(h) = mode_header(s, i) {
        if i < h <= s.len() {
            lemma_header_line(s, i);
            lemma_lines_from_step(s, i);
            count_body(s, h);
        }
    }
}

/// The rest of a mode block read at the start of a text line.
proof fn count_body(s: Seq<char>, i: int)
    requires
        no_cr(s),
        0 <= i <= s.len(),
    ensures
        spec_body(s, i) matches Some((k, ls)) ==> lines_from(s, i).len() == lines_span(ls) + 1
            + lines_from(s, after_line_break(s, k)).len(),
    decreases s.len() - i, 3int,
{
    lemma_closing_line(s, i);
    if let Some(b) = closing_end(s, i) {
        lemma_lines_from_step(s, i);
        assert(lines_span(Seq::<SpecConfigLine>::empty()) == 0);
    } else {
        if let Some((j, l)) = spec_line(s, i) {
            if i < j <= s.len() {
                count_line(s, i);
                count_body(s, j);
                if let Some((k, ls)) = spec_body(s, j) {
                    lines_span_prepend(l, ls);
                }
            }
        }
    }
}

proof fn count_lines(s: Seq<char>, i: int)
    requires
        no_cr(s),
        0 <= i <= s.len(),
    ensures
        lines_span(spec_lines(s, i).1) == lines_from(s, i).len(),
    decreases s.len() - i,
{
    line_moves_forward(s, i);
    if i < s.len() {
        lemma_line_end_bounds(s, i);
        assert(spec_raw(s, i) is Some);
        assert(spec_line(s, i) is Some);
        if let Some((j, l)) = spec_line(s, i) {
            count_line(s, i);
            count_lines(s, j);
            lines_span_prepend(l, spec_lines(s, j).1);
        }
    } else {
        assert(lines_span(Seq::<SpecConfigLine>::empty()) == 0);
    }
}

/// Line numbers count the lines of the document: in a document without
/// carriage returns, the lines read (a mode block with its first and last
/// line and every line inside it) span exactly as many lines as
/// `str::lines` gives.
pub proof fn read_lines_span_document_lines(s: Seq<char>)
    requires
        no_cr(s),
    ensures
        lines_span(spec_lines(s, 0).1) == document_lines(s).len(),
{
    count_lines(s, 0);
}


/// The rest of the block `mode m {\n` + `inner` + `}` from `9 + j` on holds
/// the lines of `inner` read alone from `j` on.
proof fn block_rest_reads_as_inner(inner: Seq<char>, j: int)
    requires
        no_cr(inner),
        inner.len() == 0 || inner.last() == '\n',
        forall|m: int| 0 <= m < inner.len() ==> #[trigger] inner[m] != '{' && inner[m] != '}',
        0 <= j <= inner.len(),
    ensures
        ({
            let doc = seq!['m', 'o', 'd', 'e', ' ', 'm', ' ', '{', '\n'] + inner + seq!['}'];
            spec_body(doc, 9 + j) == Some((doc.len() as int, spec_lines(inner, j).1))
        }),
    decreases inner.len() - j,
{
    let head = seq!['m', 'o', 'd', 'e', ' ', 'm', ' ', '{', '\n'];
    let doc = head + inner + seq!['}'];
    let n = inner.len() as int;
    assert(doc.len() == n + 10);
    assert forall|m: int| 0 <= m < n implies #[trigger] doc[m + 9] == inner[m] by {}
    assert(doc[n + 9] == '}');
    assert(no_cr(doc)) by {
        assert forall|k: int| 0 <= k < doc.len() implies #[trigger] doc[k] != '\r' by {
            if 9 <= k < n + 9 {
                assert(doc[k] == inner[k - 9]);
            }
        }
    }
    if j == n {
        assert(skip_blanks(doc, n + 9) == n + 9);
        assert(skip_blanks(doc, n + 10) == n + 10);
        assert(closing_end(doc, n + 9) == Some(n + 10));
        assert(spec_line(inner, n) is None);
        assert(spec_lines(inner, j).1 =~= Seq::<SpecConfigLine>::empty());
    } else {
        lemma_line_end_before(inner, j, n - 1);
        lemma_line_end_bounds(inner, j);
        let hi = line_end(inner, j);
        assert(inner[hi] == '\n');
        assert(same_window(inner, doc, 9, j, hi));
        window_skip_blanks(inner, doc, 9, j, hi, j);
        let a = skip_blanks(inner, j);
        assert(doc[a + 9] == inner[a]);
        assert(closing_end(doc, j + 9) is None);
        no_mode_without_brace(inner, j, n);
        assert forall|m: int| j + 9 <= m < n + 9 implies #[trigger] doc[m] != '{' by {
            assert(doc[m] == inner[m - 9]);
        }
        assert(doc[n + 8] == inner[n - 1]);
        no_mode_without_brace(doc, j + 9, n + 9);
        window_line(inner, doc, 9, j, hi);
        line_moves_forward(inner, j);
        assert(spec_raw(inner, j) is Some);
        assert(spec_line(inner, j) is Some);
        if let Some((k, l)) = spec_line(inner, j) {
            block_rest_reads_as_inner(inner, k);
            assert(spec_line(doc, j + 9) == Some((k + 9, l)));
            assert(spec_lines(inner, j).1 == seq![l] + spec_lines(inner, k).1);
        }
    }
}

proof fn lemma_block_start(doc: Seq<char>)
    requires
        doc.len() >= 10,
        doc[0] == 'm' && doc[1] == 'o' && doc[2] == 'd' && doc[3] == 'e',
        doc[4] == ' ' && doc[5] == 'm' && doc[6] == ' ' && doc[7] == '{' && doc[8] == '\n',
    ensures
        mode_header(doc, 0) == Some(9int),
        spec_comment(doc, 0) is None,
        spec_set(doc, 0) is None,
        spec_binding(doc, 0) is None,
        spec_exec(doc, 0) is None,
{
    assert(doc.subrange(0, 4) =~= kw_mode());
    assert(skip_blanks(doc, 0) == 0);
    assert(skip_blanks(doc, 5) == 5);
    assert(skip_blanks(doc, 4) == 5);
    assert(name_end(doc, 6) == 6);
    assert(name_end(doc, 5) == 6);
    assert(skip_blanks(doc, 7) == 7);
    assert(skip_blanks(doc, 6) == 7);
    assert(skip_blanks(doc, 8) == 8);
    assert(!word_at(doc, 0, kw_set())) by {
        assert(doc.subrange(0, 3)[0] == 'm');
    }
    assert(!word_at(doc, 0, kw_bindsym())) by {
        assert(doc.subrange(0, 7)[0] == 'm');
    }
    assert(!word_at(doc, 0, kw_bindcode())) by {
        assert(doc.subrange(0, 8)[0] == 'm');
    }
    assert(!word_at(doc, 0, kw_exec())) by {
        assert(doc.subrange(0, 4)[0] == 'm');
    }
}

/// A mode block holds the lines its inside reads as on its own: for a
/// text `inner` of no carriage returns and no braces, ending in a line
/// feed, the block `mode m {` + line feed + `inner` + `}` reads as one mode
/// line whose lines are exactly those that `inner` reads alone, whatever
/// kinds of line they are.
pub proof fn mode_block_holds_its_lines_as_read_alone(inner: Seq<char>)
    requires
        no_cr(inner),
        inner.len() == 0 || inner.last() == '\n',
        forall|m: int| 0 <= m < inner.len() ==> #[trigger] inner[m] != '{' && inner[m] != '}',
    ensures
        ({
            let doc = seq!['m', 'o', 'd', 'e', ' ', 'm', ' ', '{', '\n'] + inner + seq!['}'];
            spec_line(doc, 0) == Some(
                (doc.len() as int, SpecConfigLine::Mode(spec_lines(inner, 0).1)),
            )
        }),
{
    let head = seq!['m', 'o', 'd', 'e', ' ', 'm', ' ', '{', '\n'];
    let doc = head + inner + seq!['}'];
    let n = inner.len() as int;
    assert(doc.len() == n + 10);
    block_rest_reads_as_inner(inner, 0);
    lemma_block_start(doc);
    assert(spec_mode(doc, 0) == Some((n + 10, SpecConfigLine::Mode(spec_lines(inner, 0).1))));
    assert(spec_line_content(doc, 0) == spec_mode(doc, 0));
}

} // verus!
