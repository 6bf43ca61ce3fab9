//! The line-oriented grammar of i3 configuration files.
//!
//! A document is read line by line. Each line is, in this order of
//! preference: an empty line, a comment (`# ...`), a variable (`set $name
//! value`), a key binding (`bindsym`/`bindcode` combo command), a command run
//! at start-up (`exec [--no-startup-id] command`), a mode block (`mode NAME {`
//! on a line of its own, then lines read in the same way, up to a line that
//! holds `}` alone), or any other text. Reading stops at the first line that
//! none of these accepts (a carriage return that is not followed by a line
//! feed). A parser that fails says where it stopped and what it expected
//! there.

use vstd::prelude::*;

use crate::text::{
    has_prefix_at, is_alphanumeric, join, starts_with_at, str_chars, trimmed_after_whitespace,
    trimmed_part, unicode_whitespace, string_of, trimmed, trimmed_string,
    unicode_alphanumeric,
};
use crate::{lines_span, lines_span_prepend, line_span, lines_view_is_each_view, texts_view, ConfigLine, I3Configuration, SpecConfigLine};

verus! {

broadcast use vstd::array::group_array_axioms;

/// A space or a tab.
pub open spec fn is_blank(c: char) -> bool {
    c == ' ' || c == '\t'
}

/// The first position at or after `i` that does not hold a space or a tab.
pub open spec fn skip_blanks(s: Seq<char>, i: int) -> int
    decreases s.len() - i,
{
    if 0 <= i < s.len() && is_blank(s[i]) {
        skip_blanks(s, i + 1)
    } else {
        i
    }
}

/// The first position at or after `i` that holds a carriage return or a line
/// feed; the length of `s` if there is none.
pub open spec fn line_end(s: Seq<char>, i: int) -> int
    decreases s.len() - i,
{
    if 0 <= i < s.len() && s[i] != '\r' && s[i] != '\n' {
        line_end(s, i + 1)
    } else {
        i
    }
}

/// Where the text of a line that starts at `i` ends: at a line feed, at a
/// carriage return followed by a line feed, or at the end of `s`. `None` when
/// the first carriage return or line feed is a carriage return that no line
/// feed follows.
pub open spec fn text_end(s: Seq<char>, i: int) -> Option<int> {
    let p = line_end(s, i);
    if p < s.len() && s[p] == '\r' && !(p + 1 < s.len() && s[p + 1] == '\n') {
        None
    } else {
        Some(p)
    }
}

/// A character that may stand in a variable's name.
pub open spec fn is_ident_char(c: char) -> bool {
    unicode_alphanumeric(c) || c == '_' || c == '-'
}

/// The end of the (possibly empty) run of name characters that starts at `i`.
pub open spec fn ident_end(s: Seq<char>, i: int) -> int
    decreases s.len() - i,
{
    if 0 <= i < s.len() && is_ident_char(s[i]) {
        ident_end(s, i + 1)
    } else {
        i
    }
}

/// The end of a key combination that starts at `i`: the first space or line
/// feed, or the end of `s`.
pub open spec fn combo_end(s: Seq<char>, i: int) -> int
    decreases s.len() - i,
{
    if 0 <= i < s.len() && s[i] != ' ' && s[i] != '\n' {
        combo_end(s, i + 1)
    } else {
        i
    }
}

/// The first `+` in `s[i..to]`, or `to`.
pub open spec fn plus_pos(s: Seq<char>, i: int, to: int) -> int
    decreases to - i,
{
    if i < to && s[i] != '+' {
        plus_pos(s, i + 1, to)
    } else {
        i
    }
}

/// The pieces of `s[from..to]` between `+` signs, as `str::split('+')`
/// gives them (there is always at least one).
pub open spec fn split_plus(s: Seq<char>, from: int, to: int) -> Seq<Seq<char>>
    decreases to - from,
{
    let p = plus_pos(s, from, to);
    if from <= p < to {
        seq![s.subrange(from, p)] + split_plus(s, p + 1, to)
    } else {
        seq![s.subrange(from, to)]
    }
}

pub open spec fn kw_set() -> Seq<char> {
    seq!['s', 'e', 't']
}

pub open spec fn kw_bindsym() -> Seq<char> {
    seq!['b', 'i', 'n', 'd', 's', 'y', 'm']
}

pub open spec fn kw_bindcode() -> Seq<char> {
    seq!['b', 'i', 'n', 'd', 'c', 'o', 'd', 'e']
}

pub open spec fn kw_exec() -> Seq<char> {
    seq!['e', 'x', 'e', 'c']
}

pub open spec fn kw_no_startup_id() -> Seq<char> {
    seq!['-', '-', 'n', 'o', '-', 's', 't', 'a', 'r', 't', 'u', 'p', '-', 'i', 'd']
}

/// Whether `w` stands in `s` at position `i`.
pub open spec fn word_at(s: Seq<char>, i: int, w: Seq<char>) -> bool {
    starts_with_at(s, i, s.len() as int, w)
}

/// A comment: blanks, `#`, then the rest of the line, trimmed.
pub open spec fn spec_comment(s: Seq<char>, i: int) -> Option<(int, SpecConfigLine)> {
    let a = skip_blanks(s, i);
    if a < s.len() && s[a] == '#' {
        match text_end(s, a + 1) {
            Some(p) => Some((p, SpecConfigLine::Comment(trimmed(s, a + 1, p)))),
            None => None,
        }
    } else {
        None
    }
}

/// A variable: blanks, `set`, blanks, `$`, the name, blanks, then the value
/// (the rest of the line, trimmed).
pub open spec fn spec_set(s: Seq<char>, i: int) -> Option<(int, SpecConfigLine)> {
    let a = skip_blanks(s, i);
    let b = a + 3;
    let c = skip_blanks(s, b);
    let d = ident_end(s, c + 1);
    let e = skip_blanks(s, d);
    if word_at(s, a, kw_set()) && b < c && c < s.len() && s[c] == '$' && d < e {
        match text_end(s, e) {
            Some(p) => Some(
                (p, SpecConfigLine::SetVar { name: s.subrange(c + 1, d), value: trimmed(s, e, p) }),
            ),
            None => None,
        }
    } else {
        None
    }
}

/// The part of a key binding after its keyword, which ends at `b`: blanks,
/// the key combination (split at `+`: the last piece is the key, the others
/// the modifiers), blanks, then the command (the rest of the line, trimmed).
pub open spec fn spec_binding_tail(s: Seq<char>, b: int) -> Option<(int, SpecConfigLine)> {
    let c = skip_blanks(s, b);
    let q = combo_end(s, c);
    let e = skip_blanks(s, q);
    if b < c && q < e {
        match text_end(s, e) {
            Some(p) => {
                let parts = split_plus(s, c, q);
                Some(
                    (
                        p,
                        SpecConfigLine::Binding {
                            modifiers: parts.drop_last(),
                            key: parts.last(),
                            command: trimmed(s, e, p),
                        },
                    ),
                )
            },
            None => None,
        }
    } else {
        None
    }
}

/// A key binding: blanks, `bindsym` or `bindcode`, then its tail.
pub open spec fn spec_binding(s: Seq<char>, i: int) -> Option<(int, SpecConfigLine)> {
    let a = skip_blanks(s, i);
    if word_at(s, a, kw_bindsym()) {
        spec_binding_tail(s, a + 7)
    } else if word_at(s, a, kw_bindcode()) {
        spec_binding_tail(s, a + 8)
    } else {
        None
    }
}

/// A start-up command: blanks, `exec`, optionally blanks and
/// `--no-startup-id`, blanks, then the command (the rest of the line, trimmed).
pub open spec fn spec_exec(s: Seq<char>, i: int) -> Option<(int, SpecConfigLine)> {
    let a = skip_blanks(s, i);
    let b = a + 4;
    let c = skip_blanks(s, b);
    let f = if b < c && word_at(s, c, kw_no_startup_id()) {
        c + 15
    } else {
        b
    };
    let e = skip_blanks(s, f);
    if word_at(s, a, kw_exec()) && f < e {
        match text_end(s, e) {
            Some(p) => Some((p, SpecConfigLine::ExecCmd(trimmed(s, e, p)))),
            None => None,
        }
    } else {
        None
    }
}

/// Any other text: the rest of the line, trimmed.
pub open spec fn spec_raw(s: Seq<char>, i: int) -> Option<(int, SpecConfigLine)> {
    match text_end(s, i) {
        Some(p) => Some((p, SpecConfigLine::RawLine(trimmed(s, i, p)))),
        None => None,
    }
}

/// The position after a line break at `p`, if one stands there.
pub open spec fn after_line_break(s: Seq<char>, p: int) -> int {
    if 0 <= p < s.len() && s[p] == '\n' {
        p + 1
    } else if 0 <= p && p + 1 < s.len() && s[p] == '\r' && s[p + 1] == '\n' {
        p + 2
    } else {
        p
    }
}

/// The first blank, line feed or carriage return at or after `i`; the length
/// of `s` if there is none.
pub open spec fn name_end(s: Seq<char>, i: int) -> int
    decreases s.len() - i,
{
    if 0 <= i < s.len() && !is_blank(s[i]) && s[i] != '\n' && s[i] != '\r' {
        name_end(s, i + 1)
    } else {
        i
    }
}

pub open spec fn kw_mode() -> Seq<char> {
    seq!['m', 'o', 'd', 'e']
}

/// The first line of a mode block: blanks, `mode`, blanks, the mode's name
/// (no blanks or line breaks in it), blanks, `{`, blanks, then a line feed
/// or a carriage return and line feed. Where the next line starts.
pub open spec fn mode_header(s: Seq<char>, i: int) -> Option<int> {
    let a = skip_blanks(s, i);
    let b = a + 4;
    let c = skip_blanks(s, b);
    let d = name_end(s, c);
    let e = skip_blanks(s, d);
    let f = skip_blanks(s, e + 1);
    if word_at(s, a, kw_mode()) && b < c && c < d && d < e && e < s.len() && s[e] == '{' && f
        < s.len() && breaks_at(s, f) {
        Some(after_line_break(s, f))
    } else {
        None
    }
}

/// The last line of a mode block: blanks, `}`, blanks, then a line break or
/// the end of `s`. Where the line's text ends.
pub open spec fn closing_end(s: Seq<char>, i: int) -> Option<int> {
    let a = skip_blanks(s, i);
    let b = skip_blanks(s, a + 1);
    if 0 <= a < s.len() && s[a] == '}' && breaks_at(s, b) {
        Some(b)
    } else {
        None
    }
}

/// The rest of a mode block from `i` on: the lines up to its closing line,
/// and where the text of the closing line ends. `None` where a line is
/// refused, or the text ends, before a closing line.
pub open spec fn spec_body(s: Seq<char>, i: int) -> Option<(int, Seq<SpecConfigLine>)>
    decreases s.len() - i, 3int,
{
    match closing_end(s, i) {
        Some(b) => Some((b, Seq::empty())),
        None => match spec_line(s, i) {
            Some((j, l)) => if i < j <= s.len() {
                match spec_body(s, j) {
                    Some((k, ls)) => Some((k, seq![l] + ls)),
                    None => None,
                }
            } else {
                None
            },
            None => None,
        },
    }
}

/// A mode block: its first line, then its lines up to its closing line.
pub open spec fn spec_mode(s: Seq<char>, i: int) -> Option<(int, SpecConfigLine)>
    decreases s.len() - i, 0int,
{
    match mode_header(s, i) {
        Some(h) => if i < h <= s.len() {
            match spec_body(s, h) {
                Some((k, ls)) => Some((k, SpecConfigLine::Mode(ls))),
                None => None,
            }
        } else {
            None
        },
        None => None,
    }
}

/// The content of a non-empty line: the first of the line kinds that accepts it.
pub open spec fn spec_line_content(s: Seq<char>, i: int) -> Option<(int, SpecConfigLine)>
    decreases s.len() - i, 1int,
{
    if spec_comment(s, i) is Some {
        spec_comment(s, i)
    } else if spec_set(s, i) is Some {
        spec_set(s, i)
    } else if spec_binding(s, i) is Some {
        spec_binding(s, i)
    } else if spec_exec(s, i) is Some {
        spec_exec(s, i)
    } else if spec_mode(s, i) is Some {
        spec_mode(s, i)
    } else {
        spec_raw(s, i)
    }
}

/// One line at `i`, with its line break: where the next line starts, and what
/// the line holds. `None` at the end of the text and where no kind of line
/// accepts it.
pub open spec fn spec_line(s: Seq<char>, i: int) -> Option<(int, SpecConfigLine)>
    decreases s.len() - i, 2int,
{
    if !(0 <= i < s.len()) {
        None
    } else if s[i] == '\n' {
        Some((i + 1, SpecConfigLine::EmptyLine))
    } else if s[i] == '\r' && i + 1 < s.len() && s[i + 1] == '\n' {
        Some((i + 2, SpecConfigLine::EmptyLine))
    } else {
        match spec_line_content(s, i) {
            Some((p, l)) => Some((after_line_break(s, p), l)),
            None => None,
        }
    }
}

/// The lines read from `i` on, one after the other, until a line is refused:
/// the position where reading stopped, and the lines. (A line that did not
/// move the reader forward would also stop it; `line_moves_forward` shows
/// that there is none.)
pub open spec fn spec_lines(s: Seq<char>, i: int) -> (int, Seq<SpecConfigLine>)
    decreases s.len() - i,
{
    match spec_line(s, i) {
        Some((j, l)) => if i < j <= s.len() {
            let (k, ls) = spec_lines(s, j);
            (k, seq![l] + ls)
        } else {
            (i, Seq::empty())
        },
        None => (i, Seq::empty()),
    }
}

/// Position `p` ends the text, or a line feed or a carriage return and line
/// feed stand there.
pub open spec fn breaks_at(s: Seq<char>, p: int) -> bool {
    p == s.len() || s[p] == '\n' || (s[p] == '\r' && p < s.len() - 1 && s[p + 1] == '\n')
}

/// The mathematical value of a parse result at a position.
pub open spec fn found(r: Option<(usize, ConfigLine)>) -> Option<(int, SpecConfigLine)> {
    match r {
        Some((j, l)) => Some((j as int, l@)),
        None => None,
    }
}

fn blanks_end(s: &Vec<char>, i: usize) -> (r: usize)
    requires
        i <= s@.len(),
    ensures
        r == skip_blanks(s@, i as int),
        i <= r <= s@.len(),
{
    let mut k = i;
    while k < s.len() && (s[k] == ' ' || s[k] == '\t')
        invariant
            i <= k <= s@.len(),
            skip_blanks(s@, i as int) == skip_blanks(s@, k as int),
        decreases s@.len() - k,
    {
        k = k + 1;
    }
    k
}

fn line_end_at(s: &Vec<char>, i: usize) -> (r: usize)
    requires
        i <= s@.len(),
    ensures
        r == line_end(s@, i as int),
        i <= r <= s@.len(),
        r < s@.len() ==> s@[r as int] == '\r' || s@[r as int] == '\n',
{
    let mut k = i;
    while k < s.len() && s[k] != '\r' && s[k] != '\n'
        invariant
            i <= k <= s@.len(),
            line_end(s@, i as int) == line_end(s@, k as int),
        decreases s@.len() - k,
    {
        k = k + 1;
    }
    k
}

fn text_end_at(s: &Vec<char>, i: usize) -> (r: Option<usize>)
    requires
        i <= s@.len(),
    ensures
        match r {
            Some(p) => text_end(s@, i as int) == Some(p as int) && i <= p <= s@.len()
                && breaks_at(s@, p as int),
            None => text_end(s@, i as int) is None,
        },
{
    let p = line_end_at(s, i);
    if p < s.len() && s[p] == '\r' && !(p + 1 < s.len() && s[p + 1] == '\n') {
        None
    } else {
        Some(p)
    }
}

fn ident_end_at(s: &Vec<char>, i: usize) -> (r: usize)
    requires
        i <= s@.len(),
    ensures
        r == ident_end(s@, i as int),
        i <= r <= s@.len(),
{
    let mut k = i;
    while k < s.len() && (is_alphanumeric(s[k]) || s[k] == '_' || s[k] == '-')
        invariant
            i <= k <= s@.len(),
            ident_end(s@, i as int) == ident_end(s@, k as int),
        decreases s@.len() - k,
    {
        k = k + 1;
    }
    k
}

fn combo_end_at(s: &Vec<char>, i: usize) -> (r: usize)
    requires
        i <= s@.len(),
    ensures
        r == combo_end(s@, i as int),
        i <= r <= s@.len(),
{
    let mut k = i;
    while k < s.len() && s[k] != ' ' && s[k] != '\n'
        invariant
            i <= k <= s@.len(),
            combo_end(s@, i as int) == combo_end(s@, k as int),
        decreases s@.len() - k,
    {
        k = k + 1;
    }
    k
}

/// The pieces of `s[from..to]` between `+` signs.
fn split_plus_at(s: &Vec<char>, from: usize, to: usize) -> (r: Vec<String>)
    requires
        from <= to <= s@.len(),
    ensures
        texts_view(r@) == split_plus(s@, from as int, to as int),
{
    let mut pieces: Vec<String> = Vec::new();
    let mut start = from;
    let mut k = from;
    while k < to
        invariant
            from <= start <= k <= to <= s@.len(),
            plus_pos(s@, start as int, to as int) == plus_pos(s@, k as int, to as int),
            texts_view(pieces@) + split_plus(s@, start as int, to as int) == split_plus(
                s@,
                from as int,
                to as int,
            ),
        decreases to - k,
    {
        if s[k] == '+' {
            let piece = string_of(s, start, k);
            let ghost before = pieces@;
            pieces.push(piece);
            assert(texts_view(pieces@) =~= texts_view(before).push(piece@));
            assert(split_plus(s@, start as int, to as int) =~= seq![piece@] + split_plus(
                s@,
                k + 1,
                to as int,
            ));
            assert(texts_view(pieces@) + split_plus(s@, k + 1, to as int) =~= texts_view(before)
                + split_plus(s@, start as int, to as int));
            start = k + 1;
        }
        k = k + 1;
    }
    let last = string_of(s, start, to);
    let ghost before = pieces@;
    pieces.push(last);
    assert(texts_view(pieces@) =~= texts_view(before).push(last@));
    assert(split_plus(s@, start as int, to as int) =~= seq![last@]);
    pieces
}


fn word_at_exec(s: &Vec<char>, i: usize, w: &[char]) -> (r: bool)
    requires
        i <= s@.len(),
    ensures
        r == word_at(s@, i as int, w@),
        r ==> i + w@.len() <= s@.len(),
        s@.len() <= usize::MAX,
{
    has_prefix_at(s, i, s.len(), w)
}

fn comment_at(s: &Vec<char>, i: usize) -> (r: Option<(usize, ConfigLine)>)
    requires
        i <= s@.len(),
    ensures
        found(r) == spec_comment(s@, i as int),
        r matches Some((j, _)) ==> j <= s@.len(),
        r matches Some((j, _)) ==> i < j,
{
    let a = blanks_end(s, i);
    if a < s.len() && s[a] == '#' {
        match text_end_at(s, a + 1) {
            Some(p) => Some((p, ConfigLine::Comment(trimmed_string(s, a + 1, p)))),
            None => None,
        }
    } else {
        None
    }
}

fn set_at(s: &Vec<char>, i: usize) -> (r: Option<(usize, ConfigLine)>)
    requires
        i <= s@.len(),
    ensures
        found(r) == spec_set(s@, i as int),
        r matches Some((j, _)) ==> j <= s@.len(),
        r matches Some((j, _)) ==> i < j,
{
    let a = blanks_end(s, i);
    let kw = ['s', 'e', 't'];
    assert(kw@ =~= kw_set());
    assert(kw@.len() == 3);
    if !word_at_exec(s, a, &kw) {
        return None;
    }
    let b = a + 3;
    let c = blanks_end(s, b);
    if !(b < c && c < s.len() && s[c] == '$') {
        return None;
    }
    let d = ident_end_at(s, c + 1);
    let e = blanks_end(s, d);
    if !(d < e) {
        return None;
    }
    match text_end_at(s, e) {
        Some(p) => {
            let name = string_of(s, c + 1, d);
            let value = trimmed_string(s, e, p);
            Some((p, ConfigLine::SetVar { name, value }))
        },
        None => None,
    }
}

fn binding_tail_at(s: &Vec<char>, b: usize) -> (r: Option<(usize, ConfigLine)>)
    requires
        b <= s@.len(),
    ensures
        found(r) == spec_binding_tail(s@, b as int),
        r matches Some((j, _)) ==> j <= s@.len(),
        r matches Some((j, _)) ==> b < j,
{
    let c = blanks_end(s, b);
    if !(b < c) {
        return None;
    }
    let q = combo_end_at(s, c);
    let e = blanks_end(s, q);
    if !(q < e) {
        return None;
    }
    match text_end_at(s, e) {
        Some(p) => {
            let mut parts = split_plus_at(s, c, q);
            proof {
                lemma_split_plus_nonempty(s@, c as int, q as int);
            }
            let ghost all = parts@;
            let key = parts.pop().unwrap();
            assert(texts_view(parts@) =~= texts_view(all).drop_last());
            let command = trimmed_string(s, e, p);
            Some((p, ConfigLine::Binding { modifiers: parts, key, command }))
        },
        None => None,
    }
}

fn binding_at(s: &Vec<char>, i: usize) -> (r: Option<(usize, ConfigLine)>)
    requires
        i <= s@.len(),
    ensures
        found(r) == spec_binding(s@, i as int),
        r matches Some((j, _)) ==> j <= s@.len(),
        r matches Some((j, _)) ==> i < j,
{
    let a = blanks_end(s, i);
    let sym = ['b', 'i', 'n', 'd', 's', 'y', 'm'];
    let code = ['b', 'i', 'n', 'd', 'c', 'o', 'd', 'e'];
    assert(sym@ =~= kw_bindsym());
    assert(code@ =~= kw_bindcode());
    assert(sym@.len() == 7 && code@.len() == 8);
    if word_at_exec(s, a, &sym) {
        binding_tail_at(s, a + 7)
    } else if word_at_exec(s, a, &code) {
        binding_tail_at(s, a + 8)
    } else {
        None
    }
}

fn exec_at(s: &Vec<char>, i: usize) -> (r: Option<(usize, ConfigLine)>)
    requires
        i <= s@.len(),
    ensures
        found(r) == spec_exec(s@, i as int),
        r matches Some((j, _)) ==> j <= s@.len(),
        r matches Some((j, _)) ==> i < j,
{
    let a = blanks_end(s, i);
    let kw = ['e', 'x', 'e', 'c'];
    let flag = ['-', '-', 'n', 'o', '-', 's', 't', 'a', 'r', 't', 'u', 'p', '-', 'i', 'd'];
    assert(kw@ =~= kw_exec());
    assert(flag@ =~= kw_no_startup_id());
    assert(kw@.len() == 4 && flag@.len() == 15);
    if !word_at_exec(s, a, &kw) {
        return None;
    }
    let b = a + 4;
    let c = blanks_end(s, b);
    let f = if b < c && word_at_exec(s, c, &flag) {
        c + 15
    } else {
        b
    };
    let e = blanks_end(s, f);
    if !(f < e) {
        return None;
    }
    match text_end_at(s, e) {
        Some(p) => Some((p, ConfigLine::ExecCmd(trimmed_string(s, e, p)))),
        None => None,
    }
}

fn raw_at(s: &Vec<char>, i: usize) -> (r: Option<(usize, ConfigLine)>)
    requires
        i <= s@.len(),
    ensures
        found(r) == spec_raw(s@, i as int),
        r matches Some((j, _)) ==> j <= s@.len(),
        r matches Some((j, _)) ==> i <= j && (j == i ==> breaks_at(s@, j as int)),
{
    match text_end_at(s, i) {
        Some(p) => Some((p, ConfigLine::RawLine(trimmed_string(s, i, p)))),
        None => None,
    }
}

fn name_end_at(s: &Vec<char>, i: usize) -> (r: usize)
    requires
        i <= s@.len(),
    ensures
        r == name_end(s@, i as int),
        i <= r <= s@.len(),
{
    let mut k = i;
    while k < s.len() && s[k] != ' ' && s[k] != '\t' && s[k] != '\n' && s[k] != '\r'
        invariant
            i <= k <= s@.len(),
            name_end(s@, i as int) == name_end(s@, k as int),
        decreases s@.len() - k,
    {
        k = k + 1;
    }
    k
}

/// Whether a line break stands at `p`, which is within the text.
fn breaks_at_exec(s: &Vec<char>, p: usize) -> (r: bool)
    requires
        p < s@.len(),
    ensures
        r == breaks_at(s@, p as int),
{
    s[p] == '\n' || (s[p] == '\r' && p < s.len() - 1 && s[p + 1] == '\n')
}

fn mode_header_at(s: &Vec<char>, i: usize) -> (r: Option<usize>)
    requires
        i <= s@.len(),
    ensures
        r matches Some(h) ==> mode_header(s@, i as int) == Some(h as int),
        r is None ==> mode_header(s@, i as int) is None,
        r matches Some(h) ==> i < h <= s@.len(),
{
    let a = blanks_end(s, i);
    let kw = ['m', 'o', 'd', 'e'];
    assert(kw@ =~= kw_mode());
    assert(kw@.len() == 4);
    if !word_at_exec(s, a, &kw) {
        return None;
    }
    let b = a + 4;
    let c = blanks_end(s, b);
    let d = name_end_at(s, c);
    let e = blanks_end(s, d);
    if !(b < c && c < d && d < e && e < s.len() && s[e] == '{') {
        return None;
    }
    let f = blanks_end(s, e + 1);
    if !(f < s.len() && breaks_at_exec(s, f)) {
        return None;
    }
    if s[f] == '\n' {
        Some(f + 1)
    } else {
        Some(f + 2)
    }
}

fn closing_end_at(s: &Vec<char>, i: usize) -> (r: Option<usize>)
    requires
        i <= s@.len(),
    ensures
        r matches Some(b) ==> closing_end(s@, i as int) == Some(b as int),
        r is None ==> closing_end(s@, i as int) is None,
        r matches Some(b) ==> i < b <= s@.len(),
{
    let a = blanks_end(s, i);
    if !(a < s.len() && s[a] == '}') {
        return None;
    }
    let b = blanks_end(s, a + 1);
    if b == s.len() || breaks_at_exec(s, b) {
        Some(b)
    } else {
        None
    }
}

/// `body` followed by what `rest` reads.
pub open spec fn body_after(
    body: Seq<SpecConfigLine>,
    rest: Option<(int, Seq<SpecConfigLine>)>,
) -> Option<(int, Seq<SpecConfigLine>)> {
    match rest {
        Some((k, ls)) => Some((k, body + ls)),
        None => None,
    }
}

fn mode_at(s: &Vec<char>, i: usize) -> (r: Option<(usize, ConfigLine)>)
    requires
        i <= s@.len(),
    ensures
        found(r) == spec_mode(s@, i as int),
        r matches Some((j, _)) ==> j <= s@.len(),
        r matches Some((j, _)) ==> i < j,
    decreases s@.len() - i, 0int,
{
    let h = match mode_header_at(s, i) {
        Some(h) => h,
        None => return None,
    };
    let mut lines: Vec<ConfigLine> = Vec::new();
    let mut k = h;
    loop
        invariant
            i < h <= k <= s@.len(),
            mode_header(s@, i as int) == Some(h as int),
            spec_body(s@, h as int) == body_after(
                lines@.map_values(|l: ConfigLine| l@),
                spec_body(s@, k as int),
            ),
        decreases s@.len() - k,
    {
        let ghost done = lines@.map_values(|l: ConfigLine| l@);
        match closing_end_at(s, k) {
            Some(b) => {
                assert(done + Seq::<SpecConfigLine>::empty() =~= done);
                proof {
                    lines_view_is_each_view(lines@);
                }
                return Some((b, ConfigLine::Mode(I3Configuration { lines })));
            },
            None => {},
        }
        match line_at(s, k) {
            Some((j, l)) => {
                let ghost lv = l@;
                lines.push(l);
                assert(lines@.map_values(|l: ConfigLine| l@) =~= done.push(lv));
                proof {
                    match spec_body(s@, j as int) {
                        Some((e, ls)) => {
                            assert(done + (seq![lv] + ls) =~= done.push(lv) + ls);
                        },
                        None => {},
                    }
                }
                k = j;
            },
            None => {
                return None;
            },
        }
    }
}

fn line_content_at(s: &Vec<char>, i: usize) -> (r: Option<(usize, ConfigLine)>)
    requires
        i <= s@.len(),
    ensures
        found(r) == spec_line_content(s@, i as int),
        r matches Some((j, _)) ==> j <= s@.len(),
        r matches Some((j, _)) ==> i <= j && (j == i ==> breaks_at(s@, j as int)),
    decreases s@.len() - i, 1int,
{
    let r = comment_at(s, i);
    if r.is_some() {
        return r;
    }
    let r = set_at(s, i);
    if r.is_some() {
        return r;
    }
    let r = binding_at(s, i);
    if r.is_some() {
        return r;
    }
    let r = exec_at(s, i);
    if r.is_some() {
        return r;
    }
    let r = mode_at(s, i);
    if r.is_some() {
        return r;
    }
    raw_at(s, i)
}

fn line_at(s: &Vec<char>, i: usize) -> (r: Option<(usize, ConfigLine)>)
    requires
        i <= s@.len(),
    ensures
        found(r) == spec_line(s@, i as int),
        r matches Some((j, _)) ==> j <= s@.len(),
        r matches Some((j, _)) ==> i < j,
    decreases s@.len() - i, 2int,
{
    if i >= s.len() {
        return None;
    }
    if s[i] == '\n' {
        return Some((i + 1, ConfigLine::EmptyLine));
    }
    if s[i] == '\r' && i + 1 < s.len() && s[i + 1] == '\n' {
        return Some((i + 2, ConfigLine::EmptyLine));
    }
    match line_content_at(s, i) {
        Some((p, l)) => {
            let next = if p < s.len() && s[p] == '\n' {
                p + 1
            } else if p < s.len() && s[p] == '\r' && p + 1 < s.len() && s[p + 1] == '\n' {
                p + 2
            } else {
                p
            };
            Some((next, l))
        },
        None => None,
    }
}

proof fn lemma_split_plus_nonempty(s: Seq<char>, from: int, to: int)
    ensures
        split_plus(s, from, to).len() >= 1,
    decreases to - from,
{
    let p = plus_pos(s, from, to);
    if from <= p < to {
        lemma_split_plus_nonempty(s, p + 1, to);
    }
}

/// What a parser expected where it stopped: a keyword or a fixed text
/// (`Tag`; also a carriage return that no line feed follows), one given
/// character (`Char`), at least one space or tab (`Space`), or more text
/// (`Eof`).
#[derive(Debug, PartialEq, Eq, Clone, Copy)]
pub enum ErrorKind {
    Tag,
    Char,
    Space,
    Eof,
}

/// An error of the parser: the rest of the text from where it found what it
/// did not expect, and what it expected there.
#[derive(Debug, PartialEq, Eq, Clone, Copy)]
pub struct ParseError<'a> {
    pub input: &'a str,
    pub code: ErrorKind,
}

/// Where reading a comment at `i` stops when it fails: at the first
/// character after the blanks when it is no `#`, else after the `#`, where
/// the rest of the line ends in a lone carriage return.
pub open spec fn comment_error(s: Seq<char>, i: int) -> (int, ErrorKind) {
    let a = skip_blanks(s, i);
    if !(a < s.len() && s[a] == '#') {
        (a, ErrorKind::Char)
    } else {
        (a + 1, ErrorKind::Tag)
    }
}

/// Where reading a variable at `i` stops when it fails, and why.
pub open spec fn set_error(s: Seq<char>, i: int) -> (int, ErrorKind) {
    let a = skip_blanks(s, i);
    let b = a + 3;
    let c = skip_blanks(s, b);
    let d = ident_end(s, c + 1);
    let e = skip_blanks(s, d);
    if !word_at(s, a, kw_set()) {
        (a, ErrorKind::Tag)
    } else if !(b < c) {
        (b, ErrorKind::Space)
    } else if !(c < s.len() && s[c] == '$') {
        (c, ErrorKind::Char)
    } else if !(d < e) {
        (d, ErrorKind::Space)
    } else {
        (e, ErrorKind::Tag)
    }
}

/// Where reading the part of a key binding after its keyword, at `b`,
/// stops when it fails, and why.
pub open spec fn binding_tail_error(s: Seq<char>, b: int) -> (int, ErrorKind) {
    let c = skip_blanks(s, b);
    let q = combo_end(s, c);
    let e = skip_blanks(s, q);
    if !(b < c) {
        (b, ErrorKind::Space)
    } else if !(q < e) {
        (q, ErrorKind::Space)
    } else {
        (e, ErrorKind::Tag)
    }
}

/// Where reading a key binding at `i` stops when it fails, and why: with
/// neither keyword, where `bindcode` was expected.
pub open spec fn binding_error(s: Seq<char>, i: int) -> (int, ErrorKind) {
    let a = skip_blanks(s, i);
    if word_at(s, a, kw_bindsym()) {
        binding_tail_error(s, a + 7)
    } else if word_at(s, a, kw_bindcode()) {
        binding_tail_error(s, a + 8)
    } else {
        (a, ErrorKind::Tag)
    }
}

/// Where reading a start-up command at `i` stops when it fails, and why.
pub open spec fn exec_error(s: Seq<char>, i: int) -> (int, ErrorKind) {
    let a = skip_blanks(s, i);
    let b = a + 4;
    let c = skip_blanks(s, b);
    let f = if b < c && word_at(s, c, kw_no_startup_id()) {
        c + 15
    } else {
        b
    };
    let e = skip_blanks(s, f);
    if !word_at(s, a, kw_exec()) {
        (a, ErrorKind::Tag)
    } else if !(f < e) {
        (f, ErrorKind::Space)
    } else {
        (e, ErrorKind::Tag)
    }
}

/// Where reading a line at `i` stops when it fails, and why: at the end of
/// the text, or at the line's start when it ends in a lone carriage return
/// (where reading it as other text failed, the last kind tried).
pub open spec fn line_error(s: Seq<char>, i: int) -> (int, ErrorKind) {
    if i >= s.len() {
        (i, ErrorKind::Eof)
    } else {
        (i, ErrorKind::Tag)
    }
}

/// What a parse of `s` returns when the grammar gives `expected` for it: the
/// rest of the text after what was read and the line read; or, when the
/// grammar refuses it, an error with the rest of the text from the position
/// that `error` gives, and its kind.
pub open spec fn parsed_as<'a>(
    s: Seq<char>,
    r: Result<(&'a str, ConfigLine), ParseError<'a>>,
    expected: Option<(int, SpecConfigLine)>,
    error: (int, ErrorKind),
) -> bool {
    match expected {
        Some((p, l)) => r matches Ok((rest, line)) && rest@ == s.subrange(p, s.len() as int) && line@
            == l,
        None => r matches Err(e) && e.input@ == s.subrange(error.0, s.len() as int) && e.code
            == error.1,
    }
}

/// The error for what the parser did not expect at `error.0`.
fn error_at<'a>(input: &'a str, s: &Vec<char>, error: (usize, ErrorKind)) -> (e: ParseError<'a>)
    requires
        s@ == input@,
        error.0 <= s@.len(),
    ensures
        e.input@ == input@.subrange(error.0 as int, input@.len() as int),
        e.code == error.1,
{
    ParseError { input: input.substring_char(error.0, s.len()), code: error.1 }
}

fn comment_error_at(s: &Vec<char>, i: usize) -> (r: (usize, ErrorKind))
    requires
        i <= s@.len(),
    ensures
        (r.0 as int, r.1) == comment_error(s@, i as int),
        r.0 <= s@.len(),
{
    let a = blanks_end(s, i);
    if !(a < s.len() && s[a] == '#') {
        (a, ErrorKind::Char)
    } else {
        (a + 1, ErrorKind::Tag)
    }
}

fn set_error_at(s: &Vec<char>, i: usize) -> (r: (usize, ErrorKind))
    requires
        i <= s@.len(),
    ensures
        (r.0 as int, r.1) == set_error(s@, i as int),
        r.0 <= s@.len(),
{
    let a = blanks_end(s, i);
    let kw = ['s', 'e', 't'];
    assert(kw@ =~= kw_set());
    if !word_at_exec(s, a, &kw) {
        return (a, ErrorKind::Tag);
    }
    let b = a + 3;
    let c = blanks_end(s, b);
    if !(b < c) {
        return (b, ErrorKind::Space);
    }
    if !(c < s.len() && s[c] == '$') {
        return (c, ErrorKind::Char);
    }
    let d = ident_end_at(s, c + 1);
    let e = blanks_end(s, d);
    if !(d < e) {
        (d, ErrorKind::Space)
    } else {
        (e, ErrorKind::Tag)
    }
}

fn binding_tail_error_at(s: &Vec<char>, b: usize) -> (r: (usize, ErrorKind))
    requires
        b <= s@.len(),
    ensures
        (r.0 as int, r.1) == binding_tail_error(s@, b as int),
        r.0 <= s@.len(),
{
    let c = blanks_end(s, b);
    if !(b < c) {
        return (b, ErrorKind::Space);
    }
    let q = combo_end_at(s, c);
    let e = blanks_end(s, q);
    if !(q < e) {
        (q, ErrorKind::Space)
    } else {
        (e, ErrorKind::Tag)
    }
}

fn binding_error_at(s: &Vec<char>, i: usize) -> (r: (usize, ErrorKind))
    requires
        i <= s@.len(),
    ensures
        (r.0 as int, r.1) == binding_error(s@, i as int),
        r.0 <= s@.len(),
{
    let a = blanks_end(s, i);
    let sym = ['b', 'i', 'n', 'd', 's', 'y', 'm'];
    let code = ['b', 'i', 'n', 'd', 'c', 'o', 'd', 'e'];
    assert(sym@ =~= kw_bindsym());
    assert(code@ =~= kw_bindcode());
    if word_at_exec(s, a, &sym) {
        binding_tail_error_at(s, a + 7)
    } else if word_at_exec(s, a, &code) {
        binding_tail_error_at(s, a + 8)
    } else {
        (a, ErrorKind::Tag)
    }
}

fn exec_error_at(s: &Vec<char>, i: usize) -> (r: (usize, ErrorKind))
    requires
        i <= s@.len(),
    ensures
        (r.0 as int, r.1) == exec_error(s@, i as int),
        r.0 <= s@.len(),
{
    let a = blanks_end(s, i);
    let kw = ['e', 'x', 'e', 'c'];
    let flag = ['-', '-', 'n', 'o', '-', 's', 't', 'a', 'r', 't', 'u', 'p', '-', 'i', 'd'];
    assert(kw@ =~= kw_exec());
    assert(flag@ =~= kw_no_startup_id());
    if !word_at_exec(s, a, &kw) {
        return (a, ErrorKind::Tag);
    }
    let b = a + 4;
    let c = blanks_end(s, b);
    let f = if b < c && word_at_exec(s, c, &flag) {
        c + 15
    } else {
        b
    };
    let e = blanks_end(s, f);
    if !(f < e) {
        (f, ErrorKind::Space)
    } else {
        (e, ErrorKind::Tag)
    }
}

/// Reads a comment at the start of `input`.
pub fn parse_comment(input: &str) -> (r: Result<(&str, ConfigLine), ParseError>)
    ensures
        parsed_as(input@, r, spec_comment(input@, 0), comment_error(input@, 0)),
{
    let s = str_chars(input);
    match comment_at(&s, 0) {
        Some((j, l)) => Ok((input.substring_char(j, s.len()), l)),
        None => Err(error_at(input, &s, comment_error_at(&s, 0))),
    }
}

/// Reads a variable definition at the start of `input`.
pub fn parse_set(input: &str) -> (r: Result<(&str, ConfigLine), ParseError>)
    ensures
        parsed_as(input@, r, spec_set(input@, 0), set_error(input@, 0)),
{
    let s = str_chars(input);
    match set_at(&s, 0) {
        Some((j, l)) => Ok((input.substring_char(j, s.len()), l)),
        None => Err(error_at(input, &s, set_error_at(&s, 0))),
    }
}

/// Reads a key binding at the start of `input`.
pub fn parse_binding(input: &str) -> (r: Result<(&str, ConfigLine), ParseError>)
    ensures
        parsed_as(input@, r, spec_binding(input@, 0), binding_error(input@, 0)),
{
    let s = str_chars(input);
    match binding_at(&s, 0) {
        Some((j, l)) => Ok((input.substring_char(j, s.len()), l)),
        None => Err(error_at(input, &s, binding_error_at(&s, 0))),
    }
}

/// Reads a start-up command at the start of `input`.
pub fn parse_exec(input: &str) -> (r: Result<(&str, ConfigLine), ParseError>)
    ensures
        parsed_as(input@, r, spec_exec(input@, 0), exec_error(input@, 0)),
{
    let s = str_chars(input);
    match exec_at(&s, 0) {
        Some((j, l)) => Ok((input.substring_char(j, s.len()), l)),
        None => Err(error_at(input, &s, exec_error_at(&s, 0))),
    }
}

/// Reads the rest of the first line of `input` as plain text. It fails, at
/// the start, only where the line ends in a lone carriage return.
pub fn parse_raw(input: &str) -> (r: Result<(&str, ConfigLine), ParseError>)
    ensures
        parsed_as(input@, r, spec_raw(input@, 0), (0, ErrorKind::Tag)),
{
    let s = str_chars(input);
    match raw_at(&s, 0) {
        Some((j, l)) => Ok((input.substring_char(j, s.len()), l)),
        None => Err(error_at(input, &s, (0, ErrorKind::Tag))),
    }
}

/// Reads one line, with the line break that ends it, at the start of `input`.
pub fn parse_line(input: &str) -> (r: Result<(&str, ConfigLine), ParseError>)
    ensures
        parsed_as(input@, r, spec_line(input@, 0), line_error(input@, 0)),
{
    let s = str_chars(input);
    match line_at(&s, 0) {
        Some((j, l)) => Ok((input.substring_char(j, s.len()), l)),
        None => {
            let kind = if s.len() == 0 {
                ErrorKind::Eof
            } else {
                ErrorKind::Tag
            };
            Err(error_at(input, &s, (0, kind)))
        },
    }
}

/// Reads a whole document, line after line, until a line is refused. It
/// always succeeds: the rest of the text is where reading stopped.
pub fn parse_config(document: &str) -> (r: Result<(&str, I3Configuration), ParseError>)
    ensures
        r matches Ok((rest, cfg)) && rest@ == document@.subrange(
            spec_lines(document@, 0).0,
            document@.len() as int,
        ) && cfg@ == spec_lines(document@, 0).1,
        carriage_returns_paired(document@) ==> (r matches Ok((rest, _)) && rest@.len() == 0),
        r matches Ok((_, cfg)) && lines_span(cfg@) <= document@.len() <= usize::MAX,
{
    let s = str_chars(document);
    let mut lines: Vec<ConfigLine> = Vec::new();
    let mut i: usize = 0;
    loop
        invariant
            i <= s@.len(),
            s@ == document@,
            spec_lines(s@, 0).0 == spec_lines(s@, i as int).0,
            spec_lines(s@, 0).1 == lines@.map_values(|l: ConfigLine| l@) + spec_lines(s@, i as int).1,
        ensures
            i <= s@.len(),
            spec_lines(s@, 0).0 == i,
            spec_lines(s@, 0).1 == lines@.map_values(|l: ConfigLine| l@),
        decreases s@.len() - i,
    {
        match line_at(&s, i) {
            Some((j, l)) => {
                let ghost before = lines@;
                let ghost lv = l@;
                lines.push(l);
                assert(lines@.map_values(|l: ConfigLine| l@) =~= before.map_values(
                    |l: ConfigLine| l@,
                ).push(lv));
                assert(spec_lines(s@, i as int).1 =~= seq![lv] + spec_lines(s@, j as int).1);
                assert(lines@.map_values(|l: ConfigLine| l@) + spec_lines(s@, j as int).1
                    =~= before.map_values(|l: ConfigLine| l@) + spec_lines(s@, i as int).1);
                i = j;
            },
            None => {
                assert(spec_lines(s@, i as int).1 =~= Seq::<SpecConfigLine>::empty());
                assert(lines@.map_values(|l: ConfigLine| l@) + Seq::<SpecConfigLine>::empty()
                    =~= lines@.map_values(|l: ConfigLine| l@));
                break;
            },
        }
    }
    proof {
        if carriage_returns_paired(s@) {
            paired_line_breaks_read_whole(s@, 0);
        }
        lemma_lines_span(s@, 0);
    }
    let rest = document.substring_char(i, s.len());
    Ok((rest, I3Configuration { lines }))
}


pub(crate) proof fn lemma_skip_blanks_bounds(s: Seq<char>, i: int)
    requires
        0 <= i <= s.len(),
    ensures
        i <= skip_blanks(s, i) <= s.len(),
    decreases s.len() - i,
{
    if 0 <= i < s.len() && is_blank(s[i]) {
        lemma_skip_blanks_bounds(s, i + 1);
    }
}

pub(crate) proof fn lemma_line_end_bounds(s: Seq<char>, i: int)
    requires
        0 <= i <= s.len(),
    ensures
        i <= line_end(s, i) <= s.len(),
        line_end(s, i) < s.len() ==> s[line_end(s, i)] == '\r' || s[line_end(s, i)] == '\n',
    decreases s.len() - i,
{
    if 0 <= i < s.len() && s[i] != '\r' && s[i] != '\n' {
        lemma_line_end_bounds(s, i + 1);
    }
}

proof fn lemma_ident_end_bounds(s: Seq<char>, i: int)
    requires
        0 <= i <= s.len(),
    ensures
        i <= ident_end(s, i) <= s.len(),
    decreases s.len() - i,
{
    if 0 <= i < s.len() && is_ident_char(s[i]) {
        lemma_ident_end_bounds(s, i + 1);
    }
}

proof fn lemma_combo_end_bounds(s: Seq<char>, i: int)
    requires
        0 <= i <= s.len(),
    ensures
        i <= combo_end(s, i) <= s.len(),
    decreases s.len() - i,
{
    if 0 <= i < s.len() && s[i] != ' ' && s[i] != '\n' {
        lemma_combo_end_bounds(s, i + 1);
    }
}

proof fn lemma_text_end_bounds(s: Seq<char>, i: int)
    requires
        0 <= i <= s.len(),
    ensures
        text_end(s, i) matches Some(p) ==> i <= p <= s.len() && breaks_at(s, p),
{
    lemma_line_end_bounds(s, i);
}

proof fn lemma_binding_tail_progress(s: Seq<char>, b: int)
    requires
        0 <= b <= s.len(),
    ensures
        spec_binding_tail(s, b) matches Some((j, _)) ==> b < j <= s.len(),
{
    lemma_skip_blanks_bounds(s, b);
    let c = skip_blanks(s, b);
    lemma_combo_end_bounds(s, c);
    let q = combo_end(s, c);
    lemma_skip_blanks_bounds(s, q);
    lemma_text_end_bounds(s, skip_blanks(s, q));
}

/// A line that the grammar accepts is never empty: reading it moves forward,
/// and stays within the text.
pub proof fn line_moves_forward(s: Seq<char>, i: int)
    requires
        0 <= i,
    ensures
        spec_line(s, i) matches Some((j, _)) ==> i < j <= s.len(),
{
    if 0 <= i < s.len() && !(s[i] == '\n') && !(s[i] == '\r' && i + 1 < s.len() && s[i + 1]
        == '\n') {
        let a = skip_blanks(s, i);
        lemma_skip_blanks_bounds(s, i);
        // comment
        if a < s.len() {
            lemma_text_end_bounds(s, a + 1);
        }
        // set
        if word_at(s, a, kw_set()) {
            lemma_skip_blanks_bounds(s, a + 3);
            let c = skip_blanks(s, a + 3);
            if c < s.len() {
                lemma_ident_end_bounds(s, c + 1);
                let d = ident_end(s, c + 1);
                lemma_skip_blanks_bounds(s, d);
                lemma_text_end_bounds(s, skip_blanks(s, d));
            }
        }
        // binding
        if word_at(s, a, kw_bindsym()) {
            lemma_binding_tail_progress(s, a + 7);
        }
        if word_at(s, a, kw_bindcode()) {
            lemma_binding_tail_progress(s, a + 8);
        }
        // exec
        if word_at(s, a, kw_exec()) {
            lemma_skip_blanks_bounds(s, a + 4);
            let c = skip_blanks(s, a + 4);
            let f = if a + 4 < c && word_at(s, c, kw_no_startup_id()) {
                c + 15
            } else {
                a + 4
            };
            lemma_skip_blanks_bounds(s, f);
            lemma_text_end_bounds(s, skip_blanks(s, f));
        }
        // mode block
        if let Some(h) = mode_header(s, i) {
            if i < h <= s.len() {
                lemma_body_bounds(s, h);
            }
        }
        // other text
        lemma_text_end_bounds(s, i);
        lemma_line_end_bounds(s, i);
    }
}

/// The rest of a mode block ends after its start, within the text.
pub(crate) proof fn lemma_body_bounds(s: Seq<char>, i: int)
    requires
        0 <= i <= s.len(),
    ensures
        spec_body(s, i) matches Some((k, _)) ==> i < k <= s.len(),
    decreases s.len() - i,
{
    lemma_skip_blanks_bounds(s, i);
    let a = skip_blanks(s, i);
    if a < s.len() {
        lemma_skip_blanks_bounds(s, a + 1);
    }
    if let Some((j, _)) = spec_line(s, i) {
        if i < j <= s.len() {
            lemma_body_bounds(s, j);
        }
    }
}

/// A line never takes more lines of the document than it has characters.
proof fn lemma_line_span(s: Seq<char>, i: int)
    requires
        0 <= i,
    ensures
        spec_line(s, i) matches Some((j, l)) ==> line_span(l) <= j - i,
    decreases s.len() - i, 2int,
{
    line_moves_forward(s, i);
    if 0 <= i < s.len() {
        if let Some(h) = mode_header(s, i) {
            if i < h <= s.len() {
                lemma_body_span(s, h);
            }
        }
        if let Some((p, l)) = spec_line_content(s, i) {
            lemma_after_line_break(s, p);
        }
    }
}

/// The rest of a mode block takes fewer lines of the document than it has
/// characters.
proof fn lemma_body_span(s: Seq<char>, i: int)
    requires
        0 <= i <= s.len(),
    ensures
        spec_body(s, i) matches Some((k, ls)) ==> lines_span(ls) + 1 <= k - i,
    decreases s.len() - i, 3int,
{
    lemma_skip_blanks_bounds(s, i);
    let a = skip_blanks(s, i);
    if a < s.len() {
        lemma_skip_blanks_bounds(s, a + 1);
    }
    if closing_end(s, i) is None {
        if let Some((j, l)) = spec_line(s, i) {
            if i < j <= s.len() {
                lemma_line_span(s, i);
                lemma_body_span(s, j);
                if let Some((k, ls)) = spec_body(s, j) {
                    lines_span_prepend(l, ls);
                }
            }
        }
    } else {
        assert(lines_span(Seq::<SpecConfigLine>::empty()) == 0);
    }
}

proof fn lemma_after_line_break(s: Seq<char>, p: int)
    ensures
        after_line_break(s, p) >= p,
{
}

/// The lines read from `i` on take no more lines of the document than they
/// have characters.
proof fn lemma_lines_span(s: Seq<char>, i: int)
    requires
        0 <= i <= s.len(),
    ensures
        i <= spec_lines(s, i).0 <= s.len(),
        lines_span(spec_lines(s, i).1) <= spec_lines(s, i).0 - i,
    decreases s.len() - i,
{
    if let Some((j, l)) = spec_line(s, i) {
        if i < j <= s.len() {
            lemma_line_span(s, i);
            lemma_lines_span(s, j);
            lines_span_prepend(l, spec_lines(s, j).1);
        } else {
            assert(lines_span(Seq::<SpecConfigLine>::empty()) == 0);
        }
    } else {
        assert(lines_span(Seq::<SpecConfigLine>::empty()) == 0);
    }
}

/// Every carriage return in `s` is followed by a line feed.
pub open spec fn carriage_returns_paired(s: Seq<char>) -> bool {
    forall|k: int| 0 <= k < s.len() && #[trigger] s[k] == '\r' ==> k + 1 < s.len() && s[k + 1] == '\n'
}

/// In a document whose line breaks are line feeds or carriage return and
/// line feed pairs, every line is accepted: the whole document is read.
pub proof fn paired_line_breaks_read_whole(s: Seq<char>, i: int)
    requires
        carriage_returns_paired(s),
        0 <= i <= s.len(),
    ensures
        spec_lines(s, i).0 == s.len(),
    decreases s.len() - i,
{
    line_moves_forward(s, i);
    if i < s.len() {
        lemma_line_end_bounds(s, i);
        assert(spec_raw(s, i) is Some);
        assert(spec_line(s, i) is Some);
        if let Some((j, _)) = spec_line(s, i) {
            paired_line_breaks_read_whole(s, j);
        }
    }
}


proof fn lemma_plus_pos(s: Seq<char>, i: int, to: int)
    requires
        0 <= i <= to <= s.len(),
    ensures
        i <= plus_pos(s, i, to) <= to,
        forall|k: int| i <= k < plus_pos(s, i, to) ==> s[k] != '+',
        plus_pos(s, i, to) < to ==> s[plus_pos(s, i, to)] == '+',
    decreases to - i,
{
    if i < to && s[i] != '+' {
        lemma_plus_pos(s, i + 1, to);
    }
}

/// The pieces of a key combination, joined again with `+`, give the key
/// combination as it was written, and no piece holds a `+`: the key and the
/// modifiers of a binding are exactly what stands between the `+` signs.
pub proof fn combo_pieces_rejoin(s: Seq<char>, from: int, to: int)
    requires
        0 <= from <= to <= s.len(),
    ensures
        join(split_plus(s, from, to), seq!['+']) == s.subrange(from, to),
        forall|k: int|
            0 <= k < split_plus(s, from, to).len() ==> !#[trigger] split_plus(s, from, to)[k].contains(
                '+',
            ),
    decreases to - from,
{
    lemma_plus_pos(s, from, to);
    let p = plus_pos(s, from, to);
    if from <= p < to {
        combo_pieces_rejoin(s, p + 1, to);
        lemma_split_plus_nonempty(s, p + 1, to);
        let rest = split_plus(s, p + 1, to);
        let all = split_plus(s, from, to);
        assert(all == seq![s.subrange(from, p)] + rest);
        assert(all.len() >= 2);
        assert(all[0] == s.subrange(from, p));
        assert(all.drop_first() =~= rest);
        assert(s.subrange(from, p) + seq!['+'] + s.subrange(p + 1, to) =~= s.subrange(from, to));
        assert forall|k: int| 0 <= k < all.len() implies !#[trigger] all[k].contains('+') by {
            if k == 0 {
                if all[k].contains('+') {
                    let m = choose|m: int| 0 <= m < all[k].len() && all[k][m] == '+';
                    assert(s[from + m] == '+');
                }
            } else {
                assert(all[k] == rest[k - 1]);
            }
        }
    } else {
        let all = split_plus(s, from, to);
        assert(all =~= seq![s.subrange(from, to)]);
        assert forall|k: int| 0 <= k < all.len() implies !#[trigger] all[k].contains('+') by {
            if all[k].contains('+') {
                let m = choose|m: int| 0 <= m < all[k].len() && all[k][m] == '+';
                assert(s[from + m] == '+');
            }
        }
    }
}

proof fn lemma_plus_pos_shift(s: Seq<char>, from: int, to: int, i: int)
    requires
        0 <= from <= i <= to <= s.len(),
    ensures
        plus_pos(s, i, to) == from + plus_pos(s.subrange(from, to), i - from, to - from),
    decreases to - i,
{
    if i < to && s[i] != '+' {
        lemma_plus_pos_shift(s, from, to, i + 1);
    }
}

/// Splitting a part of a text at `+` is splitting that part on its own.
pub proof fn split_plus_part(s: Seq<char>, from: int, to: int, i: int)
    requires
        0 <= from <= i <= to <= s.len(),
    ensures
        split_plus(s, i, to) == split_plus(s.subrange(from, to), i - from, to - from),
    decreases to - i,
{
    let t = s.subrange(from, to);
    lemma_plus_pos_shift(s, from, to, i);
    lemma_plus_pos(s, i, to);
    let p = plus_pos(s, i, to);
    if i <= p < to {
        split_plus_part(s, from, to, p + 1);
        assert(t.subrange(i - from, p - from) =~= s.subrange(i, p));
    } else {
        assert(t.subrange(i - from, to - from) =~= s.subrange(i, to));
    }
}

proof fn lemma_combo_end_at_space(s: Seq<char>, i: int, k: int)
    requires
        0 <= i <= k < s.len(),
        s[k] == ' ',
        forall|m: int| i <= m < k ==> s[m] != ' ' && s[m] != '\n',
    ensures
        combo_end(s, i) == k,
    decreases k - i,
{
    if i < k {
        lemma_combo_end_at_space(s, i + 1, k);
    }
}

proof fn lemma_line_end_none(s: Seq<char>, i: int)
    requires
        0 <= i <= s.len(),
        forall|m: int| i <= m < s.len() ==> s[m] != '\r' && s[m] != '\n',
    ensures
        line_end(s, i) == s.len(),
    decreases s.len() - i,
{
    if i < s.len() {
        lemma_line_end_none(s, i + 1);
    }
}

pub(crate) proof fn lemma_skip_blanks_facts(s: Seq<char>, i: int)
    requires
        0 <= i <= s.len(),
    ensures
        i <= skip_blanks(s, i) <= s.len(),
        forall|m: int| i <= m < skip_blanks(s, i) ==> is_blank(#[trigger] s[m]),
    decreases s.len() - i,
{
    if 0 <= i < s.len() && is_blank(s[i]) {
        lemma_skip_blanks_facts(s, i + 1);
    }
}

/// A line `bindsym COMBO COMMAND`, with a key combination of no spaces or
/// line feeds that does not start with a tab, and a command of no line
/// breaks, reads as the whole line: the pieces of the combination between
/// `+` signs (which, joined with `+`, give the combination back) are the
/// modifiers and the key, and the command is trimmed.
pub proof fn binding_line_reads_as_written(combo: Seq<char>, command: Seq<char>)
    requires
        combo.len() > 0,
        combo[0] != '\t',
        forall|k: int| 0 <= k < combo.len() ==> #[trigger] combo[k] != ' ' && combo[k] != '\n',
        forall|k: int| 0 <= k < command.len() ==> #[trigger] command[k] != '\n' && command[k] != '\r',
    ensures
        ({
            let s = kw_bindsym() + seq![' '] + combo + seq![' '] + command;
            let parts = split_plus(combo, 0, combo.len() as int);
            &&& spec_binding(s, 0) == Some(
                (
                    s.len() as int,
                    SpecConfigLine::Binding {
                        modifiers: parts.drop_last(),
                        key: parts.last(),
                        command: trimmed(command, 0, command.len() as int),
                    },
                ),
            )
            &&& join(parts, seq!['+']) == combo
        }),
{
    let s = kw_bindsym() + seq![' '] + combo + seq![' '] + command;
    let n = combo.len() as int;
    let q = 8 + n;
    assert(s.subrange(0, 7) =~= kw_bindsym());
    assert(skip_blanks(s, 0) == 0);
    assert(word_at(s, 0, kw_bindsym()));
    assert(s[7] == ' ');
    assert(s[8] == combo[0]);
    assert(skip_blanks(s, 8) == 8);
    assert(skip_blanks(s, 7) == 8);
    assert(s[q] == ' ');
    assert forall|m: int| 8 <= m < q implies s[m] != ' ' && s[m] != '\n' by {
        assert(s[m] == combo[m - 8]);
    }
    lemma_combo_end_at_space(s, 8, q);
    lemma_skip_blanks_facts(s, q + 1);
    let e = skip_blanks(s, q);
    assert(e == skip_blanks(s, q + 1));
    assert forall|m: int| q + 1 <= m < s.len() implies s[m] != '\r' && s[m] != '\n' by {
        assert(s[m] == command[m - q - 1]);
    }
    lemma_line_end_none(s, e);
    assert(text_end(s, e) == Some(s.len() as int));
    split_plus_part(s, 8, q, 8);
    assert(s.subrange(8, q) =~= combo);
    assert forall|m: int| q + 1 <= m < e implies unicode_whitespace(#[trigger] s[m]) by {
        assert(is_blank(s[m]));
    }
    trimmed_after_whitespace(s, q + 1, e, s.len() as int);
    trimmed_part(s, q + 1, s.len() as int);
    assert(s.subrange(q + 1, s.len() as int) =~= command);
    combo_pieces_rejoin(combo, 0, n);
    assert(combo.subrange(0, n) =~= combo);
    assert(s.len() - (q + 1) == command.len());
    assert(split_plus(s, 8, q) == split_plus(combo, 0, n));
    assert(trimmed(s, e, s.len() as int) == trimmed(command, 0, command.len() as int));
    assert(spec_binding_tail(s, 7) == spec_binding(s, 0));
}


proof fn lemma_ident_end_at(s: Seq<char>, i: int, k: int)
    requires
        0 <= i <= k < s.len(),
        !is_ident_char(s[k]),
        forall|m: int| i <= m < k ==> is_ident_char(#[trigger] s[m]),
    ensures
        ident_end(s, i) == k,
    decreases k - i,
{
    if i < k {
        lemma_ident_end_at(s, i + 1, k);
    }
}

/// A line `set $NAME VALUE`, with a name of letters, digits, `_` and `-`
/// and a value of no line breaks, reads as the variable `NAME` with the
/// value as written, only the whitespace around it removed.
pub proof fn set_line_reads_as_written(name: Seq<char>, value: Seq<char>)
    requires
        forall|k: int| 0 <= k < name.len() ==> is_ident_char(#[trigger] name[k]),
        forall|k: int| 0 <= k < value.len() ==> #[trigger] value[k] != '\n' && value[k] != '\r',
    ensures
        ({
            let s = kw_set() + seq![' ', '$'] + name + seq![' '] + value;
            spec_set(s, 0) == Some(
                (
                    s.len() as int,
                    SpecConfigLine::SetVar { name, value: trimmed(value, 0, value.len() as int) },
                ),
            )
        }),
{
    let s = kw_set() + seq![' ', '$'] + name + seq![' '] + value;
    let n = name.len() as int;
    let q = 5 + n;
    assert(s.subrange(0, 3) =~= kw_set());
    assert(skip_blanks(s, 0) == 0);
    assert(word_at(s, 0, kw_set()));
    assert(s[3] == ' ');
    assert(s[4] == '$');
    assert(skip_blanks(s, 4) == 4);
    assert(skip_blanks(s, 3) == 4);
    assert(s[q] == ' ');
    assert(!is_ident_char(' '));
    assert forall|m: int| 5 <= m < q implies is_ident_char(#[trigger] s[m]) by {
        assert(s[m] == name[m - 5]);
    }
    lemma_ident_end_at(s, 5, q);
    assert(is_blank(s[q]));
    lemma_skip_blanks_facts(s, q + 1);
    let e = skip_blanks(s, q);
    assert(e == skip_blanks(s, q + 1));
    assert forall|m: int| q + 1 <= m < s.len() implies s[m] != '\r' && s[m] != '\n' by {
        assert(s[m] == value[m - q - 1]);
    }
    lemma_line_end_none(s, e);
    assert(text_end(s, e) == Some(s.len() as int));
    assert(s.subrange(5, q) =~= name);
    assert forall|m: int| q + 1 <= m < e implies unicode_whitespace(#[trigger] s[m]) by {
        assert(is_blank(s[m]));
    }
    trimmed_after_whitespace(s, q + 1, e, s.len() as int);
    trimmed_part(s, q + 1, s.len() as int);
    assert(s.subrange(q + 1, s.len() as int) =~= value);
    assert(s.len() - (q + 1) == value.len());
}

/// Inside a mode block every line that the grammar reads is read, whatever
/// its kind: where no closing line stands at `i`, the rest of the block is
/// the line read at `i` followed by the rest of the block after it.
pub proof fn mode_body_reads_every_line(s: Seq<char>, i: int)
    requires
        0 <= i <= s.len(),
        closing_end(s, i) is None,
    ensures
        spec_line(s, i) matches Some((j, l)) ==> (spec_body(s, j) matches Some((k, ls))
            ==> spec_body(s, i) == Some((k, seq![l] + ls))),
{
    line_moves_forward(s, i);
}

} // verus!
