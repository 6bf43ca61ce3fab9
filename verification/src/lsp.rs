//! What the language server computes for an open document: the lines that
//! hold the word `error`, and the completions it offers.

use vstd::prelude::*;

use crate::report::{
    diagnostics_view, line_diagnostic, Diagnostic, DiagnosticSeverity, DiagnosticView, Position,
    Range,
};
use crate::text::{occurs_between, occurs_in, str_chars, utf8_len, utf8_len_u32};

verus! {

broadcast use vstd::array::group_array_axioms;

/// The first line feed at or after `i`, or the end of `s`.
pub open spec fn newline_pos(s: Seq<char>, i: int) -> int
    decreases s.len() - i,
{
    if 0 <= i < s.len() && s[i] != '\n' {
        newline_pos(s, i + 1)
    } else {
        i
    }
}

pub proof fn lemma_newline_pos_bounds(s: Seq<char>, i: int)
    requires
        0 <= i <= s.len(),
    ensures
        i <= newline_pos(s, i) <= s.len(),
    decreases s.len() - i,
{
    if 0 <= i < s.len() && s[i] != '\n' {
        lemma_newline_pos_bounds(s, i + 1);
    }
}

/// Where the line that starts at `i` and ends at `p` stops: before a
/// carriage return that comes just before the line feed at `p`.
pub open spec fn line_stop(s: Seq<char>, i: int, p: int) -> int {
    if p < s.len() && i < p && s[p - 1] == '\r' {
        p - 1
    } else {
        p
    }
}

/// The lines of `s[i..]`, as `str::lines` splits them: at each line feed,
/// without the line feed and without a carriage return just before it; a
/// line feed at the very end starts no further line.
pub open spec fn lines_from(s: Seq<char>, i: int) -> Seq<Seq<char>>
    decreases s.len() - i,
{
    if 0 <= i < s.len() {
        let p = newline_pos(s, i);
        proof {
            lemma_newline_pos_bounds(s, i);
        }
        if p < s.len() {
            seq![s.subrange(i, line_stop(s, i, p))] + lines_from(s, p + 1)
        } else {
            seq![s.subrange(i, p)]
        }
    } else {
        Seq::empty()
    }
}

/// The lines of a document.
pub open spec fn document_lines(s: Seq<char>) -> Seq<Seq<char>> {
    lines_from(s, 0)
}

pub open spec fn error_word() -> Seq<char> {
    seq!['e', 'r', 'r', 'o', 'r']
}

/// The diagnostic given for line `k` of a document when it holds `error`.
pub open spec fn error_word_diagnostic(k: int, line: Seq<char>) -> DiagnosticView {
    line_diagnostic(
        (k % 0x1_0000_0000) as u32,
        0,
        (utf8_len(line) % 0x1_0000_0000) as u32,
        DiagnosticSeverity::Error,
        "Sluta the word 'error'"@,
    )
}

/// One diagnostic for each line that holds the word `error`, in document
/// order, spanning the line.
pub open spec fn error_word_diagnostics(lines: Seq<Seq<char>>) -> Seq<DiagnosticView>
    decreases lines.len(),
{
    if lines.len() == 0 {
        Seq::empty()
    } else {
        let earlier = error_word_diagnostics(lines.drop_last());
        if occurs_in(error_word(), lines.last()) {
            earlier.push(error_word_diagnostic(lines.len() - 1, lines.last()))
        } else {
            earlier
        }
    }
}

proof fn lemma_flag_complete(lines: Seq<Seq<char>>, k: int, p: int)
    requires
        0 <= k < lines.len(),
        0 <= p && p + 5 <= lines[k].len(),
        lines[k].subrange(p, p + 5) == seq!['e', 'r', 'r', 'o', 'r'],
    ensures
        error_word_diagnostics(lines).contains(error_word_diagnostic(k, lines[k])),
    decreases lines.len(),
{
    let earlier = error_word_diagnostics(lines.drop_last());
    let all = error_word_diagnostics(lines);
    let w = error_word_diagnostic(k, lines[k]);
    if k == lines.len() - 1 {
        assert(error_word() =~= seq!['e', 'r', 'r', 'o', 'r']);
        assert(lines.last().subrange(p, p + 5) == error_word());
        assert(occurs_in(error_word(), lines.last()));
        assert(all[earlier.len() as int] == w);
    } else {
        assert(lines.drop_last()[k] == lines[k]);
        lemma_flag_complete(lines.drop_last(), k, p);
        let j = choose|j: int| 0 <= j < earlier.len() && earlier[j] == w;
        assert(all[j] == w);
    }
}

proof fn lemma_flag_sound(lines: Seq<Seq<char>>, w: DiagnosticView)
    requires
        error_word_diagnostics(lines).contains(w),
    ensures
        exists|k: int, p: int|
            #![trigger error_word_diagnostic(k, lines[k]), lines[k].subrange(p, p + 5)]
            0 <= k < lines.len() && 0 <= p && p + 5 <= lines[k].len() && lines[k].subrange(p, p + 5)
                == seq!['e', 'r', 'r', 'o', 'r'] && w == error_word_diagnostic(k, lines[k]),
    decreases lines.len(),
{
    let earlier = error_word_diagnostics(lines.drop_last());
    let all = error_word_diagnostics(lines);
    let j = choose|j: int| 0 <= j < all.len() && all[j] == w;
    if j < earlier.len() {
        assert(earlier[j] == w);
        lemma_flag_sound(lines.drop_last(), w);
        let (k, p) = choose|k: int, p: int|
            #![trigger error_word_diagnostic(k, lines.drop_last()[k]), lines.drop_last()[k].subrange(p, p + 5)]
            0 <= k < lines.drop_last().len() && 0 <= p && p + 5 <= lines.drop_last()[k].len()
                && lines.drop_last()[k].subrange(p, p + 5) == seq!['e', 'r', 'r', 'o', 'r'] && w
                == error_word_diagnostic(k, lines.drop_last()[k]);
        assert(lines[k] == lines.drop_last()[k]);
    } else {
        let k = lines.len() - 1;
        assert(error_word() =~= seq!['e', 'r', 'r', 'o', 'r']);
        let p = choose|p: int|
            0 <= p && p + error_word().len() <= lines.last().len() && #[trigger] lines.last().subrange(
                p,
                p + error_word().len(),
            ) == error_word();
        assert(lines[k] == lines.last());
        assert(w == error_word_diagnostic(k, lines[k]));
    }
}

/// Every line of a document that holds the word `error`, wherever in the
/// line and whatever else it holds, gets a diagnostic for that line, and
/// every diagnostic is one for such a line.
pub proof fn lines_with_error_are_exactly_flagged(lines: Seq<Seq<char>>)
    ensures
        forall|k: int, p: int|
            0 <= k < lines.len() && 0 <= p && p + 5 <= lines[k].len() && #[trigger] lines[k].subrange(
                p,
                p + 5,
            ) == seq!['e', 'r', 'r', 'o', 'r'] ==> error_word_diagnostics(lines).contains(
                error_word_diagnostic(k, lines[k]),
            ),
        forall|w: DiagnosticView|
            #[trigger] error_word_diagnostics(lines).contains(w) ==> exists|k: int, p: int|
            #![trigger error_word_diagnostic(k, lines[k]), lines[k].subrange(p, p + 5)]
                0 <= k < lines.len() && 0 <= p && p + 5 <= lines[k].len() && lines[k].subrange(
                    p,
                    p + 5,
                ) == seq!['e', 'r', 'r', 'o', 'r'] && w == error_word_diagnostic(
                    k,
                    lines[k],
                ),
{
    assert forall|k: int, p: int|
        0 <= k < lines.len() && 0 <= p && p + 5 <= lines[k].len() && #[trigger] lines[k].subrange(
            p,
            p + 5,
        ) == seq!['e', 'r', 'r', 'o', 'r'] implies error_word_diagnostics(lines).contains(
        error_word_diagnostic(k, lines[k]),
    ) by {
        lemma_flag_complete(lines, k, p);
    }
    assert forall|w: DiagnosticView| #[trigger] error_word_diagnostics(lines).contains(w) implies exists|k: int, p: int|
        #![trigger error_word_diagnostic(k, lines[k]), lines[k].subrange(p, p + 5)]
        0 <= k < lines.len() && 0 <= p && p + 5 <= lines[k].len() && lines[k].subrange(p, p + 5)
            == seq!['e', 'r', 'r', 'o', 'r'] && w == error_word_diagnostic(k, lines[k]) by {
        lemma_flag_sound(lines, w);
    }
}

/// The line `s[from..to]` of a pair of bounds.
pub open spec fn bounded_lines(s: Seq<char>, b: Seq<(usize, usize)>) -> Seq<Seq<char>> {
    b.map_values(|p: (usize, usize)| s.subrange(p.0 as int, p.1 as int))
}

/// Where each line of `s` starts and stops.
fn line_bounds(s: &Vec<char>) -> (r: Vec<(usize, usize)>)
    ensures
        bounded_lines(s@, r@) == document_lines(s@),
        forall|k: int| 0 <= k < r@.len() ==> (#[trigger] r@[k]).0 <= r@[k].1 <= s@.len(),
{
    let mut r: Vec<(usize, usize)> = Vec::new();
    let mut i: usize = 0;
    while i < s.len()
        invariant
            i <= s@.len(),
            bounded_lines(s@, r@) + lines_from(s@, i as int) == document_lines(s@),
            forall|k: int| 0 <= k < r@.len() ==> (#[trigger] r@[k]).0 <= r@[k].1 <= s@.len(),
        decreases s@.len() - i,
    {
        let mut p = i;
        while p < s.len() && s[p] != '\n'
            invariant
                i <= p <= s@.len(),
                newline_pos(s@, i as int) == newline_pos(s@, p as int),
            decreases s@.len() - p,
        {
            p = p + 1;
        }
        let ghost before = r@;
        if p < s.len() {
            let stop = if i < p && s[p - 1] == '\r' {
                p - 1
            } else {
                p
            };
            r.push((i, stop));
            assert(bounded_lines(s@, r@) =~= bounded_lines(s@, before).push(
                s@.subrange(i as int, stop as int),
            ));
            assert(lines_from(s@, i as int) =~= seq![s@.subrange(i as int, stop as int)]
                + lines_from(s@, p + 1));
            assert(bounded_lines(s@, r@) + lines_from(s@, p + 1) =~= bounded_lines(s@, before)
                + lines_from(s@, i as int));
            i = p + 1;
        } else {
            r.push((i, p));
            assert(bounded_lines(s@, r@) =~= bounded_lines(s@, before).push(
                s@.subrange(i as int, p as int),
            ));
            assert(lines_from(s@, i as int) =~= seq![s@.subrange(i as int, p as int)]);
            assert(lines_from(s@, p as int) =~= Seq::<Seq<char>>::empty());
            assert(bounded_lines(s@, r@) + lines_from(s@, p as int) =~= bounded_lines(s@, before)
                + lines_from(s@, i as int));
            i = p;
        }
    }
    assert(lines_from(s@, i as int) =~= Seq::<Seq<char>>::empty());
    assert(bounded_lines(s@, r@) =~= bounded_lines(s@, r@) + lines_from(s@, i as int));
    r
}

/// Flags every line of `text` that holds the word `error`, with one error
/// diagnostic per such line, in document order. A line is counted as
/// `str::lines` counts them; the range covers the line's bytes.
pub fn check(text: &str) -> (r: Vec<Diagnostic>)
    ensures
        diagnostics_view(r@) == error_word_diagnostics(document_lines(text@)),
{
    let s = str_chars(text);
    let bounds = line_bounds(&s);
    let word = ['e', 'r', 'r', 'o', 'r'];
    assert(word@ =~= error_word());
    let mut r: Vec<Diagnostic> = Vec::new();
    let mut k: usize = 0;
    while k < bounds.len()
        invariant
            k <= bounds@.len(),
            s@ == text@,
            word@ == error_word(),
            bounded_lines(s@, bounds@) == document_lines(s@),
            forall|m: int| 0 <= m < bounds@.len() ==> (#[trigger] bounds@[m]).0 <= bounds@[m].1 <= s@.len(),
            diagnostics_view(r@) == error_word_diagnostics(bounded_lines(s@, bounds@).take(k as int)),
        decreases bounds@.len() - k,
    {
        let (from, to) = bounds[k];
        let ghost lines = bounded_lines(s@, bounds@);
        assert(lines.take(k + 1).drop_last() =~= lines.take(k as int));
        assert(lines.take(k + 1).last() == s@.subrange(from as int, to as int));
        if occurs_between(&s, from, to, &word) {
            let line_no: u32 = (k as u64 % 0x1_0000_0000) as u32;
            let width = utf8_len_u32(&s, from, to);
            let d = Diagnostic {
                range: Range { start: Position::new(line_no, 0), end: Position::new(line_no, width) },
                severity: Some(DiagnosticSeverity::Error),
                message: "Sluta the word 'error'".to_owned(),
            };
            assert(line_no == ((k as int) % 0x1_0000_0000) as u32);
            let ghost before = r@;
            r.push(d);
            assert(diagnostics_view(r@) =~= diagnostics_view(before).push(d@));
        }
        k = k + 1;
    }
    assert(bounded_lines(s@, bounds@).take(k as int) =~= bounded_lines(s@, bounds@));
    r
}

/// A completion that the server offers: the text to insert and a note.
#[derive(Debug, Clone, PartialEq)]
pub struct CompletionEntry {
    pub label: String,
    pub detail: String,
}

/// The completions offered anywhere in a document: `bindsym`, `set` and
/// `exec`, in that order.
pub fn completion_entries() -> (r: Vec<CompletionEntry>)
    ensures
        r@.len() == 3,
        r@[0].label@ == "bindsym"@ && r@[0].detail@ == "Bind a key"@,
        r@[1].label@ == "set"@ && r@[1].detail@ == "Set variable"@,
        r@[2].label@ == "exec"@ && r@[2].detail@ == "Execute command"@,
{
    let mut r = Vec::new();
    r.push(CompletionEntry { label: "bindsym".to_owned(), detail: "Bind a key".to_owned() });
    r.push(CompletionEntry { label: "set".to_owned(), detail: "Set variable".to_owned() });
    r.push(CompletionEntry { label: "exec".to_owned(), detail: "Execute command".to_owned() });
    r
}

} // verus!
