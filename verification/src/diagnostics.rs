//! Checks on a parsed configuration: key bindings bound more than once, and
//! key bindings that use variables that no line of the configuration sets.

use vstd::prelude::*;

use crate::report::{
    diagnostics_view, line_diagnostic, Diagnostic, DiagnosticSeverity, DiagnosticView, Position,
    Range,
};
use crate::text::{
    decimal, join, join_strings, push_decimal, str_chars, string_of, utf8_len, utf8_len_u32,
};
use crate::{
    line_span, lines_span, lines_view_is_each_view, texts_view, ConfigLine, I3Configuration,
    SpecConfigLine,
};

verus! {

/// How many lines of the document a configuration line takes (see
/// `line_span`): a mode block two more than the lines inside it, any other
/// line one.
pub fn line_count(line: &ConfigLine) -> (r: usize)
    requires
        line_span(line@) <= usize::MAX,
    ensures
        r == line_span(line@),
    decreases line,
{
    match line {
        ConfigLine::Mode(c) => {
            let ghost inner = c@;
            proof {
                lines_view_is_each_view(c.lines@);
            }
            let mut total: usize = 0;
            let mut k: usize = 0;
            while k < c.lines.len()
                invariant
                    k <= c.lines@.len(),
                    inner == c@,
                    *line == ConfigLine::Mode(*c),
                    line@ == SpecConfigLine::Mode(inner),
                    lines_span(inner) + 2 <= usize::MAX,
                    total == lines_span(inner.take(k as int)),
                decreases c.lines@.len() - k,
            {
                proof {
                    lemma_lines_span_prefix(inner, k + 1);
                    assert(inner.take(k + 1).subrange(0, k as int) =~= inner.take(k as int));
                    assert(inner.take(k + 1)[k as int] == c.lines@[k as int]@);
                    assert(decreases_to!(*line => line->Mode_0));
                    assert(decreases_to!(c => c.lines));
                    assert(decreases_to!(c.lines => c.lines@));
                    assert(decreases_to!(c.lines@ => c.lines@[k as int]));
                }
                let n = line_count(&c.lines[k]);
                total = total + n;
                k = k + 1;
            }
            assert(inner.take(k as int) =~= inner);
            total + 2
        },
        _ => 1,
    }
}

/// The span of a prefix of a list of lines is at most that of the list.
proof fn lemma_lines_span_prefix(ls: Seq<SpecConfigLine>, k: int)
    requires
        0 <= k <= ls.len(),
    ensures
        lines_span(ls.take(k)) <= lines_span(ls),
    decreases ls.len() - k,
{
    if k < ls.len() {
        lemma_lines_span_prefix(ls, k + 1);
        assert(ls.take(k + 1).subrange(0, k) =~= ls.take(k));
    } else {
        assert(ls.take(k) =~= ls);
    }
}

/// The name of a binding within a scope: `SCOPE:MODIFIERS+KEY`, the
/// modifiers joined with `+`.
pub open spec fn binding_label(scope: Seq<char>, modifiers: Seq<Seq<char>>, key: Seq<char>) -> Seq<
    char,
> {
    scope + ":"@ + join(modifiers, "+"@) + "+"@ + key
}

/// The bindings of `lines`, each as its name within `scope` and the number of
/// its line in the document, the first of `lines` standing on line `offset`
/// and each taking its span of lines. The bindings inside a mode block are
/// named within the scope `mode:SCOPE`, and its lines start one below the
/// block's first line.
pub open spec fn scoped_bindings(lines: Seq<SpecConfigLine>, offset: int, scope: Seq<char>) -> Seq<
    (Seq<char>, int),
>
    decreases lines,
{
    if lines.len() == 0 {
        Seq::empty()
    } else {
        let init = lines.subrange(0, lines.len() - 1);
        let earlier = scoped_bindings(init, offset, scope);
        let at = offset + lines_span(init);
        match lines[lines.len() - 1] {
            SpecConfigLine::Binding { modifiers, key, .. } => earlier.push(
                (binding_label(scope, modifiers, key), at),
            ),
            SpecConfigLine::Mode(inner) => earlier + scoped_bindings(inner, at + 1, "mode:"@ + scope),
            _ => earlier,
        }
    }
}

/// The values of a list of named lines.
pub open spec fn pairs_view(v: Seq<(String, usize)>) -> Seq<(Seq<char>, int)> {
    v.map_values(|p: (String, usize)| (p.0@, p.1 as int))
}

/// The line of the first of `b` named `name`, if there is one.
pub open spec fn first_line_of(b: Seq<(Seq<char>, int)>, name: Seq<char>) -> Option<int>
    decreases b.len(),
{
    if b.len() == 0 {
        None
    } else {
        match first_line_of(b.drop_last(), name) {
            Some(l) => Some(l),
            None => if b.last().0 == name {
                Some(b.last().1)
            } else {
                None
            },
        }
    }
}

/// The error for a binding named and placed as `entry` whose name was first
/// bound on line `first` (counted from zero; the message counts from one).
pub open spec fn repeated_binding_error(entry: (Seq<char>, int), first: int) -> DiagnosticView {
    line_diagnostic(
        (entry.1 % 0x1_0000_0000) as u32,
        0,
        (utf8_len(entry.0) % 0x1_0000_0000) as u32,
        DiagnosticSeverity::Error,
        "Duplicate key binding: '"@ + entry.0 + "' (first seen on line "@ + decimal(
            (first + 1) as nat,
        ) + ")"@,
    )
}

/// One error for each binding of `b` whose name an earlier binding has, in
/// order, pointing at the first binding of that name.
pub open spec fn repeated_binding_errors(b: Seq<(Seq<char>, int)>) -> Seq<DiagnosticView>
    decreases b.len(),
{
    if b.len() == 0 {
        Seq::empty()
    } else {
        let earlier = repeated_binding_errors(b.drop_last());
        match first_line_of(b.drop_last(), b.last().0) {
            Some(f) => earlier.push(repeated_binding_error(b.last(), f)),
            None => earlier,
        }
    }
}

/// Appends to `out` each binding of `lines` with its name within `scope`
/// and its line number, the first of `lines` being line `offset`; the
/// bindings inside a mode block are named within `mode:SCOPE`, its lines
/// counted from one below the block's first line.
pub fn collect_bindings_with_offset(
    lines: &[ConfigLine],
    offset: usize,
    scope: &str,
    out: &mut Vec<(String, usize)>,
)
    requires
        offset + lines_span(lines@.map_values(|l: ConfigLine| l@)) <= usize::MAX,
    ensures
        pairs_view(final(out)@) == pairs_view(old(out)@) + scoped_bindings(
            lines@.map_values(|l: ConfigLine| l@),
            offset as int,
            scope@,
        ),
    decreases lines@,
{
    let ghost view = lines@.map_values(|l: ConfigLine| l@);
    let ghost start = out@;
    let mut current_line = offset;
    let mut k: usize = 0;
    while k < lines.len()
        invariant
            k <= lines@.len(),
            offset + lines_span(view) <= usize::MAX,
            current_line == offset + lines_span(view.take(k as int)),
            view == lines@.map_values(|l: ConfigLine| l@),
            pairs_view(out@) == pairs_view(start) + scoped_bindings(
                view.take(k as int),
                offset as int,
                scope@,
            ),
        decreases lines@.len() - k,
    {
        let ghost before = out@;
        let ghost init = view.take(k as int);
        proof {
            lemma_lines_span_prefix(view, k + 1);
            assert(view.take(k + 1).subrange(0, k as int) =~= init);
            assert(view.take(k + 1)[k as int] == lines@[k as int]@);
            assert(lines_span(view.take(k + 1)) == lines_span(init) + line_span(lines@[k as int]@));
            assert(scoped_bindings(view.take(k + 1), offset as int, scope@) == {
                let earlier = scoped_bindings(init, offset as int, scope@);
                match lines@[k as int]@ {
                    SpecConfigLine::Binding { modifiers, key, .. } => earlier.push(
                        (binding_label(scope@, modifiers, key), current_line as int),
                    ),
                    SpecConfigLine::Mode(inner) => earlier + scoped_bindings(
                        inner,
                        current_line + 1,
                        "mode:"@ + scope@,
                    ),
                    _ => earlier,
                }
            });
        }
        let line = &lines[k];
        match line {
            ConfigLine::Binding { modifiers, key, .. } => {
                let mut name = scope.to_owned();
                name.append(":");
                let joined = join_strings(modifiers, "+");
                name.append(joined.as_str());
                name.append("+");
                name.append(key.as_str());
                out.push((name, current_line));
                assert(pairs_view(out@) =~= pairs_view(before).push((name@, current_line as int)));
            },
            ConfigLine::Mode(c) => {
                let mut inner_scope = "mode:".to_owned();
                inner_scope.append(scope);
                proof {
                    lines_view_is_each_view(c.lines@);
                    assert(c.lines@.map_values(|l: ConfigLine| l@) == c@);
                    assert(lines@[k as int]@ == SpecConfigLine::Mode(c@));
                    assert(decreases_to!(lines@ => lines@[k as int]));
                    assert(decreases_to!(lines@[k as int] => lines@[k as int]->Mode_0));
                    assert(decreases_to!(c => c.lines));
                    assert(decreases_to!(c.lines => c.lines@));
                }
                collect_bindings_with_offset(c.lines.as_slice(), current_line + 1, inner_scope.as_str(), out);
                assert(pairs_view(out@) =~= pairs_view(before) + scoped_bindings(
                    c@,
                    current_line + 1,
                    inner_scope@,
                ));
            },
            _ => {},
        }
        current_line = current_line + line_count(line);
        k = k + 1;
    }
    assert(view.take(k as int) =~= view);
}

/// Every binding of `lines` stands on one of the lines that `lines` spans.
proof fn lemma_scoped_lines(lines: Seq<SpecConfigLine>, offset: int, scope: Seq<char>)
    ensures
        forall|m: int|
            0 <= m < scoped_bindings(lines, offset, scope).len() ==> offset <= #[trigger] scoped_bindings(
                lines,
                offset,
                scope,
            )[m].1 < offset + lines_span(lines),
    decreases lines,
{
    if lines.len() > 0 {
        let init = lines.subrange(0, lines.len() - 1);
        lemma_scoped_lines(init, offset, scope);
        let earlier = scoped_bindings(init, offset, scope);
        let all = scoped_bindings(lines, offset, scope);
        let at = offset + lines_span(init);
        assert(lines_span(lines) == lines_span(init) + line_span(lines[lines.len() - 1]));
        match lines[lines.len() - 1] {
            SpecConfigLine::Mode(inner) => {
                assert(decreases_to!(lines => lines[lines.len() - 1]));
                lemma_scoped_lines(inner, at + 1, "mode:"@ + scope);
                let more = scoped_bindings(inner, at + 1, "mode:"@ + scope);
                assert forall|m: int| 0 <= m < all.len() implies offset <= #[trigger] all[m].1
                    < offset + lines_span(lines) by {
                    if m < earlier.len() {
                        assert(all[m] == earlier[m]);
                    } else {
                        assert(all[m] == more[m - earlier.len()]);
                    }
                }
            },
            _ => {
                assert forall|m: int| 0 <= m < all.len() implies offset <= #[trigger] all[m].1
                    < offset + lines_span(lines) by {
                    if m < earlier.len() {
                        assert(all[m] == earlier[m]);
                    }
                }
            },
        }
    }
}

/// Every binding is named within its scope: its name starts with `SCOPE:`
/// when it stands directly among `lines`, and with `mode:` when it stands
/// inside a mode block, at any depth.
pub proof fn bindings_are_named_within_their_scope(
    lines: Seq<SpecConfigLine>,
    offset: int,
    scope: Seq<char>,
)
    ensures
        forall|k: int|
            0 <= k < scoped_bindings(lines, offset, scope).len() ==> (scope + ":"@).is_prefix_of(
                #[trigger] scoped_bindings(lines, offset, scope)[k].0,
            ) || "mode:"@.is_prefix_of(scoped_bindings(lines, offset, scope)[k].0),
    decreases lines,
{
    reveal_strlit("mode:");
    reveal_strlit(":");
    if lines.len() > 0 {
        let init = lines.subrange(0, lines.len() - 1);
        bindings_are_named_within_their_scope(init, offset, scope);
        let earlier = scoped_bindings(init, offset, scope);
        let all = scoped_bindings(lines, offset, scope);
        let at = offset + lines_span(init);
        let head = scope + ":"@;
        match lines[lines.len() - 1] {
            SpecConfigLine::Binding { modifiers, key, .. } => {
                assert forall|k: int| 0 <= k < all.len() implies head.is_prefix_of(#[trigger] all[k].0)
                    || "mode:"@.is_prefix_of(all[k].0) by {
                    if k < earlier.len() {
                        assert(all[k] == earlier[k]);
                    } else {
                        let name = binding_label(scope, modifiers, key);
                        assert(all[k].0 == name);
                        assert(name.subrange(0, head.len() as int) =~= head);
                    }
                }
            },
            SpecConfigLine::Mode(inner) => {
                assert(decreases_to!(lines => lines[lines.len() - 1]));
                let inner_scope = "mode:"@ + scope;
                bindings_are_named_within_their_scope(inner, at + 1, inner_scope);
                let more = scoped_bindings(inner, at + 1, inner_scope);
                assert forall|k: int| 0 <= k < all.len() implies head.is_prefix_of(#[trigger] all[k].0)
                    || "mode:"@.is_prefix_of(all[k].0) by {
                    if k < earlier.len() {
                        assert(all[k] == earlier[k]);
                    } else {
                        let name = more[k - earlier.len()].0;
                        assert(all[k].0 == name);
                        if (inner_scope + ":"@).is_prefix_of(name) {
                            assert(name.subrange(0, 5) =~= (inner_scope + ":"@).subrange(0, 5));
                            assert((inner_scope + ":"@).subrange(0, 5) =~= "mode:"@);
                        }
                    }
                }
            },
            _ => {
                assert forall|k: int| 0 <= k < all.len() implies head.is_prefix_of(#[trigger] all[k].0)
                    || "mode:"@.is_prefix_of(all[k].0) by {
                    assert(all[k] == earlier[k]);
                }
            },
        }
    }
}

/// Once some entry of a prefix of `b` is named `name`, the rest of `b` does
/// not change the first line of that name.
proof fn lemma_first_line_stays(b: Seq<(Seq<char>, int)>, n: int, name: Seq<char>)
    requires
        0 <= n <= b.len(),
        first_line_of(b.take(n), name) is Some,
    ensures
        first_line_of(b, name) == first_line_of(b.take(n), name),
    decreases b.len() - n,
{
    if n < b.len() {
        assert(b.take(n + 1).drop_last() =~= b.take(n));
        lemma_first_line_stays(b, n + 1, name);
    } else {
        assert(b.take(n) =~= b);
    }
}

/// The line of the first entry of `seen` named `name`.
fn find_first(seen: &Vec<(String, usize)>, name: &String) -> (r: Option<usize>)
    ensures
        match r {
            Some(l) => first_line_of(pairs_view(seen@), name@) == Some(l as int),
            None => first_line_of(pairs_view(seen@), name@) is None,
        },
        r matches Some(l) ==> exists|k: int| 0 <= k < seen@.len() && #[trigger] seen@[k].1 == l,
{
    let ghost v = pairs_view(seen@);
    let mut k: usize = 0;
    while k < seen.len()
        invariant
            k <= seen@.len(),
            v == pairs_view(seen@),
            first_line_of(v.take(k as int), name@) is None,
        decreases seen@.len() - k,
    {
        assert(v.take(k + 1).drop_last() =~= v.take(k as int));
        if seen[k].0 == *name {
            proof {
                lemma_first_line_stays(v, k + 1, name@);
            }
            return Some(seen[k].1);
        }
        k = k + 1;
    }
    assert(v.take(k as int) =~= v);
    None
}

/// Reports each key binding whose name (its modifiers and key, within its
/// scope) an earlier binding already has: one error per repeat, in document
/// order, on the repeat's line, naming the line (counted from one) of the
/// first binding of that name. The bindings of the configuration are in the
/// scope `global`, those inside a mode block in `mode:` and the scope of the
/// block, so a binding inside a mode block does not clash with the same
/// keys outside it.
pub fn check_for_duplicate_bindings(cfg: &I3Configuration) -> (r: Vec<Diagnostic>)
    requires
        lines_span(cfg@) <= usize::MAX,
    ensures
        diagnostics_view(r@) == repeated_binding_errors(scoped_bindings(cfg@, 0, "global"@)),
{
    let mut all_bindings: Vec<(String, usize)> = Vec::new();
    let ghost empty = all_bindings@;
    let lines = cfg.lines.as_slice();
    collect_bindings_with_offset(lines, 0, "global", &mut all_bindings);
    assert(pairs_view(empty) =~= Seq::<(Seq<char>, int)>::empty());
    assert(lines@.map_values(|l: ConfigLine| l@) =~= cfg@);
    let ghost b = pairs_view(all_bindings@);
    assert(b =~= scoped_bindings(cfg@, 0, "global"@));
    proof {
        lemma_scoped_lines(cfg@, 0, "global"@);
    }
    let mut seen: Vec<(String, usize)> = Vec::new();
    let mut diagnostics: Vec<Diagnostic> = Vec::new();
    let mut j: usize = 0;
    while j < all_bindings.len()
        invariant
            j <= all_bindings@.len(),
            b == pairs_view(all_bindings@),
            lines_span(cfg@) <= usize::MAX,
            forall|m: int| 0 <= m < b.len() ==> 0 <= #[trigger] b[m].1 < lines_span(cfg@),
            forall|name: Seq<char>| #[trigger] first_line_of(pairs_view(seen@), name) == first_line_of(b.take(j as int), name),
            forall|m: int| 0 <= m < seen@.len() ==> #[trigger] seen@[m].1 < lines_span(cfg@),
            diagnostics_view(diagnostics@) == repeated_binding_errors(b.take(j as int)),
        decreases all_bindings@.len() - j,
    {
        let (binding_key, line_num) = (&all_bindings[j].0, all_bindings[j].1);
        assert(b.take(j + 1).drop_last() =~= b.take(j as int));
        assert(b.take(j + 1).last() == b[j as int]);
        match find_first(&seen, binding_key) {
            Some(first_line) => {
                let width = {
                    let cs = str_chars(binding_key.as_str());
                    let w = utf8_len_u32(&cs, 0, cs.len());
                    assert(cs@.subrange(0, cs@.len() as int) =~= cs@);
                    w
                };
                let l: u32 = (line_num as u64 % 0x1_0000_0000) as u32;
                let mut message = "Duplicate key binding: '".to_owned();
                message.append(binding_key.as_str());
                message.append("' (first seen on line ");
                push_decimal(&mut message, first_line + 1);
                message.append(")");
                let d = Diagnostic {
                    range: Range { start: Position::new(l, 0), end: Position::new(l, width) },
                    severity: Some(DiagnosticSeverity::Error),
                    message,
                };
                let ghost before = diagnostics@;
                diagnostics.push(d);
                assert(diagnostics_view(diagnostics@) =~= diagnostics_view(before).push(d@));
                assert(d@ == repeated_binding_error(b[j as int], first_line as int));
                proof {
                    assert forall|name: Seq<char>| #[trigger] first_line_of(pairs_view(seen@), name)
                        == first_line_of(b.take(j + 1), name) by {
                        assert(first_line_of(pairs_view(seen@), name) == first_line_of(
                            b.take(j as int),
                            name,
                        ));
                        assert(first_line_of(pairs_view(seen@), b[j as int].0) == first_line_of(
                            b.take(j as int),
                            b[j as int].0,
                        ));
                    }
                }
            },
            None => {
                let ghost before = seen@;
                seen.push((binding_key.clone(), line_num));
                assert(pairs_view(seen@) =~= pairs_view(before).push(b[j as int]));
                assert(pairs_view(seen@).drop_last() =~= pairs_view(before));
                assert forall|name: Seq<char>| #[trigger] first_line_of(pairs_view(seen@), name)
                    == first_line_of(b.take(j + 1), name) by {
                    assert(first_line_of(pairs_view(before), name) == first_line_of(
                        b.take(j as int),
                        name,
                    ));
                    assert(first_line_of(pairs_view(before), b[j as int].0) == first_line_of(
                        b.take(j as int),
                        b[j as int].0,
                    ));
                }
            },
        }
        j = j + 1;
    }
    assert(b.take(j as int) =~= b);
    diagnostics
}

/// Whether `l` sets the variable `name`.
pub open spec fn sets_variable(l: SpecConfigLine, name: Seq<char>) -> bool {
    match l {
        SpecConfigLine::SetVar { name: n, .. } => n == name,
        _ => false,
    }
}

/// Whether some line of `lines` sets the variable `name`.
pub open spec fn declares(lines: Seq<SpecConfigLine>, name: Seq<char>) -> bool {
    exists|k: int| 0 <= k < lines.len() && sets_variable(#[trigger] lines[k], name)
}

/// Whether `t` starts with `$`.
pub open spec fn is_reference(t: Seq<char>) -> bool {
    t.len() > 0 && t[0] == '$'
}

/// The variables that the modifiers refer to, in order: each modifier that
/// starts with `$`, without the `$`.
pub open spec fn modifier_variables(ms: Seq<Seq<char>>) -> Seq<Seq<char>>
    decreases ms.len(),
{
    if ms.len() == 0 {
        Seq::empty()
    } else {
        let earlier = modifier_variables(ms.drop_last());
        if is_reference(ms.last()) {
            earlier.push(ms.last().drop_first())
        } else {
            earlier
        }
    }
}

/// The variables that a binding refers to: those of its modifiers, then its
/// key's if the key starts with `$`.
pub open spec fn binding_variables(modifiers: Seq<Seq<char>>, key: Seq<char>) -> Seq<Seq<char>> {
    let vs = modifier_variables(modifiers);
    if is_reference(key) {
        vs.push(key.drop_first())
    } else {
        vs
    }
}

/// A binding written as `MODIFIERS+KEY COMMAND`, the modifiers joined with `+`.
pub open spec fn binding_text(modifiers: Seq<Seq<char>>, key: Seq<char>, command: Seq<char>) -> Seq<
    char,
> {
    join(modifiers, "+"@) + "+"@ + key + " "@ + command
}

/// The error for a variable `name` that is used on line `n` but never set;
/// it spans `width` bytes of the line.
pub open spec fn unknown_variable(n: int, width: nat, name: Seq<char>) -> DiagnosticView {
    line_diagnostic(
        (n % 0x1_0000_0000) as u32,
        0,
        (width % 0x1_0000_0000) as u32,
        DiagnosticSeverity::Error,
        "Unknown variable '"@ + name + "'"@,
    )
}

/// One error for each of `names` that `decls` does not set, in order.
pub open spec fn unknown_variables(
    decls: Seq<SpecConfigLine>,
    names: Seq<Seq<char>>,
    n: int,
    width: nat,
) -> Seq<DiagnosticView>
    decreases names.len(),
{
    if names.len() == 0 {
        Seq::empty()
    } else {
        let earlier = unknown_variables(decls, names.drop_last(), n, width);
        if declares(decls, names.last()) {
            earlier
        } else {
            earlier.push(unknown_variable(n, width, names.last()))
        }
    }
}

/// The errors for `lines`, line by line: for each binding, one error for
/// each variable it refers to that no line of `decls` sets.
pub open spec fn variable_errors(decls: Seq<SpecConfigLine>, lines: Seq<SpecConfigLine>) -> Seq<
    DiagnosticView,
>
    decreases lines.len(),
{
    if lines.len() == 0 {
        Seq::empty()
    } else {
        let earlier = variable_errors(decls, lines.drop_last());
        match lines.last() {
            SpecConfigLine::Binding { modifiers, key, command } => earlier + unknown_variables(
                decls,
                binding_variables(modifiers, key),
                lines.len() - 1,
                utf8_len(binding_text(modifiers, key, command)),
            ),
            _ => earlier,
        }
    }
}

/// Whether some line of `lines` sets the variable `name`.
fn declared_in(lines: &Vec<ConfigLine>, name: &String) -> (r: bool)
    ensures
        r == declares(lines@.map_values(|l: ConfigLine| l@), name@),
{
    let ghost view = lines@.map_values(|l: ConfigLine| l@);
    let mut k: usize = 0;
    while k < lines.len()
        invariant
            k <= lines@.len(),
            view == lines@.map_values(|l: ConfigLine| l@),
            forall|j: int| 0 <= j < k ==> !sets_variable(#[trigger] view[j], name@),
        decreases lines@.len() - k,
    {
        match &lines[k] {
            ConfigLine::SetVar { name: n, .. } => {
                if *n == *name {
                    assert(sets_variable(view[k as int], name@));
                    return true;
                }
            },
            _ => {},
        }
        k = k + 1;
    }
    false
}

/// The text of `t` after its first character.
fn after_first(t: &String) -> (r: String)
    requires
        t@.len() > 0,
    ensures
        r@ == t@.drop_first(),
{
    let cs = str_chars(t.as_str());
    let r = string_of(&cs, 1, cs.len());
    assert(r@ =~= t@.drop_first());
    r
}

/// Whether `t` starts with `$`.
fn starts_with_dollar(t: &String) -> (r: bool)
    ensures
        r == is_reference(t@),
{
    let cs = str_chars(t.as_str());
    cs.len() > 0 && cs[0] == '$'
}

/// The variables that a binding refers to.
fn binding_vars(modifiers: &Vec<String>, key: &String) -> (r: Vec<String>)
    ensures
        texts_view(r@) == binding_variables(texts_view(modifiers@), key@),
{
    let mut r: Vec<String> = Vec::new();
    let mut k: usize = 0;
    while k < modifiers.len()
        invariant
            k <= modifiers@.len(),
            texts_view(r@) == modifier_variables(texts_view(modifiers@.take(k as int))),
        decreases modifiers@.len() - k,
    {
        let ghost before = r@;
        let ghost ms = texts_view(modifiers@.take(k + 1));
        assert(ms.drop_last() =~= texts_view(modifiers@.take(k as int)));
        assert(ms.last() == modifiers@[k as int]@);
        if starts_with_dollar(&modifiers[k]) {
            let v = after_first(&modifiers[k]);
            r.push(v);
            assert(texts_view(r@) =~= texts_view(before).push(v@));
        }
        k = k + 1;
    }
    assert(modifiers@.take(k as int) =~= modifiers@);
    if starts_with_dollar(key) {
        let v = after_first(key);
        let ghost before = r@;
        r.push(v);
        assert(texts_view(r@) =~= texts_view(before).push(v@));
    }
    r
}

/// The binding written as `MODIFIERS+KEY COMMAND`.
fn binding_string(modifiers: &Vec<String>, key: &String, command: &String) -> (r: String)
    ensures
        r@ == binding_text(texts_view(modifiers@), key@, command@),
{
    let mut r = join_strings(modifiers, "+");
    r.append("+");
    r.append(key.as_str());
    r.append(" ");
    r.append(command.as_str());
    r
}

/// Reports each use of a variable in a key binding (a modifier or key that
/// starts with `$`) that no `set` line of the configuration defines: one
/// error per use, in document order, spanning the binding's text, on the
/// binding's place among the configuration's lines. Only the lines of the
/// configuration itself count: the bindings and `set` lines inside a mode
/// block are passed over.
pub fn check_variables(cfg: &I3Configuration) -> (r: Vec<Diagnostic>)
    ensures
        diagnostics_view(r@) == variable_errors(cfg@, cfg@),
{
    let ghost decls = cfg@;
    let mut r: Vec<Diagnostic> = Vec::new();
    let mut n: usize = 0;
    while n < cfg.lines.len()
        invariant
            n <= cfg.lines@.len(),
            decls == cfg@,
            diagnostics_view(r@) == variable_errors(decls, decls.take(n as int)),
        decreases cfg.lines@.len() - n,
    {
        let ghost done = r@;
        assert(decls.take(n + 1).drop_last() =~= decls.take(n as int));
        assert(decls.take(n + 1).last() == cfg.lines@[n as int]@);
        match &cfg.lines[n] {
            ConfigLine::Binding { modifiers, key, command } => {
                let vars = binding_vars(modifiers, key);
                let text = binding_string(modifiers, key, command);
                let tc = str_chars(text.as_str());
                let width = utf8_len_u32(&tc, 0, tc.len());
                assert(tc@.subrange(0, tc@.len() as int) =~= tc@);
                let line_no: u32 = (n as u64 % 0x1_0000_0000) as u32;
                let ghost names = texts_view(vars@);
                let ghost w = utf8_len(tc@);
                let mut m: usize = 0;
                while m < vars.len()
                    invariant
                        m <= vars@.len(),
                        names == texts_view(vars@),
                        decls == cfg@,
                        line_no == (n as int % 0x1_0000_0000) as u32,
                        width == (w % 0x1_0000_0000) as u32,
                        diagnostics_view(r@) == diagnostics_view(done) + unknown_variables(
                            decls,
                            names.take(m as int),
                            n as int,
                            w,
                        ),
                    decreases vars@.len() - m,
                {
                    assert(names.take(m + 1).drop_last() =~= names.take(m as int));
                    assert(names.take(m + 1).last() == vars@[m as int]@);
                    if !declared_in(&cfg.lines, &vars[m]) {
                        let mut message = "Unknown variable '".to_owned();
                        message.append(vars[m].as_str());
                        message.append("'");
                        let d = Diagnostic {
                            range: Range {
                                start: Position::new(line_no, 0),
                                end: Position::new(line_no, width),
                            },
                            severity: Some(DiagnosticSeverity::Error),
                            message,
                        };
                        let ghost before = r@;
                        r.push(d);
                        assert(diagnostics_view(r@) =~= diagnostics_view(before).push(d@));
                        assert(d@ == unknown_variable(n as int, w, vars@[m as int]@));
                    }
                    m = m + 1;
                }
                assert(names.take(m as int) =~= names);
            },
            _ => {
                assert(diagnostics_view(r@) =~= diagnostics_view(done));
            },
        }
        n = n + 1;
    }
    assert(decls.take(n as int) =~= decls);
    r
}

/// The variables that line `l` refers to: those of a binding; none otherwise.
pub open spec fn line_variables(l: SpecConfigLine) -> Seq<Seq<char>> {
    match l {
        SpecConfigLine::Binding { modifiers, key, .. } => binding_variables(modifiers, key),
        _ => Seq::empty(),
    }
}

/// How many bytes the written-out binding on line `l` takes (none for other lines).
pub open spec fn line_width(l: SpecConfigLine) -> nat {
    match l {
        SpecConfigLine::Binding { modifiers, key, command } => utf8_len(
            binding_text(modifiers, key, command),
        ),
        _ => 0,
    }
}

/// Line `n` of `lines` refers to the variable `v`, which no line of `decls` sets.
pub open spec fn unset_use(
    decls: Seq<SpecConfigLine>,
    lines: Seq<SpecConfigLine>,
    n: int,
    v: Seq<char>,
) -> bool {
    &&& 0 <= n < lines.len()
    &&& line_variables(lines[n]).contains(v)
    &&& !declares(decls, v)
}

proof fn lemma_unknown_listed(
    decls: Seq<SpecConfigLine>,
    names: Seq<Seq<char>>,
    n: int,
    width: nat,
    v: Seq<char>,
)
    requires
        names.contains(v),
        !declares(decls, v),
    ensures
        unknown_variables(decls, names, n, width).contains(unknown_variable(n, width, v)),
    decreases names.len(),
{
    let earlier = unknown_variables(decls, names.drop_last(), n, width);
    let w = unknown_variable(n, width, v);
    if names.last() == v {
        assert(unknown_variables(decls, names, n, width)[earlier.len() as int] == w);
    } else {
        let m = choose|m: int| 0 <= m < names.len() && names[m] == v;
        assert(names.drop_last()[m] == v);
        lemma_unknown_listed(decls, names.drop_last(), n, width, v);
        let j = choose|j: int| 0 <= j < earlier.len() && earlier[j] == w;
        assert(unknown_variables(decls, names, n, width)[j] == w);
    }
}

proof fn lemma_unknown_from_name(
    decls: Seq<SpecConfigLine>,
    names: Seq<Seq<char>>,
    n: int,
    width: nat,
    w: DiagnosticView,
)
    requires
        unknown_variables(decls, names, n, width).contains(w),
    ensures
        exists|v: Seq<char>|
            names.contains(v) && !declares(decls, v) && w == #[trigger] unknown_variable(n, width, v),
    decreases names.len(),
{
    if names.len() > 0 {
        let earlier = unknown_variables(decls, names.drop_last(), n, width);
        let v = names.last();
        assert(names[names.len() - 1] == v);
        if earlier.contains(w) {
            lemma_unknown_from_name(decls, names.drop_last(), n, width, w);
            let u = choose|u: Seq<char>|
                names.drop_last().contains(u) && !declares(decls, u) && w == #[trigger] unknown_variable(
                    n,
                    width,
                    u,
                );
            let m = choose|m: int| 0 <= m < names.drop_last().len() && names.drop_last()[m] == u;
            assert(names[m] == u);
        } else {
            assert(!declares(decls, v));
            assert(w == unknown_variable(n, width, v));
        }
    }
}

proof fn lemma_errors_complete(
    decls: Seq<SpecConfigLine>,
    lines: Seq<SpecConfigLine>,
    n: int,
    v: Seq<char>,
)
    requires
        unset_use(decls, lines, n, v),
    ensures
        variable_errors(decls, lines).contains(unknown_variable(n, line_width(lines[n]), v)),
    decreases lines.len(),
{
    let w = unknown_variable(n, line_width(lines[n]), v);
    let earlier = variable_errors(decls, lines.drop_last());
    if n < lines.len() - 1 {
        assert(lines.drop_last()[n] == lines[n]);
        lemma_errors_complete(decls, lines.drop_last(), n, v);
        let j = choose|j: int| 0 <= j < earlier.len() && earlier[j] == w;
        assert(variable_errors(decls, lines)[j] == w);
    } else {
        match lines.last() {
            SpecConfigLine::Binding { modifiers, key, command } => {
                let names = binding_variables(modifiers, key);
                let width = utf8_len(binding_text(modifiers, key, command));
                lemma_unknown_listed(decls, names, n, width, v);
                let tail = unknown_variables(decls, names, n, width);
                let j = choose|j: int| 0 <= j < tail.len() && tail[j] == w;
                assert(variable_errors(decls, lines)[earlier.len() + j] == w);
            },
            _ => {},
        }
    }
}

proof fn lemma_errors_sound(
    decls: Seq<SpecConfigLine>,
    lines: Seq<SpecConfigLine>,
    w: DiagnosticView,
)
    requires
        variable_errors(decls, lines).contains(w),
    ensures
        exists|n: int, v: Seq<char>|
            unset_use(decls, lines, n, v) && w == #[trigger] unknown_variable(
                n,
                line_width(lines[n]),
                v,
            ),
    decreases lines.len(),
{
    if lines.len() > 0 {
        let earlier = variable_errors(decls, lines.drop_last());
        let all = variable_errors(decls, lines);
        let j = choose|j: int| 0 <= j < all.len() && all[j] == w;
        if j < earlier.len() {
            assert(earlier[j] == w);
            lemma_errors_sound(decls, lines.drop_last(), w);
            let (n, v) = choose|n: int, v: Seq<char>|
                unset_use(decls, lines.drop_last(), n, v) && w == #[trigger] unknown_variable(
                    n,
                    line_width(lines.drop_last()[n]),
                    v,
                );
            assert(lines[n] == lines.drop_last()[n]);
            assert(unset_use(decls, lines, n, v));
            assert(w == unknown_variable(n, line_width(lines[n]), v));
        } else {
            let n = lines.len() - 1;
            match lines.last() {
                SpecConfigLine::Binding { modifiers, key, command } => {
                    let names = binding_variables(modifiers, key);
                    let width = utf8_len(binding_text(modifiers, key, command));
                    let tail = unknown_variables(decls, names, n, width);
                    assert(tail[j - earlier.len()] == w);
                    lemma_unknown_from_name(decls, names, n, width, w);
                    let v = choose|v: Seq<char>|
                        names.contains(v) && !declares(decls, v) && w == #[trigger] unknown_variable(
                            n,
                            width,
                            v,
                        );
                    assert(lines[n] == lines.last());
                    assert(unset_use(decls, lines, n, v));
                    assert(w == unknown_variable(n, line_width(lines[n]), v));
                },
                _ => {
                    assert(all == earlier);
                },
            }
        }
    }
}

/// What the variable check reports, exactly: every use of a variable in a
/// binding that no line of the configuration sets gets an error on the
/// binding's line naming the variable, and every error is such an error.
pub proof fn variable_errors_are_exactly_unset_uses(
    decls: Seq<SpecConfigLine>,
    lines: Seq<SpecConfigLine>,
)
    ensures
        forall|n: int, v: Seq<char>|
            unset_use(decls, lines, n, v) ==> variable_errors(decls, lines).contains(
                #[trigger] unknown_variable(n, line_width(lines[n]), v),
            ),
        forall|w: DiagnosticView|
            #[trigger] variable_errors(decls, lines).contains(w) ==> exists|n: int, v: Seq<char>|
                unset_use(decls, lines, n, v) && w == #[trigger] unknown_variable(
                    n,
                    line_width(lines[n]),
                    v,
                ),
{
    assert forall|n: int, v: Seq<char>| unset_use(decls, lines, n, v) implies variable_errors(
        decls,
        lines,
    ).contains(#[trigger] unknown_variable(n, line_width(lines[n]), v)) by {
        lemma_errors_complete(decls, lines, n, v);
    }
    assert forall|w: DiagnosticView| #[trigger] variable_errors(decls, lines).contains(w) implies exists|
        n: int,
        v: Seq<char>,
    | unset_use(decls, lines, n, v) && w == #[trigger] unknown_variable(n, line_width(lines[n]), v) by {
        lemma_errors_sound(decls, lines, w);
    }
}


/// `declares` holds exactly when some line sets the variable, wherever it
/// stands.
proof fn lemma_declares_any_set_line(decls: Seq<SpecConfigLine>, v: Seq<char>)
    ensures
        declares(decls, v) <==> exists|k: int|
            0 <= k < decls.len() && (#[trigger] decls[k] matches SpecConfigLine::SetVar { name, .. }
                && name == v),
{
    if declares(decls, v) {
        let k = choose|k: int| 0 <= k < decls.len() && sets_variable(#[trigger] decls[k], v);
        assert(decls[k] matches SpecConfigLine::SetVar { name, .. } && name == v);
    }
    if exists|k: int|
        0 <= k < decls.len() && (#[trigger] decls[k] matches SpecConfigLine::SetVar { name, .. }
            && name == v) {
        let k = choose|k: int|
            0 <= k < decls.len() && (#[trigger] decls[k] matches SpecConfigLine::SetVar { name, .. }
                && name == v);
        assert(sets_variable(decls[k], v));
    }
}

/// A variable counts as set exactly when some `set` line of `decls`, any
/// one of them, has its name: every use in a binding of a variable that no
/// `set` line names gets an error on the binding's line, and every error
/// is for such a use.
pub proof fn unknown_variables_are_those_no_set_line_names(
    decls: Seq<SpecConfigLine>,
    lines: Seq<SpecConfigLine>,
)
    ensures
        forall|n: int, v: Seq<char>|
            0 <= n < lines.len() && line_variables(lines[n]).contains(v) && (forall|k: int|
                0 <= k < decls.len() ==> !(#[trigger] decls[k] matches SpecConfigLine::SetVar {
                    name,
                    ..
                } && name == v)) ==> variable_errors(decls, lines).contains(
                #[trigger] unknown_variable(n, line_width(lines[n]), v),
            ),
        forall|w: DiagnosticView|
            #[trigger] variable_errors(decls, lines).contains(w) ==> exists|n: int, v: Seq<char>|
                0 <= n < lines.len() && line_variables(lines[n]).contains(v) && (forall|k: int|
                    0 <= k < decls.len() ==> !(#[trigger] decls[k] matches SpecConfigLine::SetVar {
                        name,
                        ..
                    } && name == v)) && w == #[trigger] unknown_variable(n, line_width(lines[n]), v),
{
    variable_errors_are_exactly_unset_uses(decls, lines);
    assert forall|n: int, v: Seq<char>|
        0 <= n < lines.len() && line_variables(lines[n]).contains(v) && (forall|k: int|
            0 <= k < decls.len() ==> !(#[trigger] decls[k] matches SpecConfigLine::SetVar {
                name,
                ..
            } && name == v)) implies variable_errors(decls, lines).contains(
        #[trigger] unknown_variable(n, line_width(lines[n]), v),
    ) by {
        lemma_declares_any_set_line(decls, v);
        assert(unset_use(decls, lines, n, v));
    }
    assert forall|w: DiagnosticView| #[trigger] variable_errors(decls, lines).contains(w) implies exists|
        n: int,
        v: Seq<char>,
    |
        0 <= n < lines.len() && line_variables(lines[n]).contains(v) && (forall|k: int|
            0 <= k < decls.len() ==> !(#[trigger] decls[k] matches SpecConfigLine::SetVar {
                name,
                ..
            } && name == v)) && w == #[trigger] unknown_variable(n, line_width(lines[n]), v) by {
        let (n, v) = choose|n: int, v: Seq<char>|
            unset_use(decls, lines, n, v) && w == #[trigger] unknown_variable(
                n,
                line_width(lines[n]),
                v,
            );
        lemma_declares_any_set_line(decls, v);
    }
}

/// What `first_line_of` finds: the line of the first entry whose name is
/// exactly `name`, and nothing where no entry has that name.
proof fn lemma_first_line_of(b: Seq<(Seq<char>, int)>, name: Seq<char>)
    ensures
        first_line_of(b, name) is None <==> forall|k: int| 0 <= k < b.len() ==> (#[trigger] b[k]).0
            != name,
        first_line_of(b, name) matches Some(l) ==> exists|k: int|
            0 <= k < b.len() && (#[trigger] b[k]).0 == name && b[k].1 == l && forall|m: int|
                0 <= m < k ==> (#[trigger] b[m]).0 != name,
    decreases b.len(),
{
    if b.len() > 0 {
        let init = b.drop_last();
        lemma_first_line_of(init, name);
        assert forall|k: int| 0 <= k < init.len() implies #[trigger] init[k] == b[k] by {}
        if first_line_of(init, name) is None {
            if b.last().0 == name {
                let k = b.len() - 1;
                assert(b[k].0 == name);
                assert forall|m: int| 0 <= m < k implies (#[trigger] b[m]).0 != name by {
                    assert(init[m] == b[m]);
                }
            } else {
                assert forall|k: int| 0 <= k < b.len() implies (#[trigger] b[k]).0 != name by {
                    if k < init.len() {
                        assert(init[k] == b[k]);
                    }
                }
            }
        } else {
            let k = choose|k: int|
                0 <= k < init.len() && (#[trigger] init[k]).0 == name && init[k].1
                    == first_line_of(init, name)->0 && forall|m: int|
                    0 <= m < k ==> (#[trigger] init[m]).0 != name;
            assert(b[k] == init[k]);
            assert forall|m: int| 0 <= m < k implies (#[trigger] b[m]).0 != name by {
                assert(init[m] == b[m]);
            }
        }
    }
}

proof fn lemma_repeat_listed(b: Seq<(Seq<char>, int)>, i: int, k: int)
    requires
        0 <= k < i < b.len(),
        b[k].0 == b[i].0,
        forall|m: int| 0 <= m < k ==> (#[trigger] b[m]).0 != b[i].0,
    ensures
        repeated_binding_errors(b).contains(repeated_binding_error(b[i], b[k].1)),
    decreases b.len(),
{
    let init = b.drop_last();
    let earlier = repeated_binding_errors(init);
    let all = repeated_binding_errors(b);
    let w = repeated_binding_error(b[i], b[k].1);
    if i == b.len() - 1 {
        lemma_first_line_of(init, b[i].0);
        assert(init[k] == b[k]);
        let l = first_line_of(init, b[i].0)->0;
        let k2 = choose|k2: int|
            0 <= k2 < init.len() && (#[trigger] init[k2]).0 == b[i].0 && init[k2].1 == l && forall|
                m: int,
            | 0 <= m < k2 ==> (#[trigger] init[m]).0 != b[i].0;
        assert(init[k2] == b[k2]);
        if k2 < k {
            assert(b[k2].0 != b[i].0);
        }
        if k < k2 {
            assert(init[k].0 != b[i].0);
        }
        assert(all[earlier.len() as int] == w);
    } else {
        assert(init[i] == b[i] && init[k] == b[k]);
        assert forall|m: int| 0 <= m < k implies (#[trigger] init[m]).0 != init[i].0 by {
            assert(init[m] == b[m]);
        }
        lemma_repeat_listed(init, i, k);
        let j = choose|j: int| 0 <= j < earlier.len() && earlier[j] == w;
        assert(all[j] == w);
    }
}

proof fn lemma_repeat_sound(b: Seq<(Seq<char>, int)>, w: DiagnosticView)
    requires
        repeated_binding_errors(b).contains(w),
    ensures
        exists|i: int, k: int|
            #![trigger b[i], b[k]]
            0 <= k < i < b.len() && b[k].0 == b[i].0 && (forall|m: int|
                0 <= m < k ==> (#[trigger] b[m]).0 != b[i].0) && w == repeated_binding_error(
                b[i],
                b[k].1,
            ),
    decreases b.len(),
{
    let init = b.drop_last();
    let earlier = repeated_binding_errors(init);
    let all = repeated_binding_errors(b);
    let j = choose|j: int| 0 <= j < all.len() && all[j] == w;
    if j < earlier.len() {
        assert(earlier[j] == w);
        lemma_repeat_sound(init, w);
        let (i, k) = choose|i: int, k: int|
            #![trigger init[i], init[k]]
            0 <= k < i < init.len() && init[k].0 == init[i].0 && (forall|m: int|
                0 <= m < k ==> (#[trigger] init[m]).0 != init[i].0) && w == repeated_binding_error(
                init[i],
                init[k].1,
            );
        assert(init[i] == b[i] && init[k] == b[k]);
        assert forall|m: int| 0 <= m < k implies (#[trigger] b[m]).0 != b[i].0 by {
            assert(init[m] == b[m]);
        }
    } else {
        let i = b.len() - 1;
        lemma_first_line_of(init, b.last().0);
        let l = first_line_of(init, b.last().0)->0;
        let k = choose|k: int|
            0 <= k < init.len() && (#[trigger] init[k]).0 == b.last().0 && init[k].1 == l && forall|
                m: int,
            | 0 <= m < k ==> (#[trigger] init[m]).0 != b.last().0;
        assert(init[k] == b[k]);
        assert(b[i] == b.last());
        assert forall|m: int| 0 <= m < k implies (#[trigger] b[m]).0 != b[i].0 by {
            assert(init[m] == b[m]);
        }
        assert(w == repeated_binding_error(b[i], b[k].1));
    }
}

/// A binding is reported as a repeat exactly when an earlier binding has
/// the very same name, and the report points at the first binding of that
/// name; two bindings whose names differ in any way never give a report.
pub proof fn repeats_are_reported_against_the_first_equal_name(b: Seq<(Seq<char>, int)>)
    ensures
        forall|i: int, k: int|
            0 <= k < i < b.len() && b[k].0 == b[i].0 && (forall|m: int|
                0 <= m < k ==> (#[trigger] b[m]).0 != b[i].0) ==> repeated_binding_errors(b).contains(
                #[trigger] repeated_binding_error(b[i], b[k].1),
            ),
        forall|w: DiagnosticView|
            #[trigger] repeated_binding_errors(b).contains(w) ==> exists|i: int, k: int|
                #![trigger b[i], b[k]]
                0 <= k < i < b.len() && b[k].0 == b[i].0 && (forall|m: int|
                    0 <= m < k ==> (#[trigger] b[m]).0 != b[i].0) && w == repeated_binding_error(
                    b[i],
                    b[k].1,
                ),
{
    assert forall|i: int, k: int|
        0 <= k < i < b.len() && b[k].0 == b[i].0 && (forall|m: int|
            0 <= m < k ==> (#[trigger] b[m]).0 != b[i].0) implies repeated_binding_errors(b).contains(
        #[trigger] repeated_binding_error(b[i], b[k].1),
    ) by {
        lemma_repeat_listed(b, i, k);
    }
    assert forall|w: DiagnosticView| #[trigger] repeated_binding_errors(b).contains(w) implies exists|
        i: int,
        k: int,
    |
        #![trigger b[i], b[k]]
        0 <= k < i < b.len() && b[k].0 == b[i].0 && (forall|m: int|
            0 <= m < k ==> (#[trigger] b[m]).0 != b[i].0) && w == repeated_binding_error(
            b[i],
            b[k].1,
        ) by {
        lemma_repeat_sound(b, w);
    }
}

} // verus!
