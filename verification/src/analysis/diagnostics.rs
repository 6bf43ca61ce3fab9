//! Warnings about key bindings that are bound more than once.

use vstd::multiset::Multiset;
use vstd::prelude::*;

use crate::report::{
    diagnostics_view, line_diagnostic, Diagnostic, DiagnosticSeverity, DiagnosticView, Position,
    Range,
};
use crate::text::{to_lowercase, unicode_lowercase};

verus! {

/// A statement of a configuration, with the line it stands on.
#[derive(Debug, Clone, PartialEq)]
pub enum Statement {
    SetVar { name: String, value: String, line: usize },
    Bindsym { key: String, command: String, line: usize },
    Exec { command: String, line: usize },
    Include { path: String, line: usize },
}

/// The mathematical value of a `Statement`: every text as its characters.
pub enum SpecStatement {
    SetVar { name: Seq<char>, value: Seq<char>, line: usize },
    Bindsym { key: Seq<char>, command: Seq<char>, line: usize },
    Exec { command: Seq<char>, line: usize },
    Include { path: Seq<char>, line: usize },
}

impl View for Statement {
    type V = SpecStatement;

    open spec fn view(&self) -> SpecStatement {
        match self {
            Statement::SetVar { name, value, line } => SpecStatement::SetVar {
                name: name@,
                value: value@,
                line: *line,
            },
            Statement::Bindsym { key, command, line } => SpecStatement::Bindsym {
                key: key@,
                command: command@,
                line: *line,
            },
            Statement::Exec { command, line } => SpecStatement::Exec { command: command@, line: *line },
            Statement::Include { path, line } => SpecStatement::Include { path: path@, line: *line },
        }
    }
}

/// The values of a list of statements.
pub open spec fn statements_view(v: Seq<Statement>) -> Seq<SpecStatement> {
    v.map_values(|s: Statement| s@)
}

/// The key under which a statement is compared with the others: the
/// lower-cased key of a binding; other statements have none.
pub open spec fn binding_key(st: SpecStatement) -> Option<Seq<char>> {
    match st {
        SpecStatement::Bindsym { key, .. } => Some(unicode_lowercase(key)),
        _ => None,
    }
}

/// The distinct keys of the bindings, in the order in which each first occurs.
pub open spec fn keys_in_order(stmts: Seq<SpecStatement>) -> Seq<Seq<char>>
    decreases stmts.len(),
{
    if stmts.len() == 0 {
        Seq::empty()
    } else {
        let earlier = keys_in_order(stmts.drop_last());
        match binding_key(stmts.last()) {
            Some(k) => if earlier.contains(k) {
                earlier
            } else {
                earlier.push(k)
            },
            None => earlier,
        }
    }
}

/// How many bindings have the key `k`.
pub open spec fn key_count(stmts: Seq<SpecStatement>, k: Seq<char>) -> nat
    decreases stmts.len(),
{
    if stmts.len() == 0 {
        0
    } else {
        key_count(stmts.drop_last(), k) + if binding_key(stmts.last()) == Some(k) {
            1nat
        } else {
            0nat
        }
    }
}

/// The line a statement stands on.
pub open spec fn statement_line(st: SpecStatement) -> usize {
    match st {
        SpecStatement::SetVar { line, .. } => line,
        SpecStatement::Bindsym { line, .. } => line,
        SpecStatement::Exec { line, .. } => line,
        SpecStatement::Include { line, .. } => line,
    }
}

/// The warning for a binding of `key` on line `line`.
pub open spec fn duplicate_warning(line: usize, key: Seq<char>) -> DiagnosticView {
    let l = (line as int % 0x1_0000_0000) as u32;
    line_diagnostic(l, 0, 100, DiagnosticSeverity::Warning, "Duplicate keybinding: "@ + key)
}

/// One warning for each binding with the key `k`, in statement order.
pub open spec fn warnings_for_key(stmts: Seq<SpecStatement>, k: Seq<char>) -> Seq<DiagnosticView>
    decreases stmts.len(),
{
    if stmts.len() == 0 {
        Seq::empty()
    } else {
        let earlier = warnings_for_key(stmts.drop_last(), k);
        if binding_key(stmts.last()) == Some(k) {
            earlier.push(duplicate_warning(statement_line(stmts.last()), k))
        } else {
            earlier
        }
    }
}

/// For each of `keys` in turn that more than one binding has, a warning for
/// each of those bindings.
pub open spec fn duplicate_warnings(stmts: Seq<SpecStatement>, keys: Seq<Seq<char>>) -> Seq<
    DiagnosticView,
>
    decreases keys.len(),
{
    if keys.len() == 0 {
        Seq::empty()
    } else {
        let earlier = duplicate_warnings(stmts, keys.drop_last());
        if key_count(stmts, keys.last()) > 1 {
            earlier + warnings_for_key(stmts, keys.last())
        } else {
            earlier
        }
    }
}

/// The values of a list of optional texts.
pub open spec fn keys_view(v: Seq<Option<String>>) -> Seq<Option<Seq<char>>> {
    v.map_values(|o: Option<String>|
        match o {
            Some(s) => Some(s@),
            None => None,
        })
}

/// The key of each statement.
fn statement_keys(ast: &[Statement]) -> (r: Vec<Option<String>>)
    ensures
        r@.len() == ast@.len(),
        forall|i: int| 0 <= i < ast@.len() ==> #[trigger] keys_view(r@)[i] == binding_key(ast@[i]@),
{
    let mut r: Vec<Option<String>> = Vec::new();
    let mut i: usize = 0;
    while i < ast.len()
        invariant
            i <= ast@.len(),
            r@.len() == i,
            forall|j: int| 0 <= j < i ==> #[trigger] keys_view(r@)[j] == binding_key(ast@[j]@),
        decreases ast@.len() - i,
    {
        let ghost before = r@;
        match &ast[i] {
            Statement::Bindsym { key, .. } => {
                let k = to_lowercase(key.as_str());
                r.push(Some(k));
                assert(keys_view(r@) =~= keys_view(before).push(Some(k@)));
            },
            _ => {
                r.push(None);
                assert(keys_view(r@) =~= keys_view(before).push(None));
            },
        }
        i = i + 1;
    }
    r
}

/// Whether `k` is one of `ks`.
fn contains_text(ks: &Vec<String>, k: &String) -> (r: bool)
    ensures
        r == ks@.map_values(|s: String| s@).contains(k@),
{
    let ghost v = ks@.map_values(|s: String| s@);
    let mut i: usize = 0;
    while i < ks.len()
        invariant
            i <= ks@.len(),
            v == ks@.map_values(|s: String| s@),
            forall|j: int| 0 <= j < i ==> v[j] != k@,
        decreases ks@.len() - i,
    {
        if ks[i] == *k {
            assert(v[i as int] == k@);
            return true;
        }
        i = i + 1;
    }
    false
}

/// Warns about every key binding whose key, compared without regard to
/// case, is bound by more than one statement: one warning per such binding.
/// The warnings come grouped by key, the keys in the order in which each is
/// first bound, and within a key in statement order.
pub fn check_duplicate_binds(ast: &[Statement]) -> (r: Vec<Diagnostic>)
    ensures
        diagnostics_view(r@) == duplicate_warnings(
            statements_view(ast@),
            keys_in_order(statements_view(ast@)),
        ),
{
    let ghost sv = statements_view(ast@);
    let keys = statement_keys(ast);
    // The distinct keys, in order of first occurrence.
    let mut order: Vec<String> = Vec::new();
    let mut i: usize = 0;
    while i < keys.len()
        invariant
            i <= keys@.len() == ast@.len() == sv.len(),
            sv == statements_view(ast@),
            forall|j: int| 0 <= j < ast@.len() ==> #[trigger] keys_view(keys@)[j] == binding_key(sv[j]),
            order@.map_values(|s: String| s@) == keys_in_order(sv.take(i as int)),
        decreases keys@.len() - i,
    {
        assert(sv.take(i + 1).drop_last() =~= sv.take(i as int));
        assert(sv.take(i + 1).last() == sv[i as int]);
        assert(keys_view(keys@)[i as int] == binding_key(sv[i as int]));
        match &keys[i] {
            Some(k) => {
                if !contains_text(&order, k) {
                    let ghost before = order@;
                    order.push(k.clone());
                    assert(order@.map_values(|s: String| s@) =~= before.map_values(
                        |s: String| s@,
                    ).push(k@));
                }
            },
            None => {},
        }
        i = i + 1;
    }
    assert(sv.take(i as int) =~= sv);
    let ghost ov = order@.map_values(|s: String| s@);
    let mut r: Vec<Diagnostic> = Vec::new();
    let mut g: usize = 0;
    while g < order.len()
        invariant
            g <= order@.len(),
            keys@.len() == ast@.len() == sv.len(),
            sv == statements_view(ast@),
            ov == order@.map_values(|s: String| s@),
            forall|j: int| 0 <= j < ast@.len() ==> #[trigger] keys_view(keys@)[j] == binding_key(sv[j]),
            diagnostics_view(r@) == duplicate_warnings(sv, ov.take(g as int)),
        decreases order@.len() - g,
    {
        let key = &order[g];
        assert(ov.take(g + 1).drop_last() =~= ov.take(g as int));
        assert(ov.take(g + 1).last() == key@);
        // How many bindings have this key.
        let mut count: usize = 0;
        let mut j: usize = 0;
        while j < keys.len()
            invariant
                j <= keys@.len() == sv.len(),
                forall|m: int| 0 <= m < sv.len() ==> #[trigger] keys_view(keys@)[m] == binding_key(sv[m]),
                count == key_count(sv.take(j as int), key@),
                count <= j,
            decreases keys@.len() - j,
        {
            assert(sv.take(j + 1).drop_last() =~= sv.take(j as int));
            assert(sv.take(j + 1).last() == sv[j as int]);
            assert(keys_view(keys@)[j as int] == binding_key(sv[j as int]));
            match &keys[j] {
                Some(k) => {
                    if *k == *key {
                        count = count + 1;
                    }
                },
                None => {},
            }
            j = j + 1;
        }
        assert(sv.take(j as int) =~= sv);
        if count > 1 {
            let ghost done = r@;
            let mut m: usize = 0;
            while m < ast.len()
                invariant
                    m <= ast@.len() == keys@.len() == sv.len(),
                    sv == statements_view(ast@),
                    forall|q: int| 0 <= q < sv.len() ==> #[trigger] keys_view(keys@)[q] == binding_key(sv[q]),
                    diagnostics_view(r@) == diagnostics_view(done) + warnings_for_key(
                        sv.take(m as int),
                        key@,
                    ),
                decreases ast@.len() - m,
            {
                assert(sv.take(m + 1).drop_last() =~= sv.take(m as int));
                assert(sv.take(m + 1).last() == sv[m as int]);
                assert(keys_view(keys@)[m as int] == binding_key(sv[m as int]));
                let same = match &keys[m] {
                    Some(k) => *k == *key,
                    None => false,
                };
                if same {
                    let line = match &ast[m] {
                        Statement::SetVar { line, .. } => *line,
                        Statement::Bindsym { line, .. } => *line,
                        Statement::Exec { line, .. } => *line,
                        Statement::Include { line, .. } => *line,
                    };
                    let l: u32 = (line as u64 % 0x1_0000_0000) as u32;
                    let mut message = "Duplicate keybinding: ".to_owned();
                    message.append(key.as_str());
                    let d = Diagnostic {
                        range: Range { start: Position::new(l, 0), end: Position::new(l, 100) },
                        severity: Some(DiagnosticSeverity::Warning),
                        message,
                    };
                    let ghost before = r@;
                    r.push(d);
                    assert(diagnostics_view(r@) =~= diagnostics_view(before).push(d@));
                    assert(d@ == duplicate_warning(statement_line(sv[m as int]), key@));
                }
                m = m + 1;
            }
            assert(sv.take(m as int) =~= sv);
        }
        g = g + 1;
    }
    assert(ov.take(g as int) =~= ov);
    r
}

/// Runs every analysis over the statements and collects what they report:
/// at present, the duplicate key bindings.
pub fn analyze(ast: &[Statement]) -> (r: Vec<Diagnostic>)
    ensures
        diagnostics_view(r@) == duplicate_warnings(
            statements_view(ast@),
            keys_in_order(statements_view(ast@)),
        ),
{
    let mut diagnostics: Vec<Diagnostic> = Vec::new();
    let mut found = check_duplicate_binds(ast);
    let ghost reported = found@;
    diagnostics.append(&mut found);
    assert(diagnostics_view(diagnostics@) =~= diagnostics_view(reported));
    diagnostics
}

/// A binding on statement `i` whose key, without regard to case, is also the
/// key of another binding: what the analysis warns about.
pub open spec fn is_duplicate_binding(stmts: Seq<SpecStatement>, i: int) -> bool {
    &&& 0 <= i < stmts.len()
    &&& binding_key(stmts[i]) is Some
    &&& key_count(stmts, binding_key(stmts[i])->0) > 1
}

proof fn lemma_key_listed(stmts: Seq<SpecStatement>, i: int)
    requires
        0 <= i < stmts.len(),
        binding_key(stmts[i]) is Some,
    ensures
        keys_in_order(stmts).contains(binding_key(stmts[i])->0),
    decreases stmts.len(),
{
    let k = binding_key(stmts[i])->0;
    if i < stmts.len() - 1 {
        assert(stmts.drop_last()[i] == stmts[i]);
        lemma_key_listed(stmts.drop_last(), i);
        let earlier = keys_in_order(stmts.drop_last());
        let j = choose|j: int| 0 <= j < earlier.len() && earlier[j] == k;
        assert(keys_in_order(stmts)[j] == k);
    } else {
        let earlier = keys_in_order(stmts.drop_last());
        if !earlier.contains(k) {
            assert(keys_in_order(stmts) == earlier.push(k));
            assert(keys_in_order(stmts)[earlier.len() as int] == k);
        }
    }
}

proof fn lemma_warning_for_binding(stmts: Seq<SpecStatement>, k: Seq<char>, i: int)
    requires
        0 <= i < stmts.len(),
        binding_key(stmts[i]) == Some(k),
    ensures
        warnings_for_key(stmts, k).contains(duplicate_warning(statement_line(stmts[i]), k)),
    decreases stmts.len(),
{
    let w = duplicate_warning(statement_line(stmts[i]), k);
    let earlier = warnings_for_key(stmts.drop_last(), k);
    if i < stmts.len() - 1 {
        assert(stmts.drop_last()[i] == stmts[i]);
        lemma_warning_for_binding(stmts.drop_last(), k, i);
        let j = choose|j: int| 0 <= j < earlier.len() && earlier[j] == w;
        assert(warnings_for_key(stmts, k)[j] == w);
    } else {
        assert(warnings_for_key(stmts, k)[earlier.len() as int] == w);
    }
}

proof fn lemma_warning_has_binding(stmts: Seq<SpecStatement>, k: Seq<char>, w: DiagnosticView)
    requires
        warnings_for_key(stmts, k).contains(w),
    ensures
        exists|i: int|
            0 <= i < stmts.len() && binding_key(stmts[i]) == Some(k) && w == duplicate_warning(
                statement_line(#[trigger] stmts[i]),
                k,
            ),
    decreases stmts.len(),
{
    if stmts.len() > 0 {
        let earlier = warnings_for_key(stmts.drop_last(), k);
        if earlier.contains(w) {
            lemma_warning_has_binding(stmts.drop_last(), k, w);
            let i = choose|i: int|
                0 <= i < stmts.drop_last().len() && binding_key(stmts.drop_last()[i]) == Some(k)
                    && w == duplicate_warning(statement_line(#[trigger] stmts.drop_last()[i]), k);
            assert(stmts[i] == stmts.drop_last()[i]);
        } else {
            let i = stmts.len() - 1;
            assert(binding_key(stmts[i]) == Some(k));
        }
    }
}

proof fn lemma_warnings_of_listed_key(
    stmts: Seq<SpecStatement>,
    keys: Seq<Seq<char>>,
    k: Seq<char>,
    w: DiagnosticView,
)
    requires
        keys.contains(k),
        key_count(stmts, k) > 1,
        warnings_for_key(stmts, k).contains(w),
    ensures
        duplicate_warnings(stmts, keys).contains(w),
    decreases keys.len(),
{
    let earlier = duplicate_warnings(stmts, keys.drop_last());
    if keys.last() == k {
        let ws = warnings_for_key(stmts, k);
        let j = choose|j: int| 0 <= j < ws.len() && ws[j] == w;
        assert(duplicate_warnings(stmts, keys)[earlier.len() + j] == w);
    } else {
        let m = choose|m: int| 0 <= m < keys.len() && keys[m] == k;
        assert(keys.drop_last()[m] == k);
        lemma_warnings_of_listed_key(stmts, keys.drop_last(), k, w);
        let j = choose|j: int| 0 <= j < earlier.len() && earlier[j] == w;
        assert(duplicate_warnings(stmts, keys)[j] == w);
    }
}

proof fn lemma_warning_comes_from_key(stmts: Seq<SpecStatement>, keys: Seq<Seq<char>>, w: DiagnosticView)
    requires
        duplicate_warnings(stmts, keys).contains(w),
    ensures
        exists|k: Seq<char>|
            keys.contains(k) && key_count(stmts, k) > 1 && #[trigger] warnings_for_key(
                stmts,
                k,
            ).contains(w),
    decreases keys.len(),
{
    if keys.len() > 0 {
        let earlier = duplicate_warnings(stmts, keys.drop_last());
        let k = keys.last();
        assert(keys[keys.len() - 1] == k);
        if earlier.contains(w) {
            lemma_warning_comes_from_key(stmts, keys.drop_last(), w);
            let k2 = choose|k2: Seq<char>|
                keys.drop_last().contains(k2) && key_count(stmts, k2) > 1
                    && #[trigger] warnings_for_key(stmts, k2).contains(w);
            let m = choose|m: int| 0 <= m < keys.drop_last().len() && keys.drop_last()[m] == k2;
            assert(keys[m] == k2);
        } else {
            let all = duplicate_warnings(stmts, keys);
            let j = choose|j: int| 0 <= j < all.len() && all[j] == w;
            if key_count(stmts, k) > 1 {
                let ws = warnings_for_key(stmts, k);
                assert(ws[j - earlier.len()] == w);
                assert(warnings_for_key(stmts, k).contains(w));
            } else {
                assert(all == earlier);
            }
        }
    }
}

/// What the analysis reports, exactly: every binding whose key (without
/// regard to case) another binding shares gets a warning on its line naming
/// the key, and every warning is such a warning for such a binding.
pub proof fn duplicate_warnings_are_exactly_shared_keys(stmts: Seq<SpecStatement>)
    ensures
        forall|i: int|
            is_duplicate_binding(stmts, i) ==> duplicate_warnings(stmts, keys_in_order(stmts)).contains(
                duplicate_warning(statement_line(#[trigger] stmts[i]), binding_key(stmts[i])->0),
            ),
        forall|w: DiagnosticView|
            #[trigger] duplicate_warnings(stmts, keys_in_order(stmts)).contains(w) ==> exists|i: int|
                is_duplicate_binding(stmts, i) && w == duplicate_warning(
                    statement_line(#[trigger] stmts[i]),
                    binding_key(stmts[i])->0,
                ),
{
    let keys = keys_in_order(stmts);
    assert forall|i: int| is_duplicate_binding(stmts, i) implies duplicate_warnings(
        stmts,
        keys,
    ).contains(duplicate_warning(statement_line(#[trigger] stmts[i]), binding_key(stmts[i])->0)) by {
        let k = binding_key(stmts[i])->0;
        lemma_key_listed(stmts, i);
        lemma_warning_for_binding(stmts, k, i);
        lemma_warnings_of_listed_key(stmts, keys, k, duplicate_warning(statement_line(stmts[i]), k));
    }
    assert forall|w: DiagnosticView| #[trigger] duplicate_warnings(stmts, keys).contains(w) implies exists|i: int|
        is_duplicate_binding(stmts, i) && w == duplicate_warning(
            statement_line(#[trigger] stmts[i]),
            binding_key(stmts[i])->0,
        ) by {
        lemma_warning_comes_from_key(stmts, keys, w);
        let k = choose|k: Seq<char>|
            keys.contains(k) && key_count(stmts, k) > 1 && #[trigger] warnings_for_key(
                stmts,
                k,
            ).contains(w);
        lemma_warning_has_binding(stmts, k, w);
        let i = choose|i: int|
            0 <= i < stmts.len() && binding_key(stmts[i]) == Some(k) && w == duplicate_warning(
                statement_line(#[trigger] stmts[i]),
                k,
            );
        assert(is_duplicate_binding(stmts, i));
    }
}

/// The bindings among `stmts`: the line and the key (lower-cased) of each.
pub open spec fn bindings_of(stmts: Seq<SpecStatement>) -> Seq<(usize, Seq<char>)>
    decreases stmts.len(),
{
    if stmts.len() == 0 {
        Seq::empty()
    } else {
        let earlier = bindings_of(stmts.drop_last());
        match binding_key(stmts.last()) {
            Some(k) => earlier.push((statement_line(stmts.last()), k)),
            None => earlier,
        }
    }
}

/// Being equal to `x`.
pub open spec fn equals<A>(x: A) -> spec_fn(A) -> bool {
    |y: A| y == x
}

/// A binding with the key `k`.
pub open spec fn key_is(k: Seq<char>) -> spec_fn((usize, Seq<char>)) -> bool {
    |p: (usize, Seq<char>)| p.1 == k
}

/// A binding with the key `k` whose warning is `w`.
pub open spec fn warned_as(k: Seq<char>, w: DiagnosticView) -> spec_fn((usize, Seq<char>)) -> bool {
    |p: (usize, Seq<char>)| p.1 == k && duplicate_warning(p.0, k) == w
}

/// A binding whose key is one of `keys` and more than one binding of `stmts`
/// has, and whose warning is `w`.
pub open spec fn listed_shared(stmts: Seq<SpecStatement>, keys: Seq<Seq<char>>, w: DiagnosticView) -> spec_fn(
    (usize, Seq<char>),
) -> bool {
    |p: (usize, Seq<char>)|
        keys.contains(p.1) && key_count(stmts, p.1) > 1 && duplicate_warning(p.0, p.1) == w
}

/// A binding whose key more than one of the bindings `b` has, and whose
/// warning is `w`.
pub open spec fn shared_warning(b: Seq<(usize, Seq<char>)>, w: DiagnosticView) -> spec_fn(
    (usize, Seq<char>),
) -> bool {
    |p: (usize, Seq<char>)| count_where(b, key_is(p.1)) > 1 && duplicate_warning(p.0, p.1) == w
}

/// Nothing.
pub open spec fn nothing<A>() -> spec_fn(A) -> bool {
    |x: A| false
}

/// How many elements of `s` satisfy `f`.
pub open spec fn count_where<A>(s: Seq<A>, f: spec_fn(A) -> bool) -> nat
    decreases s.len(),
{
    if s.len() == 0 {
        0
    } else {
        count_where(s.drop_last(), f) + if f(s.last()) {
            1nat
        } else {
            0nat
        }
    }
}

proof fn lemma_count_remove<A>(s: Seq<A>, i: int, f: spec_fn(A) -> bool)
    requires
        0 <= i < s.len(),
    ensures
        count_where(s, f) == count_where(s.remove(i), f) + if f(s[i]) {
            1nat
        } else {
            0nat
        },
    decreases s.len(),
{
    if i < s.len() - 1 {
        lemma_count_remove(s.drop_last(), i, f);
        assert(s.remove(i).drop_last() =~= s.drop_last().remove(i));
        assert(s.remove(i).last() == s.last());
    } else {
        assert(s.remove(i) =~= s.drop_last());
    }
}

proof fn lemma_count_same_multiset<A>(s1: Seq<A>, s2: Seq<A>, f: spec_fn(A) -> bool)
    requires
        s1.to_multiset() == s2.to_multiset(),
    ensures
        count_where(s1, f) == count_where(s2, f),
    decreases s1.len(),
{
    broadcast use vstd::seq_lib::group_to_multiset_ensures;

    if s1.len() == 0 {
        assert(s1.to_multiset().len() == 0);
        assert(s2.len() == 0);
    } else {
        let x = s1.last();
        assert(s1.drop_last().push(x) =~= s1);
        assert(s2.to_multiset().count(x) > 0);
        assert(s2.contains(x));
        let j = choose|j: int| 0 <= j < s2.len() && s2[j] == x;
        assert(s1.drop_last().to_multiset() =~= s1.to_multiset().remove(x));
        assert(s2.remove(j).to_multiset() == s2.to_multiset().remove(x));
        lemma_count_same_multiset(s1.drop_last(), s2.remove(j), f);
        lemma_count_remove(s2, j, f);
    }
}

proof fn lemma_count_is_multiplicity<A>(s: Seq<A>, x: A)
    ensures
        s.to_multiset().count(x) == count_where(s, equals(x)),
    decreases s.len(),
{
    broadcast use vstd::seq_lib::group_to_multiset_ensures;

    if s.len() == 0 {
        assert(s.to_multiset() =~= Multiset::<A>::empty());
    } else {
        lemma_count_is_multiplicity(s.drop_last(), x);
        assert(s.drop_last().push(s.last()) =~= s);
    }
}

proof fn lemma_count_concat<A>(a: Seq<A>, b: Seq<A>, f: spec_fn(A) -> bool)
    ensures
        count_where(a + b, f) == count_where(a, f) + count_where(b, f),
    decreases b.len(),
{
    if b.len() == 0 {
        assert(a + b =~= a);
    } else {
        lemma_count_concat(a, b.drop_last(), f);
        assert((a + b).drop_last() =~= a + b.drop_last());
    }
}

proof fn lemma_count_pointwise<A>(s: Seq<A>, f: spec_fn(A) -> bool, g: spec_fn(A) -> bool)
    requires
        forall|i: int| 0 <= i < s.len() ==> f(#[trigger] s[i]) == g(s[i]),
    ensures
        count_where(s, f) == count_where(s, g),
    decreases s.len(),
{
    if s.len() > 0 {
        assert forall|i: int| 0 <= i < s.drop_last().len() implies f(#[trigger] s.drop_last()[i])
            == g(s.drop_last()[i]) by {
            assert(s.drop_last()[i] == s[i]);
        }
        lemma_count_pointwise(s.drop_last(), f, g);
        assert(f(s[s.len() - 1]) == g(s[s.len() - 1]));
    }
}

proof fn lemma_count_disjoint<A>(
    s: Seq<A>,
    f: spec_fn(A) -> bool,
    g: spec_fn(A) -> bool,
    h: spec_fn(A) -> bool,
)
    requires
        forall|x: A| #[trigger] h(x) == (f(x) || g(x)),
        forall|x: A| !(#[trigger] f(x) && g(x)),
    ensures
        count_where(s, h) == count_where(s, f) + count_where(s, g),
    decreases s.len(),
{
    if s.len() > 0 {
        lemma_count_disjoint(s.drop_last(), f, g, h);
        assert(h(s.last()) == (f(s.last()) || g(s.last())));
        assert(!(f(s.last()) && g(s.last())));
    }
}

proof fn lemma_key_count_bindings(stmts: Seq<SpecStatement>, k: Seq<char>)
    ensures
        key_count(stmts, k) == count_where(bindings_of(stmts), key_is(k)),
    decreases stmts.len(),
{
    if stmts.len() > 0 {
        lemma_key_count_bindings(stmts.drop_last(), k);
        let e = bindings_of(stmts.drop_last());
        if let Some(key) = binding_key(stmts.last()) {
            assert(e.push((statement_line(stmts.last()), key)).drop_last() =~= e);
        }
    }
}

proof fn lemma_warnings_for_key_count(stmts: Seq<SpecStatement>, k: Seq<char>, w: DiagnosticView)
    ensures
        count_where(warnings_for_key(stmts, k), equals(w)) == count_where(
            bindings_of(stmts),
            warned_as(k, w),
        ),
    decreases stmts.len(),
{
    if stmts.len() > 0 {
        lemma_warnings_for_key_count(stmts.drop_last(), k, w);
        let e = bindings_of(stmts.drop_last());
        let ew = warnings_for_key(stmts.drop_last(), k);
        if let Some(key) = binding_key(stmts.last()) {
            assert(e.push((statement_line(stmts.last()), key)).drop_last() =~= e);
        }
        if binding_key(stmts.last()) == Some(k) {
            assert(ew.push(duplicate_warning(statement_line(stmts.last()), k)).drop_last() =~= ew);
        }
    }
}

proof fn lemma_keys_in_order_facts(stmts: Seq<SpecStatement>)
    ensures
        keys_in_order(stmts).no_duplicates(),
        forall|i: int|
            0 <= i < bindings_of(stmts).len() ==> keys_in_order(stmts).contains(
                (#[trigger] bindings_of(stmts)[i]).1,
            ),
    decreases stmts.len(),
{
    if stmts.len() > 0 {
        lemma_keys_in_order_facts(stmts.drop_last());
        let earlier = keys_in_order(stmts.drop_last());
        let keys = keys_in_order(stmts);
        let eb = bindings_of(stmts.drop_last());
        let b = bindings_of(stmts);
        assert forall|i: int| 0 <= i < b.len() implies keys.contains((#[trigger] b[i]).1) by {
            if i < eb.len() {
                assert(b[i] == eb[i]);
                let m = choose|m: int| 0 <= m < earlier.len() && earlier[m] == eb[i].1;
                assert(keys[m] == eb[i].1);
            } else {
                let k = binding_key(stmts.last())->0;
                if earlier.contains(k) {
                    let m = choose|m: int| 0 <= m < earlier.len() && earlier[m] == k;
                    assert(keys[m] == k);
                } else {
                    assert(keys[earlier.len() as int] == k);
                }
            }
        }
    }
}

proof fn lemma_duplicate_warnings_count(
    stmts: Seq<SpecStatement>,
    keys: Seq<Seq<char>>,
    w: DiagnosticView,
)
    requires
        keys.no_duplicates(),
    ensures
        count_where(duplicate_warnings(stmts, keys), equals(w)) == count_where(
            bindings_of(stmts),
            listed_shared(stmts, keys, w),
        ),
    decreases keys.len(),
{
    let b = bindings_of(stmts);
    if keys.len() == 0 {
        lemma_count_pointwise(b, listed_shared(stmts, keys, w), nothing());
        lemma_count_none(b);
    } else {
        let front = keys.drop_last();
        let k = keys.last();
        assert(front.no_duplicates());
        lemma_duplicate_warnings_count(stmts, front, w);
        let earlier = duplicate_warnings(stmts, front);
        let f = listed_shared(stmts, front, w);
        let g = |p: (usize, Seq<char>)|
            p.1 == k && key_count(stmts, k) > 1 && duplicate_warning(p.0, k) == w;
        let h = listed_shared(stmts, keys, w);
        assert forall|x: (usize, Seq<char>)| #[trigger] h(x) == (f(x) || g(x)) by {
            if keys.contains(x.1) && x.1 != k {
                let m = choose|m: int| 0 <= m < keys.len() && keys[m] == x.1;
                assert(front[m] == x.1);
            }
            if front.contains(x.1) {
                let m = choose|m: int| 0 <= m < front.len() && front[m] == x.1;
                assert(keys[m] == x.1);
            }
            if x.1 == k {
                assert(keys[keys.len() - 1] == k);
            }
        }
        assert forall|x: (usize, Seq<char>)| !(#[trigger] f(x) && g(x)) by {
            if front.contains(x.1) && x.1 == k {
                let m = choose|m: int| 0 <= m < front.len() && front[m] == x.1;
                assert(keys[m] == keys[keys.len() - 1]);
            }
        }
        lemma_count_disjoint(b, f, g, h);
        if key_count(stmts, k) > 1 {
            assert(duplicate_warnings(stmts, keys) == earlier + warnings_for_key(stmts, k));
            lemma_count_concat(earlier, warnings_for_key(stmts, k), equals(w));
            lemma_warnings_for_key_count(stmts, k, w);
            lemma_count_pointwise(b, g, warned_as(k, w));
        } else {
            lemma_count_pointwise(b, g, nothing());
            lemma_count_none(b);
        }
    }
}

proof fn lemma_count_none<A>(s: Seq<A>)
    ensures
        count_where(s, nothing()) == 0,
    decreases s.len(),
{
    if s.len() > 0 {
        lemma_count_none(s.drop_last());
    }
}

/// How many warnings equal to `w` the analysis gives: one for each binding
/// whose key another binding shares and whose warning is `w`.
proof fn lemma_warning_multiplicity(stmts: Seq<SpecStatement>, w: DiagnosticView)
    ensures
        duplicate_warnings(stmts, keys_in_order(stmts)).to_multiset().count(w) == count_where(
            bindings_of(stmts),
            shared_warning(bindings_of(stmts), w),
        ),
{
    let b = bindings_of(stmts);
    let keys = keys_in_order(stmts);
    lemma_keys_in_order_facts(stmts);
    lemma_count_is_multiplicity(duplicate_warnings(stmts, keys), w);
    lemma_duplicate_warnings_count(stmts, keys, w);
    assert forall|i: int| 0 <= i < b.len() implies listed_shared(stmts, keys, w)(#[trigger] b[i])
        == shared_warning(b, w)(b[i]) by {
        lemma_key_count_bindings(stmts, b[i].1);
    }
    lemma_count_pointwise(b, listed_shared(stmts, keys, w), shared_warning(b, w));
}

/// The warnings depend on the bindings alone, not on their order: two lists
/// of statements whose bindings (line and key, without regard to case) are
/// the same up to order give the same warnings up to order, whatever the
/// other statements and whatever the commands.
pub proof fn duplicate_warnings_depend_on_bindings_alone(a: Seq<SpecStatement>, b: Seq<SpecStatement>)
    requires
        bindings_of(a).to_multiset() == bindings_of(b).to_multiset(),
    ensures
        duplicate_warnings(a, keys_in_order(a)).to_multiset() == duplicate_warnings(
            b,
            keys_in_order(b),
        ).to_multiset(),
{
    let ba = bindings_of(a);
    let bb = bindings_of(b);
    assert forall|w: DiagnosticView| duplicate_warnings(a, keys_in_order(a)).to_multiset().count(w)
        == duplicate_warnings(b, keys_in_order(b)).to_multiset().count(w) by {
        lemma_warning_multiplicity(a, w);
        lemma_warning_multiplicity(b, w);
        assert forall|p: (usize, Seq<char>)| #[trigger] shared_warning(ba, w)(p) == shared_warning(
            bb,
            w,
        )(p) by {
            lemma_count_same_multiset(ba, bb, key_is(p.1));
        }
        assert(shared_warning(ba, w) =~= shared_warning(bb, w));
        lemma_count_same_multiset(ba, bb, shared_warning(ba, w));
    }
    assert(duplicate_warnings(a, keys_in_order(a)).to_multiset() =~= duplicate_warnings(
        b,
        keys_in_order(b),
    ).to_multiset());
}

} // verus!
