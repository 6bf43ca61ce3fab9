//! Parsing and checking of i3 window-manager configuration files.

use vstd::prelude::*;

use crate::text::{join, join_strings, push_char};

pub mod text;
pub mod parser;
pub mod report;
pub mod lsp;
pub mod diagnostics;
pub mod analysis;
pub mod line_locality;

verus! {

/// A parsed i3 configuration: its lines in document order.
#[derive(Debug, PartialEq)]
pub struct I3Configuration {
    pub lines: Vec<ConfigLine>,
}

/// One line of an i3 configuration.
#[derive(Debug, PartialEq)]
pub enum ConfigLine {
    Comment(String),
    SetVar { name: String, value: String },
    Binding { modifiers: Vec<String>, key: String, command: String },
    ExecCmd(String),
    RawLine(String),
    EmptyLine,
    /// A `mode NAME { ... }` block: the lines between its braces.
    Mode(I3Configuration),
}

/// The mathematical value of a `ConfigLine`: every text as its characters.
pub enum SpecConfigLine {
    Comment(Seq<char>),
    SetVar { name: Seq<char>, value: Seq<char> },
    Binding { modifiers: Seq<Seq<char>>, key: Seq<char>, command: Seq<char> },
    ExecCmd(Seq<char>),
    RawLine(Seq<char>),
    EmptyLine,
    Mode(Seq<SpecConfigLine>),
}

/// The characters of each text in a list of texts.
pub open spec fn texts_view(v: Seq<String>) -> Seq<Seq<char>> {
    v.map_values(|m: String| m@)
}

/// The mathematical value of a line.
pub open spec fn line_view(l: ConfigLine) -> SpecConfigLine
    decreases l,
{
    match l {
        ConfigLine::Comment(c) => SpecConfigLine::Comment(c@),
        ConfigLine::SetVar { name, value } => SpecConfigLine::SetVar { name: name@, value: value@ },
        ConfigLine::Binding { modifiers, key, command } => SpecConfigLine::Binding {
            modifiers: texts_view(modifiers@),
            key: key@,
            command: command@,
        },
        ConfigLine::ExecCmd(c) => SpecConfigLine::ExecCmd(c@),
        ConfigLine::RawLine(r) => SpecConfigLine::RawLine(r@),
        ConfigLine::EmptyLine => SpecConfigLine::EmptyLine,
        ConfigLine::Mode(c) => SpecConfigLine::Mode(lines_view(c.lines@)),
    }
}

/// The mathematical values of a list of lines.
pub open spec fn lines_view(ls: Seq<ConfigLine>) -> Seq<SpecConfigLine>
    decreases ls,
{
    if ls.len() == 0 {
        Seq::empty()
    } else {
        lines_view(ls.subrange(0, ls.len() - 1)).push(line_view(ls[ls.len() - 1]))
    }
}

impl View for ConfigLine {
    type V = SpecConfigLine;

    open spec fn view(&self) -> SpecConfigLine {
        line_view(*self)
    }
}

impl View for I3Configuration {
    type V = Seq<SpecConfigLine>;

    open spec fn view(&self) -> Seq<SpecConfigLine> {
        self.lines@.map_values(|l: ConfigLine| l@)
    }
}

/// `lines_view` is the value of each line in turn.
pub proof fn lines_view_is_each_view(ls: Seq<ConfigLine>)
    ensures
        lines_view(ls) == ls.map_values(|l: ConfigLine| l@),
    decreases ls.len(),
{
    if ls.len() > 0 {
        lines_view_is_each_view(ls.subrange(0, ls.len() - 1));
        assert(ls.map_values(|l: ConfigLine| l@) =~= ls.subrange(0, ls.len() - 1).map_values(
            |l: ConfigLine| l@,
        ).push(ls[ls.len() - 1]@));
    } else {
        assert(ls.map_values(|l: ConfigLine| l@) =~= Seq::<SpecConfigLine>::empty());
    }
}

/// How many lines of the document a line takes: a mode block its first and
/// last line and the lines between them; any other line one.
pub open spec fn line_span(l: SpecConfigLine) -> nat
    decreases l,
{
    match l {
        SpecConfigLine::Mode(ls) => lines_span(ls) + 2,
        _ => 1,
    }
}

/// How many lines of the document a list of lines takes.
pub open spec fn lines_span(ls: Seq<SpecConfigLine>) -> nat
    decreases ls,
{
    if ls.len() == 0 {
        0
    } else {
        lines_span(ls.subrange(0, ls.len() - 1)) + line_span(ls[ls.len() - 1])
    }
}

/// A line put before a list adds its own span.
pub proof fn lines_span_prepend(l: SpecConfigLine, ls: Seq<SpecConfigLine>)
    ensures
        lines_span(seq![l] + ls) == line_span(l) + lines_span(ls),
    decreases ls.len(),
{
    let all = seq![l] + ls;
    if ls.len() > 0 {
        let init = ls.subrange(0, ls.len() - 1);
        lines_span_prepend(l, init);
        assert(all.subrange(0, all.len() - 1) =~= seq![l] + init);
        assert(all[all.len() - 1] == ls[ls.len() - 1]);
        assert(lines_span(all) == lines_span(seq![l] + init) + line_span(ls[ls.len() - 1]));
        assert(lines_span(ls) == lines_span(init) + line_span(ls[ls.len() - 1]));
    } else {
        assert(all.subrange(0, 0) =~= Seq::<SpecConfigLine>::empty());
        assert(ls =~= Seq::<SpecConfigLine>::empty());
        assert(lines_span(Seq::<SpecConfigLine>::empty()) == 0);
        assert(lines_span(all) == lines_span(all.subrange(0, 0)) + line_span(all[0]));
    }
}

/// How a line reads when it is written out: its text, followed by a line feed.
/// A comment is its text; a variable `set NAME=VALUE`; a binding the key, the
/// modifiers joined with `,`, and the command, separated by spaces; a command
/// or other text as it is; an empty line nothing; a mode block `mode {`, a
/// line feed, its lines as they are written out, and `}`.
pub open spec fn line_text(l: SpecConfigLine) -> Seq<char>
    decreases l,
{
    let body = match l {
        SpecConfigLine::Comment(c) => c,
        SpecConfigLine::SetVar { name, value } => "set "@ + name + "="@ + value,
        SpecConfigLine::Binding { modifiers, key, command } => key + " "@ + join(modifiers, ","@)
            + " "@ + command,
        SpecConfigLine::ExecCmd(c) => c,
        SpecConfigLine::RawLine(r) => r,
        SpecConfigLine::EmptyLine => Seq::empty(),
        SpecConfigLine::Mode(ls) => "mode {\n"@ + lines_text(ls) + "}"@,
    };
    body.push('\n')
}

/// Lines written out one after the other.
pub open spec fn lines_text(ls: Seq<SpecConfigLine>) -> Seq<char>
    decreases ls,
{
    if ls.len() == 0 {
        Seq::empty()
    } else {
        lines_text(ls.subrange(0, ls.len() - 1)) + line_text(ls[ls.len() - 1])
    }
}

/// A copy of each text of `v`.
fn clone_texts(v: &Vec<String>) -> (r: Vec<String>)
    ensures
        r@ == v@,
{
    let mut r: Vec<String> = Vec::new();
    let mut k: usize = 0;
    while k < v.len()
        invariant
            k <= v@.len(),
            r@ == v@.take(k as int),
        decreases v@.len() - k,
    {
        r.push(v[k].clone());
        assert(r@ =~= v@.take(k + 1));
        k = k + 1;
    }
    assert(v@.take(k as int) =~= v@);
    r
}

// `Clone` is written out for the two types, not derived: a mode block holds
// a configuration, which holds lines again, and each copy recurses into it.
impl Clone for ConfigLine {
    /// A copy of the line, inner lines of a mode block included.
    fn clone(&self) -> (r: Self)
        ensures
            r@ == self@,
        decreases self,
    {
        match self {
            ConfigLine::Comment(c) => ConfigLine::Comment(c.clone()),
            ConfigLine::SetVar { name, value } => ConfigLine::SetVar {
                name: name.clone(),
                value: value.clone(),
            },
            ConfigLine::Binding { modifiers, key, command } => ConfigLine::Binding {
                modifiers: clone_texts(modifiers),
                key: key.clone(),
                command: command.clone(),
            },
            ConfigLine::ExecCmd(c) => ConfigLine::ExecCmd(c.clone()),
            ConfigLine::RawLine(r) => ConfigLine::RawLine(r.clone()),
            ConfigLine::EmptyLine => ConfigLine::EmptyLine,
            ConfigLine::Mode(c) => {
                let mut lines: Vec<ConfigLine> = Vec::new();
                let mut k: usize = 0;
                while k < c.lines.len()
                    invariant
                        k <= c.lines@.len(),
                        *self == ConfigLine::Mode(*c),
                        lines@.len() == k,
                        forall|j: int| 0 <= j < k ==> #[trigger] lines@[j]@ == c.lines@[j]@,
                    decreases c.lines@.len() - k,
                {
                    proof {
                        assert(decreases_to!(*self => self->Mode_0));
                        assert(decreases_to!(c => c.lines));
                        assert(decreases_to!(c.lines => c.lines@));
                        assert(decreases_to!(c.lines@ => c.lines@[k as int]));
                    }
                    let l = c.lines[k].clone();
                    lines.push(l);
                    k = k + 1;
                }
                proof {
                    lines_view_is_each_view(lines@);
                    lines_view_is_each_view(c.lines@);
                    assert(lines@.map_values(|l: ConfigLine| l@) =~= c.lines@.map_values(
                        |l: ConfigLine| l@,
                    ));
                }
                ConfigLine::Mode(I3Configuration { lines })
            },
        }
    }
}

impl Clone for I3Configuration {
    /// A copy of the configuration.
    fn clone(&self) -> (r: Self)
        ensures
            r@ == self@,
    {
        let mut lines: Vec<ConfigLine> = Vec::new();
        let mut k: usize = 0;
        while k < self.lines.len()
            invariant
                k <= self.lines@.len(),
                lines@.len() == k,
                forall|j: int| 0 <= j < k ==> #[trigger] lines@[j]@ == self.lines@[j]@,
            decreases self.lines@.len() - k,
        {
            let l = self.lines[k].clone();
            lines.push(l);
            k = k + 1;
        }
        assert(lines@.map_values(|l: ConfigLine| l@) =~= self.lines@.map_values(|l: ConfigLine| l@));
        I3Configuration { lines }
    }
}

impl ConfigLine {
    /// The line as it is written out (see `line_text`).
    pub fn to_string(&self) -> (r: String)
        ensures
            r@ == line_text(self@),
        decreases self,
    {
        let mut r = String::new();
        match self {
            ConfigLine::Comment(c) => {
                r.append(c.as_str());
            },
            ConfigLine::SetVar { name, value } => {
                r.append("set ");
                r.append(name.as_str());
                r.append("=");
                r.append(value.as_str());
            },
            ConfigLine::Binding { modifiers, key, command } => {
                r.append(key.as_str());
                r.append(" ");
                let joined = join_strings(modifiers, ",");
                r.append(joined.as_str());
                r.append(" ");
                r.append(command.as_str());
            },
            ConfigLine::ExecCmd(cmd) => {
                r.append(cmd.as_str());
            },
            ConfigLine::RawLine(raw) => {
                r.append(raw.as_str());
            },
            ConfigLine::EmptyLine => {},
            ConfigLine::Mode(c) => {
                r.append("mode {\n");
                let ghost inner = c@;
                let mut k: usize = 0;
                while k < c.lines.len()
                    invariant
                        k <= c.lines@.len(),
                        inner == c@,
                        *self == ConfigLine::Mode(*c),
                        r@ == "mode {\n"@ + lines_text(inner.take(k as int)),
                    decreases c.lines@.len() - k,
                {
                    proof {
                        lines_view_is_each_view(c.lines@);
                        assert(decreases_to!(*self => self->Mode_0));
                        assert(decreases_to!(c => c.lines));
                        assert(decreases_to!(c.lines => c.lines@));
                        assert(decreases_to!(c.lines@ => c.lines@[k as int]));
                    }
                    let t = c.lines[k].to_string();
                    assert(inner.take(k + 1).subrange(0, k as int) =~= inner.take(k as int));
                    r.append(t.as_str());
                    k = k + 1;
                }
                assert(inner.take(k as int) =~= inner);
                r.append("}");
                proof {
                    lines_view_is_each_view(c.lines@);
                    assert(self@ == SpecConfigLine::Mode(inner));
                }
            },
        }
        push_char(&mut r, '\n');
        r
    }
}

} // verus!
