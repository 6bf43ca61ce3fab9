//! The grammar written a second time with nom's combinators, used as an
//! oracle: on many generated documents, every parser of the library must
//! give what the combinator version gives, errors included.

use i3_lsp::parser::{
    parse_binding, parse_comment, parse_config, parse_exec, parse_line, parse_raw, parse_set,
    ErrorKind,
};
use i3_lsp::ConfigLine;

use nom::{
    branch::alt,
    bytes::complete::{tag, take_till, take_while},
    character::complete::{char, line_ending, not_line_ending, space0, space1},
    combinator::opt,
    multi::many0,
    sequence::preceded,
    IResult, Parser,
};

fn nom_comment(input: &str) -> IResult<&str, ConfigLine> {
    let (input, _) = preceded(space0, char('#')).parse(input)?;
    let (input, text) = not_line_ending(input)?;
    Ok((input, ConfigLine::Comment(text.trim().to_string())))
}

fn nom_identifier(input: &str) -> IResult<&str, &str> {
    take_while(|c: char| c.is_alphanumeric() || c == '_' || c == '-')(input)
}

fn nom_set(input: &str) -> IResult<&str, ConfigLine> {
    let (input, _) = (space0, tag("set"), space1).parse(input)?;
    let (input, name) = preceded(char('$'), nom_identifier).parse(input)?;
    let (input, _) = space1(input)?;
    let (input, value) = not_line_ending(input)?;
    Ok((
        input,
        ConfigLine::SetVar {
            name: name.to_string(),
            value: value.trim().to_string(),
        },
    ))
}

fn nom_binding(input: &str) -> IResult<&str, ConfigLine> {
    let (input, _) = (space0, alt((tag("bindsym"), tag("bindcode"))), space1).parse(input)?;
    let (input, combo) = take_till(|c: char| c == ' ' || c == '\n')(input)?;
    let (input, _) = space1(input)?;
    let (input, command) = not_line_ending(input)?;
    let parts: Vec<String> = combo.split('+').map(|s| s.to_string()).collect();
    let combo_string = combo.to_string();
    let (key, modifiers) = parts.split_last().unwrap_or((&combo_string, &[]));
    Ok((
        input,
        ConfigLine::Binding {
            modifiers: modifiers.to_vec(),
            key: key.to_string(),
            command: command.trim().to_string(),
        },
    ))
}

fn nom_exec(input: &str) -> IResult<&str, ConfigLine> {
    let (input, _) = (space0, tag("exec")).parse(input)?;
    let (input, _) = opt((space1, tag("--no-startup-id"))).parse(input)?;
    let (input, _) = space1(input)?;
    let (input, cmd) = not_line_ending(input)?;
    Ok((input, ConfigLine::ExecCmd(cmd.trim().to_string())))
}

fn nom_raw(input: &str) -> IResult<&str, ConfigLine> {
    let (input, line) = not_line_ending(input)?;
    Ok((input, ConfigLine::RawLine(line.trim().to_string())))
}

fn nom_line(input: &str) -> IResult<&str, ConfigLine> {
    if input.is_empty() {
        return Err(nom::Err::Error(nom::error::Error::new(
            input,
            nom::error::ErrorKind::Eof,
        )));
    }
    if input.starts_with('\n') || input.starts_with("\r\n") {
        let (input, _) = line_ending(input)?;
        return Ok((input, ConfigLine::EmptyLine));
    }
    let (input, line) = alt((nom_comment, nom_set, nom_binding, nom_exec, nom_raw)).parse(input)?;
    let (input, _) = opt(line_ending).parse(input)?;
    Ok((input, line))
}

fn nom_config(document: &str) -> IResult<&str, Vec<ConfigLine>> {
    many0(nom_line).parse(document)
}

const PIECES: &[&str] = &[
    " ", " ", "\t", "\n", "\n", "\r\n", "\r", "#", "$", "+", "=", "-", "_", "set", "bindsym",
    "bindcode", "exec", "--no-startup-id", "mod", "Mod4", "x", "é", "1", "\u{3000}", "\u{a0}",
    "ß", "!",
];

struct Gen(u64);

impl Gen {
    fn next(&mut self) -> u64 {
        self.0 = self.0.wrapping_mul(6364136223846793005).wrapping_add(1442695040888963407);
        self.0 >> 33
    }

    fn document(&mut self) -> String {
        let n = (self.next() % 14) as usize;
        let mut s = String::new();
        for _ in 0..n {
            s.push_str(PIECES[(self.next() % PIECES.len() as u64) as usize]);
        }
        s
    }
}

fn same(
    ours: Result<(&str, ConfigLine), i3_lsp::parser::ParseError>,
    theirs: IResult<&str, ConfigLine>,
    doc: &str,
) {
    match (ours, theirs) {
        (Ok(a), Ok(b)) => assert_eq!(a, b, "on {:?}", doc),
        (Err(a), Err(nom::Err::Error(b))) => {
            assert_eq!(a.input, b.input, "on {:?}", doc);
            let code = match b.code {
                nom::error::ErrorKind::Tag => ErrorKind::Tag,
                nom::error::ErrorKind::Char => ErrorKind::Char,
                nom::error::ErrorKind::Space => ErrorKind::Space,
                nom::error::ErrorKind::Eof => ErrorKind::Eof,
                other => panic!("on {:?}: unexpected kind {:?}", doc, other),
            };
            assert_eq!(a.code, code, "on {:?}", doc);
        }
        (a, b) => panic!("on {:?}: {:?} against {:?}", doc, a, b),
    }
}

#[test]
fn every_parser_agrees_with_the_combinators() {
    let mut g = Gen(7);
    for _ in 0..20000 {
        let doc = g.document();
        let d = doc.as_str();
        same(parse_comment(d), nom_comment(d), d);
        same(parse_set(d), nom_set(d), d);
        same(parse_binding(d), nom_binding(d), d);
        same(parse_exec(d), nom_exec(d), d);
        same(parse_raw(d), nom_raw(d), d);
        same(parse_line(d), nom_line(d), d);
        let (rest, cfg) = parse_config(d).unwrap();
        let (nom_rest, nom_lines) = nom_config(d).unwrap();
        assert_eq!(rest, nom_rest, "on {:?}", d);
        assert_eq!(cfg.lines, nom_lines, "on {:?}", d);
    }
}
