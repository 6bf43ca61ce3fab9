use i3_lsp::parser::{
    parse_binding, parse_comment, parse_config, parse_exec, parse_line, parse_raw, parse_set,
    ErrorKind, ParseError,
};
use i3_lsp::diagnostics::line_count;
use i3_lsp::{ConfigLine, I3Configuration};

fn err(input: &str, code: ErrorKind) -> ParseError<'_> {
    ParseError { input, code }
}

#[test]
fn comment_test() {
    let cfg = "# i3 configuration";

    let (_, cfg_line) = parse_comment(cfg).unwrap();

    assert_eq!(cfg_line, ConfigLine::Comment("i3 configuration".to_string()));
}

#[test]
fn set_test() {
    let config = "set $mod Mod4";

    let (_, cfg_line) = parse_set(config).unwrap();

    assert_eq!(
        cfg_line,
        ConfigLine::SetVar {
            name: "mod".to_string(),
            value: "Mod4".to_string()
        }
    )
}

#[test]
fn binding_test() {
    let (_, cfg) = parse_binding("bindsym $mod+Shift+F11 shutdown").unwrap();

    assert_eq!(
        cfg,
        ConfigLine::Binding {
            modifiers: vec!["$mod".into(), "Shift".into()],
            key: "F11".into(),
            command: "shutdown".into()
        }
    )
}

#[test]
fn exec_test() {
    let (_, cfg) = parse_exec("exec --no-startup-id cowsay hello").unwrap();

    assert_eq!(cfg, ConfigLine::ExecCmd("cowsay hello".into()))
}

#[test]
fn raw_test() {
    let (_, cfg) = parse_raw("font pango:monospace 10").unwrap();

    assert_eq!(cfg, ConfigLine::RawLine("font pango:monospace 10".into()));
}

#[test]
fn empty_line() {
    let (_, cfg) = parse_raw("").unwrap();

    assert_eq!(cfg, ConfigLine::RawLine("".into()));
}

#[test]
fn starts_with_linebreak() {
    let (_, cfg) = parse_raw("\n").unwrap();

    assert_eq!(cfg, ConfigLine::RawLine("".into()));
}

#[test]
fn full_test() {
    let config = r#"# i3 config
                        set $mod Mod4
                        set $term alacritty

                        bindsym $mod+Return exec $term
                        exec --no-startup-id nm-applet
                        font pango:monospace 10"#;

    let (_, cfg) = parse_config(config).unwrap();

    assert_eq!(
        cfg,
        I3Configuration {
            lines: vec![
                ConfigLine::Comment("i3 config".into()),
                ConfigLine::SetVar {
                    name: "mod".into(),
                    value: "Mod4".into()
                },
                ConfigLine::SetVar {
                    name: "term".into(),
                    value: "alacritty".into()
                },
                ConfigLine::EmptyLine,
                ConfigLine::Binding {
                    modifiers: vec!["$mod".into()],
                    key: "Return".into(),
                    command: "exec $term".into()
                },
                ConfigLine::ExecCmd("nm-applet".into()),
                ConfigLine::RawLine("font pango:monospace 10".into())
            ]
        }
    );
}

#[test]
fn parsers_leave_the_rest_of_the_text() {
    let (rest, line) = parse_comment("  #  note  \nnext").unwrap();
    assert_eq!(line, ConfigLine::Comment("note".into()));
    assert_eq!(rest, "\nnext");

    let (rest, line) = parse_line("set $a b\r\nnext").unwrap();
    assert_eq!(
        line,
        ConfigLine::SetVar {
            name: "a".into(),
            value: "b".into()
        }
    );
    assert_eq!(rest, "next");
}

#[test]
fn refused_lines_give_an_error() {
    assert_eq!(parse_comment("no hash here"), Err(err("no hash here", ErrorKind::Char)));
    assert_eq!(parse_comment("  #a\rb"), Err(err("a\rb", ErrorKind::Tag)));
    assert_eq!(parse_set("settings $a b"), Err(err("tings $a b", ErrorKind::Space)));
    assert_eq!(parse_set("sex $a b"), Err(err("sex $a b", ErrorKind::Tag)));
    assert_eq!(parse_set("set mod Mod4"), Err(err("mod Mod4", ErrorKind::Char)));
    assert_eq!(parse_set("set $mod"), Err(err("", ErrorKind::Space)));
    assert_eq!(parse_set("set $mod x\ry"), Err(err("x\ry", ErrorKind::Tag)));
    assert_eq!(parse_binding("bindsym Mod4+q"), Err(err("", ErrorKind::Space)));
    assert_eq!(parse_binding("bindsymq x"), Err(err("q x", ErrorKind::Space)));
    assert_eq!(parse_binding(" bind q x"), Err(err("bind q x", ErrorKind::Tag)));
    assert_eq!(parse_exec("exec --no-startup-id"), Err(err("", ErrorKind::Space)));
    assert_eq!(parse_exec("exec --no-startup-idx y"), Err(err("x y", ErrorKind::Space)));
    assert_eq!(parse_exec("execute x"), Err(err("ute x", ErrorKind::Space)));
    assert_eq!(parse_exec("exe x"), Err(err("exe x", ErrorKind::Tag)));
    assert_eq!(parse_raw("a\rb"), Err(err("a\rb", ErrorKind::Tag)));
    assert_eq!(parse_line(""), Err(err("", ErrorKind::Eof)));
    assert_eq!(parse_line("x\ry"), Err(err("x\ry", ErrorKind::Tag)));
}

#[test]
fn variable_names_take_letters_digits_underscores_and_dashes() {
    let (_, line) = parse_set("set $a-b_1é x y").unwrap();
    assert_eq!(
        line,
        ConfigLine::SetVar {
            name: "a-b_1é".into(),
            value: "x y".into()
        }
    );
    // The name stops at the `=`, and a blank must follow the name.
    assert_eq!(parse_set("set $a=b c"), Err(err("=b c", ErrorKind::Space)));
    // An empty name is accepted.
    let (_, line) = parse_set("set $ v").unwrap();
    assert_eq!(
        line,
        ConfigLine::SetVar {
            name: "".into(),
            value: "v".into()
        }
    );
}

#[test]
fn key_combinations_split_at_plus() {
    let (_, line) = parse_binding("  bindcode Mod4+Shift+24 kill ").unwrap();
    assert_eq!(
        line,
        ConfigLine::Binding {
            modifiers: vec!["Mod4".into(), "Shift".into()],
            key: "24".into(),
            command: "kill".into()
        }
    );
    let (_, line) = parse_binding("bindsym a++ x").unwrap();
    assert_eq!(
        line,
        ConfigLine::Binding {
            modifiers: vec!["a".into(), "".into()],
            key: "".into(),
            command: "x".into()
        }
    );
    let (_, line) = parse_binding("bindsym q exec x").unwrap();
    assert_eq!(
        line,
        ConfigLine::Binding {
            modifiers: vec![],
            key: "q".into(),
            command: "exec x".into()
        }
    );
}

#[test]
fn exec_without_flag() {
    let (_, line) = parse_exec("\texec   firefox  ").unwrap();
    assert_eq!(line, ConfigLine::ExecCmd("firefox".into()));
}

#[test]
fn line_kinds_in_order_of_preference() {
    // A refused `exec` line is read as other text.
    let (rest, line) = parse_line("exec --no-startup-id\nx").unwrap();
    assert_eq!(line, ConfigLine::RawLine("exec --no-startup-id".into()));
    assert_eq!(rest, "x");
    // Blanks only: other text, empty once trimmed.
    let (rest, line) = parse_line("   \r\nz").unwrap();
    assert_eq!(line, ConfigLine::RawLine("".into()));
    assert_eq!(rest, "z");
    let (rest, line) = parse_line("\r\n").unwrap();
    assert_eq!(line, ConfigLine::EmptyLine);
    assert_eq!(rest, "");
}

#[test]
fn documents_with_paired_line_breaks_are_read_whole() {
    let (rest, cfg) = parse_config("# a\r\n\r\nset $x 1\r\nbindsym $x+k nop\r\n").unwrap();
    assert_eq!(rest, "");
    assert_eq!(cfg.lines.len(), 4);
    assert_eq!(cfg.lines[1], ConfigLine::EmptyLine);
}

#[test]
fn reading_stops_at_a_lone_carriage_return() {
    let (rest, cfg) = parse_config("first\nsecond\rthird\nfourth").unwrap();
    assert_eq!(cfg.lines, vec![ConfigLine::RawLine("first".into())]);
    assert_eq!(rest, "second\rthird\nfourth");
}

#[test]
fn unicode_whitespace_is_trimmed() {
    let (_, line) = parse_raw("\u{3000}text\u{a0} ").unwrap();
    assert_eq!(line, ConfigLine::RawLine("text".into()));
}

#[test]
fn lines_are_written_out() {
    assert_eq!(ConfigLine::Comment("c".into()).to_string(), "c\n");
    assert_eq!(
        ConfigLine::SetVar {
            name: "mod".into(),
            value: "Mod4".into()
        }
        .to_string(),
        "set mod=Mod4\n"
    );
    assert_eq!(
        ConfigLine::Binding {
            modifiers: vec!["$mod".into(), "Shift".into()],
            key: "q".into(),
            command: "kill".into()
        }
        .to_string(),
        "q $mod,Shift kill\n"
    );
    assert_eq!(ConfigLine::ExecCmd("x".into()).to_string(), "x\n");
    assert_eq!(ConfigLine::RawLine("r".into()).to_string(), "r\n");
    assert_eq!(ConfigLine::EmptyLine.to_string(), "\n");
}

#[test]
fn a_document_split_after_a_line_feed_reads_as_its_parts() {
    let a = "# top\nset $m Mod4\n\n";
    let b = "bindsym $m+x exec y\n  exec --no-startup-id z\nfont f";
    let whole = format!("{}{}", a, b);
    let (_, all) = parse_config(&whole).unwrap();
    let (_, first) = parse_config(a).unwrap();
    let (_, second) = parse_config(b).unwrap();
    let mut joined = first.lines.clone();
    joined.extend(second.lines.clone());
    assert_eq!(all.lines, joined);
    assert_eq!(all.lines.len(), 6);
}

#[test]
fn a_binding_line_reads_as_written() {
    let (rest, line) = parse_binding("bindsym Mod1+\tCtrl+F2   run  it \t").unwrap();
    assert_eq!(rest, "");
    assert_eq!(
        line,
        ConfigLine::Binding {
            modifiers: vec!["Mod1".into(), "\tCtrl".into()],
            key: "F2".into(),
            command: "run  it".into()
        }
    );
}

#[test]
fn mode_blocks_are_written_out_with_their_lines() {
    let block = ConfigLine::Mode(I3Configuration {
        lines: vec![ConfigLine::EmptyLine, ConfigLine::Comment("c".into())],
    });
    assert_eq!(block.to_string(), "mode {\n\nc\n}\n");
    assert_eq!(block.clone(), block);
    let cfg = I3Configuration {
        lines: vec![block.clone(), ConfigLine::RawLine("r".into())],
    };
    assert_eq!(cfg.clone(), cfg);
}

#[test]
fn a_mode_block_closes_at_its_brace_line() {
    let (rest, line) = parse_line("mode \"resize\" {  \r\n  bindsym a b\n\t}\t \nexec x").unwrap();
    assert_eq!(rest, "exec x");
    assert_eq!(
        line,
        ConfigLine::Mode(I3Configuration {
            lines: vec![ConfigLine::Binding {
                modifiers: vec![],
                key: "a".into(),
                command: "b".into()
            }]
        })
    );
    let (rest, line) = parse_line("mode m {\n}").unwrap();
    assert_eq!(rest, "");
    assert_eq!(line, ConfigLine::Mode(I3Configuration { lines: vec![] }));
}

#[test]
fn an_unclosed_or_malformed_mode_header_is_plain_text() {
    let (_, cfg) = parse_config("mode m {\nbindsym a b\n").unwrap();
    assert_eq!(cfg.lines[0], ConfigLine::RawLine("mode m {".into()));
    assert_eq!(cfg.lines.len(), 2);
    let (_, line) = parse_line("mode m{\n}\n").unwrap();
    assert_eq!(line, ConfigLine::RawLine("mode m{".into()));
    let (_, line) = parse_line("mode m { x\n}\n").unwrap();
    assert_eq!(line, ConfigLine::RawLine("mode m { x".into()));
    let (_, line) = parse_line("mode {\n}\n").unwrap();
    assert_eq!(line, ConfigLine::RawLine("mode {".into()));
}

#[test]
fn a_document_split_inside_a_mode_block_reads_otherwise() {
    let a = "mode m {\n";
    let b = "}\n";
    let (_, whole) = parse_config("mode m {\n}\n").unwrap();
    let (_, first) = parse_config(a).unwrap();
    let (_, second) = parse_config(b).unwrap();
    assert_eq!(whole.lines, vec![ConfigLine::Mode(I3Configuration { lines: vec![] })]);
    assert_eq!(first.lines, vec![ConfigLine::RawLine("mode m {".into())]);
    assert_eq!(second.lines, vec![ConfigLine::RawLine("}".into())]);
}

#[test]
fn line_counts_add_up_to_the_document_lines() {
    let doc = "# a\nmode m {\n  bindsym x y\n\n  mode n {\n  }\n}\nexec z\nlast";
    let (_, cfg) = parse_config(doc).unwrap();
    assert_eq!(cfg.lines.len(), 4);
    let total: usize = cfg.lines.iter().map(line_count).sum();
    assert_eq!(total, doc.lines().count());
    assert_eq!(total, 9);
}
