use i3_lsp::analysis::diagnostics::{analyze, check_duplicate_binds, Statement};
use i3_lsp::diagnostics::{
    check_for_duplicate_bindings, check_variables, collect_bindings_with_offset, line_count,
};
use i3_lsp::{ConfigLine, I3Configuration};
use i3_lsp::lsp::{check, completion_entries};
use i3_lsp::parser::parse_config;
use i3_lsp::report::{Diagnostic, DiagnosticSeverity, Position, Range};

fn diag(line: u32, end: u32, severity: DiagnosticSeverity, message: &str) -> Diagnostic {
    Diagnostic {
        range: Range {
            start: Position::new(line, 0),
            end: Position::new(line, end),
        },
        severity: Some(severity),
        message: message.to_string(),
    }
}

#[test]
fn check_variables_test() {
    let config = r#"# i3 config
                        set $mod Mod4
                        set $term alacritty

                        bindsym $mo+Return exec $term
                        bindsym $mod+Return exec korv
                        exec --no-startup-id nm-applet
                        font pango:monospace 10"#;

    let (_, cfg) = parse_config(config).unwrap();

    let errors = check_variables(&cfg);

    assert_eq!(errors.len(), 1);
}

#[test]
fn unknown_variables_are_named_with_their_line() {
    let config = "set $mod Mod4\nbindsym $mod+$alt+$k ö\nbindsym $mod+x y\n";
    let (_, cfg) = parse_config(config).unwrap();
    let errors = check_variables(&cfg);
    // "$mod+$alt+$k ö" is 15 bytes long.
    assert_eq!(
        errors,
        vec![
            diag(1, 15, DiagnosticSeverity::Error, "Unknown variable 'alt'"),
            diag(1, 15, DiagnosticSeverity::Error, "Unknown variable 'k'"),
        ]
    );
}

#[test]
fn variables_set_later_are_known() {
    let config = "bindsym $m+x y\nset $m Mod1\n";
    let (_, cfg) = parse_config(config).unwrap();
    assert!(check_variables(&cfg).is_empty());
}

fn bind(key: &str, line: usize) -> Statement {
    Statement::Bindsym {
        key: key.to_string(),
        command: "nop".to_string(),
        line,
    }
}

#[test]
fn duplicate_keys_are_warned_about_regardless_of_case() {
    let ast = vec![
        bind("$mod+Return", 3),
        Statement::SetVar {
            name: "mod".into(),
            value: "Mod4".into(),
            line: 4,
        },
        bind("$mod+q", 5),
        bind("$MOD+return", 7),
        Statement::Exec {
            command: "x".into(),
            line: 8,
        },
        bind("$mod+Q", 9),
        bind("$mod+d", 10),
        Statement::Include {
            path: "other".into(),
            line: 11,
        },
    ];
    let expected = vec![
        diag(3, 100, DiagnosticSeverity::Warning, "Duplicate keybinding: $mod+return"),
        diag(7, 100, DiagnosticSeverity::Warning, "Duplicate keybinding: $mod+return"),
        diag(5, 100, DiagnosticSeverity::Warning, "Duplicate keybinding: $mod+q"),
        diag(9, 100, DiagnosticSeverity::Warning, "Duplicate keybinding: $mod+q"),
    ];
    assert_eq!(check_duplicate_binds(&ast), expected);
    assert_eq!(analyze(&ast), expected);
}

#[test]
fn distinct_keys_give_no_warning() {
    let ast = vec![bind("a", 0), bind("b", 1), bind("c", 2)];
    assert!(analyze(&ast).is_empty());
    assert!(analyze(&[]).is_empty());
}

#[test]
fn lines_holding_error_are_flagged() {
    let text = "fine\nhas error here\r\nünïcode error\nerr or\n";
    assert_eq!(
        check(text),
        vec![
            diag(1, 14, DiagnosticSeverity::Error, "Sluta the word 'error'"),
            diag(2, 15, DiagnosticSeverity::Error, "Sluta the word 'error'"),
        ]
    );
    assert!(check("").is_empty());
    assert!(check("nothing wrong\n").is_empty());
    // A lone carriage return does not end a line.
    assert_eq!(
        check("a\rerror"),
        vec![diag(0, 7, DiagnosticSeverity::Error, "Sluta the word 'error'")]
    );
}

#[test]
fn completions_offered() {
    let entries = completion_entries();
    let pairs: Vec<(&str, &str)> = entries
        .iter()
        .map(|e| (e.label.as_str(), e.detail.as_str()))
        .collect();
    assert_eq!(
        pairs,
        vec![
            ("bindsym", "Bind a key"),
            ("set", "Set variable"),
            ("exec", "Execute command")
        ]
    );
}

#[test]
fn duplicate_test() {
    let config = r#"# i3 config
                        set $mod Mod4
                        set $term alacritty

                        bindsym $mod+Return exec $term
                        bindsym $mod+Return exec korv
                        exec --no-startup-id nm-applet
                        font pango:monospace 10"#;

    let (_, cfg) = parse_config(config).unwrap();

    let dups = check_for_duplicate_bindings(&cfg);

    assert_eq!(dups.len(), 1);
}

#[test]
fn repeated_bindings_point_at_the_first() {
    let config = "bindsym $mod+Return a\n# c\nbindsym $mod+q b\nbindsym $mod+Return c\nbindsym $mod+q d\nbindsym $mod+Return e\n";
    let (_, cfg) = parse_config(config).unwrap();
    assert_eq!(
        check_for_duplicate_bindings(&cfg),
        vec![
            diag(3, 18, DiagnosticSeverity::Error, "Duplicate key binding: 'global:$mod+Return' (first seen on line 1)"),
            diag(4, 13, DiagnosticSeverity::Error, "Duplicate key binding: 'global:$mod+q' (first seen on line 3)"),
            diag(5, 18, DiagnosticSeverity::Error, "Duplicate key binding: 'global:$mod+Return' (first seen on line 1)"),
        ]
    );
}

#[test]
fn bindings_compare_with_case_and_line_numbers_reach_two_digits() {
    let mut config = String::new();
    for _ in 0..11 {
        config.push_str("# filler\n");
    }
    config.push_str("bindsym q x\nbindsym Q y\nbindsym q z\n");
    let (_, cfg) = parse_config(&config).unwrap();
    assert_eq!(
        check_for_duplicate_bindings(&cfg),
        vec![diag(13, 9, DiagnosticSeverity::Error, "Duplicate key binding: 'global:+q' (first seen on line 12)")]
    );
}

#[test]
fn mode_duplicate_test() {
    let config = r#"# i3 config
                        mode resize {
                            set $mod Mod4
                            bindsym $mod+r mode "default"
                        }

                        bindsym $mod+r mode "resize"
        "#;

    let (_, cfg) = parse_config(config).unwrap();

    let errors = check_for_duplicate_bindings(&cfg);
    assert_eq!(errors.len(), 0);
}

#[test]
fn mode_block_is_read_as_one_line_with_its_body() {
    let config = r#"# i3 config
                        mode resize {
                            set $mod Mod4
                            bindsym $mod+r mode "default"
                        }

                        bindsym $mod+r mode "resize"
        "#;
    let (rest, cfg) = parse_config(config).unwrap();
    assert_eq!(rest, "");
    let bind = |command: &str| ConfigLine::Binding {
        modifiers: vec!["$mod".into()],
        key: "r".into(),
        command: command.into(),
    };
    assert_eq!(
        cfg.lines,
        vec![
            ConfigLine::Comment("i3 config".into()),
            ConfigLine::Mode(I3Configuration {
                lines: vec![
                    ConfigLine::SetVar {
                        name: "mod".into(),
                        value: "Mod4".into()
                    },
                    bind("mode \"default\""),
                ]
            }),
            ConfigLine::EmptyLine,
            bind("mode \"resize\""),
            ConfigLine::RawLine("".into()),
        ]
    );
}

#[test]
fn repeats_inside_one_mode_block_are_reported_with_document_lines() {
    let config = "bindsym x a
mode m {
\n  bindsym x b
  bindsym x c
}
bindsym x d
";
    let (_, cfg) = parse_config(config).unwrap();
    assert_eq!(
        check_for_duplicate_bindings(&cfg),
        vec![
            diag(4, 14, DiagnosticSeverity::Error, "Duplicate key binding: 'mode:global:+x' (first seen on line 4)"),
            diag(6, 9, DiagnosticSeverity::Error, "Duplicate key binding: 'global:+x' (first seen on line 1)"),
        ]
    );
}

#[test]
fn nested_mode_blocks_nest_their_scopes() {
    let config = "mode a {\n mode b {\n  bindsym k x\n }\n bindsym k y\n}\nbindsym k z\n";
    let (_, cfg) = parse_config(config).unwrap();
    let mut out = Vec::new();
    collect_bindings_with_offset(&cfg.lines, 0, "global", &mut out);
    assert_eq!(
        out,
        vec![
            ("mode:mode:global:+k".to_string(), 2),
            ("mode:global:+k".to_string(), 4),
            ("global:+k".to_string(), 6),
        ]
    );
    assert!(check_for_duplicate_bindings(&cfg).is_empty());
}

#[test]
fn mode_body_is_offset_and_scoped() {
    let lines = vec![
        ConfigLine::Mode(I3Configuration {
            lines: vec![ConfigLine::Binding {
                modifiers: vec!["a".into()],
                key: "b".into(),
                command: "c".into(),
            }],
        }),
        ConfigLine::Binding {
            modifiers: vec!["a".into()],
            key: "b".into(),
            command: "d".into(),
        },
    ];
    let mut out = vec![];
    collect_bindings_with_offset(&lines, 0, "global", &mut out);
    assert_eq!(
        out,
        vec![
            ("mode:global:a+b".to_string(), 1),
            ("global:a+b".to_string(), 3)
        ]
    );
}

#[test]
fn mode_block_spans_its_lines() {
    let nested = ConfigLine::Mode(I3Configuration {
        lines: vec![
            ConfigLine::EmptyLine,
            ConfigLine::Mode(I3Configuration { lines: vec![] }),
        ],
    });
    assert_eq!(line_count(&nested), 5);
    assert_eq!(line_count(&ConfigLine::Comment("c".into())), 1);
}

#[test]
fn mode_lines_do_not_declare_variables() {
    let config = "mode m {\n set $v x\n bindsym $v+a b\n}\nbindsym $v+c d\n";
    let (_, cfg) = parse_config(config).unwrap();
    // Only the top-level binding is checked; the `set` inside the block
    // declares nothing for it.
    assert_eq!(
        check_variables(&cfg),
        vec![diag(1, 6, DiagnosticSeverity::Error, "Unknown variable 'v'")]
    );
}

#[test]
fn bindings_are_collected_with_scope_and_line() {
    let lines = vec![
        ConfigLine::EmptyLine,
        ConfigLine::Binding {
            modifiers: vec!["a".into(), "b".into()],
            key: "k".into(),
            command: "c".into(),
        },
        ConfigLine::Comment("x".into()),
        ConfigLine::Binding {
            modifiers: vec![],
            key: "z".into(),
            command: "c".into(),
        },
    ];
    let mut out = vec![("keep".to_string(), 99)];
    collect_bindings_with_offset(&lines, 10, "s", &mut out);
    assert_eq!(
        out,
        vec![
            ("keep".to_string(), 99),
            ("s:a+b+k".to_string(), 11),
            ("s:+z".to_string(), 13)
        ]
    );
    assert_eq!(line_count(&ConfigLine::EmptyLine), 1);
}

#[test]
fn warnings_do_not_depend_on_order_or_other_statements() {
    let ast = vec![bind("a+B", 1), bind("c", 2), bind("A+b", 3), bind("c", 4)];
    let other = vec![
        Statement::Exec {
            command: "x".into(),
            line: 0,
        },
        bind("c", 4),
        Statement::Bindsym {
            key: "A+b".into(),
            command: "different".into(),
            line: 3,
        },
        bind("c", 2),
        bind("a+B", 1),
    ];
    let mut first: Vec<String> = check_duplicate_binds(&ast)
        .into_iter()
        .map(|d| format!("{:?}", d))
        .collect();
    let mut second: Vec<String> = check_duplicate_binds(&other)
        .into_iter()
        .map(|d| format!("{:?}", d))
        .collect();
    assert_eq!(first.len(), 4);
    first.sort();
    second.sort();
    assert_eq!(first, second);
}
