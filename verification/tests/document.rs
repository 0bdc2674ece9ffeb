use gomod_rs::{parse_gomod, Context, Directive, Identifier, Location, ParseError, Replacement,
    ReplaceSpec, RetractSpec};

fn comments(texts: &[&str]) -> Vec<Vec<u8>> {
    texts.iter().map(|t| t.as_bytes().to_vec()).collect()
}

#[test]
fn test_gomod() {
    let s = r#"
module example.com/my/thing

go 1.12

require (
    example.com/other/thing v1.0.2
    example.com/new/thing/v2 v2.3.4
)

exclude example.com/old/thing v1.2.3
replace example.com/bad/thing v1.4.5 => example.com/good/thing v1.4.5
retract [v1.9.0, v1.9.5]"#;
    let (p, ret) = gomod_rs::parser::parse_gomod(s.as_bytes(), 0).unwrap();
    assert_eq!(p, s.len());
    assert_eq!(
        ret,
        vec![
            Context {
                range: (
                    Location { line: 2, offset: 1 },
                    Location { line: 3, offset: 29 },
                ),
                comments: vec![],
                value: Directive::Module {
                    path: b"example.com/my/thing".to_vec(),
                },
            },
            Context {
                range: (
                    Location { line: 4, offset: 30 },
                    Location { line: 5, offset: 38 },
                ),
                comments: vec![],
                value: Directive::Go {
                    version: Identifier::Raw(b"1.12".to_vec()),
                },
            },
            Context {
                range: (
                    Location { line: 6, offset: 39 },
                    Location { line: 10, offset: 122 },
                ),
                comments: vec![],
                value: Directive::Require {
                    specs: vec![
                        Context {
                            range: (
                                Location { line: 7, offset: 53 },
                                Location { line: 8, offset: 84 },
                            ),
                            comments: vec![],
                            value: (
                                b"example.com/other/thing".to_vec(),
                                Identifier::Raw(b"v1.0.2".to_vec()),
                            ),
                        },
                        Context {
                            range: (
                                Location { line: 8, offset: 88 },
                                Location { line: 9, offset: 120 },
                            ),
                            comments: vec![],
                            value: (
                                b"example.com/new/thing/v2".to_vec(),
                                Identifier::Raw(b"v2.3.4".to_vec()),
                            ),
                        },
                    ],
                },
            },
            Context {
                range: (
                    Location { line: 11, offset: 123 },
                    Location { line: 12, offset: 160 },
                ),
                comments: vec![],
                value: Directive::Exclude {
                    specs: vec![Context {
                        range: (
                            Location { line: 11, offset: 131 },
                            Location { line: 12, offset: 160 },
                        ),
                        comments: vec![],
                        value: (
                            b"example.com/old/thing".to_vec(),
                            Identifier::Raw(b"v1.2.3".to_vec()),
                        ),
                    }],
                },
            },
            Context {
                range: (
                    Location { line: 12, offset: 160 },
                    Location { line: 13, offset: 230 },
                ),
                comments: vec![],
                value: Directive::Replace {
                    specs: vec![Context {
                        range: (
                            Location { line: 12, offset: 168 },
                            Location { line: 13, offset: 230 },
                        ),
                        comments: vec![],
                        value: ReplaceSpec {
                            path: b"example.com/bad/thing".to_vec(),
                            version: Some(Identifier::Raw(b"v1.4.5".to_vec())),
                            replacement: Replacement::Module((
                                b"example.com/good/thing".to_vec(),
                                Identifier::Raw(b"v1.4.5".to_vec()),
                            )),
                        },
                    }],
                },
            },
            Context {
                range: (
                    Location { line: 13, offset: 230 },
                    Location { line: 13, offset: 254 },
                ),
                comments: vec![],
                value: Directive::Retract {
                    specs: vec![Context {
                        range: (
                            Location { line: 13, offset: 238 },
                            Location { line: 13, offset: 254 },
                        ),
                        comments: vec![],
                        value: RetractSpec::Range((
                            Identifier::Raw(b"v1.9.0".to_vec()),
                            Identifier::Raw(b"v1.9.5".to_vec()),
                        )),
                    }],
                },
            },
        ]
    );
}

#[test]
fn quoting_transparency() {
    for s in ["go v1.0.0\n", "go `v1.0.0`\n", "go \"v1.0.0\"\n"] {
        let doc = parse_gomod(s.as_bytes()).unwrap();
        assert_eq!(doc.len(), 1);
        match &doc[0].value {
            Directive::Go { version } => assert_eq!(version.value(), &b"v1.0.0".to_vec()),
            other => panic!("not a go directive: {:?}", other),
        }
    }
}

#[test]
fn interpreted_string_escapes() {
    let s = "go \"abc\\n\\r\\f\\\"dd\"\n";
    let doc = parse_gomod(s.as_bytes()).unwrap();
    match &doc[0].value {
        Directive::Go { version } => {
            assert_eq!(version, &Identifier::Interpreted(b"abcnrf\"dd".to_vec()));
        },
        other => panic!("not a go directive: {:?}", other),
    }
}

#[test]
fn comment_attachment() {
    let s = "// start\nrequire ( // open\n    example.com/a v1.0.0 // inline\n) // close\n";
    let doc = parse_gomod(s.as_bytes()).unwrap();
    assert_eq!(doc.len(), 1);
    assert_eq!(doc[0].comments, comments(&[" start", " open", " close"]));
    match &doc[0].value {
        Directive::Require { specs } => {
            assert_eq!(specs.len(), 1);
            assert_eq!(specs[0].comments, comments(&[" inline"]));
        },
        other => panic!("not a require directive: {:?}", other),
    }
}

#[test]
fn end_to_end_offsets() {
    let s = "module example.com/my/thing\n\ngo 1.12\n\nrequire (\n    example.com/other/thing v1.0.2\n    example.com/new/thing/v2 v2.3.4\n)\n";
    let doc = parse_gomod(s.as_bytes()).unwrap();
    assert_eq!(doc.len(), 3);
    assert_eq!(doc[0].range.0.offset, s.find("module").unwrap());
    assert_eq!(doc[1].range.0.offset, s.find("go 1.12").unwrap());
    assert_eq!(doc[2].range.0.offset, s.find("require").unwrap());
    assert_eq!(doc[2].range.1.offset, s.len());
    match &doc[0].value {
        Directive::Module { path } => assert_eq!(path, &b"example.com/my/thing".to_vec()),
        other => panic!("unexpected: {:?}", other),
    }
    match &doc[1].value {
        Directive::Go { version } => assert_eq!(version.value(), &b"1.12".to_vec()),
        other => panic!("unexpected: {:?}", other),
    }
    match &doc[2].value {
        Directive::Require { specs } => {
            assert_eq!(specs.len(), 2);
            assert_eq!(specs[0].value.0, b"example.com/other/thing".to_vec());
            assert_eq!(specs[0].value.1, Identifier::Raw(b"v1.0.2".to_vec()));
            assert_eq!(specs[1].value.0, b"example.com/new/thing/v2".to_vec());
            assert_eq!(specs[1].value.1, Identifier::Raw(b"v2.3.4".to_vec()));
            // each entry's slice lies inside the directive's slice
            assert_eq!(
                &s[specs[0].range.0.offset..specs[0].range.1.offset],
                "example.com/other/thing v1.0.2\n"
            );
        },
        other => panic!("unexpected: {:?}", other),
    }
    // the directive ranges tile the document in order
    assert!(doc[0].range.1.offset <= doc[1].range.0.offset);
    assert!(doc[1].range.1.offset <= doc[2].range.0.offset);
}

#[test]
fn malformed_require_reports_version_position() {
    let s = "require foo\n";
    let err = parse_gomod(s.as_bytes()).unwrap_err();
    assert_eq!(err, ParseError { line: 1, offset: 11 });
    assert!(err.offset < s.len());
}

#[test]
fn reparse_directive_slice() {
    let s = "module example.com/my/thing\n\nrequire (\n    example.com/other/thing v1.0.2 // pinned\n)\n\ngo 1.12\n";
    let doc = parse_gomod(s.as_bytes()).unwrap();
    let dir = &doc[1];
    let base = dir.range.0.offset;
    let line_base = dir.range.0.line - 1;
    let slice = &s.as_bytes()[base..dir.range.1.offset];
    let again = parse_gomod(slice).unwrap();
    assert_eq!(again.len(), 1);
    let re = &again[0];
    assert_eq!(re.range.0.offset, 0);
    assert_eq!(re.range.1.offset, dir.range.1.offset - base);
    assert_eq!(re.range.0.line, dir.range.0.line - line_base);
    assert_eq!(re.range.1.line, dir.range.1.line - line_base);
    assert_eq!(re.comments, dir.comments);
    match (&re.value, &dir.value) {
        (Directive::Require { specs: s2 }, Directive::Require { specs: s1 }) => {
            assert_eq!(s1.len(), s2.len());
            for (a, b) in s1.iter().zip(s2.iter()) {
                assert_eq!(a.value, b.value);
                assert_eq!(a.comments, b.comments);
                assert_eq!(b.range.0.offset, a.range.0.offset - base);
                assert_eq!(b.range.1.offset, a.range.1.offset - base);
                assert_eq!(b.range.0.line, a.range.0.line - line_base);
                assert_eq!(b.range.1.line, a.range.1.line - line_base);
            }
        },
        other => panic!("unexpected: {:?}", other),
    }
}

#[test]
fn empty_and_comment_only_documents_are_refused() {
    assert_eq!(
        parse_gomod(b"").unwrap_err(),
        ParseError { line: 1, offset: 0 }
    );
    let s = "// a comment\n\n";
    assert_eq!(
        parse_gomod(s.as_bytes()).unwrap_err(),
        ParseError { line: 3, offset: s.len() }
    );
}

#[test]
fn leftover_text_is_refused() {
    let s = "go 1.12\n???\n";
    let err = parse_gomod(s.as_bytes()).unwrap_err();
    assert_eq!(err.offset, 8);
    assert_eq!(err.line, 2);
}

#[test]
fn repeated_directives_stay_separate() {
    let s = "require a v1.0.0\nrequire b v2.0.0\n";
    let doc = parse_gomod(s.as_bytes()).unwrap();
    assert_eq!(doc.len(), 2);
    for d in &doc {
        assert!(matches!(d.value, Directive::Require { .. }));
    }
}

#[test]
fn exclude_inline() {
    let s = "exclude example.com/old/thing v1.2.3\n";
    let doc = parse_gomod(s.as_bytes()).unwrap();
    assert_eq!(doc.len(), 1);
    match &doc[0].value {
        Directive::Exclude { specs } => {
            assert_eq!(specs.len(), 1);
            assert_eq!(specs[0].value.0, b"example.com/old/thing".to_vec());
            assert_eq!(specs[0].value.1, Identifier::Raw(b"v1.2.3".to_vec()));
        },
        other => panic!("unexpected: {:?}", other),
    }
}

#[test]
fn godebug_inline_quoted_key() {
    let s = "godebug `panicnil` = \"1\"\n";
    let doc = parse_gomod(s.as_bytes()).unwrap();
    match &doc[0].value {
        Directive::Godebug { specs } => {
            assert_eq!(specs.len(), 1);
            assert_eq!(specs[0].value, (b"panicnil".to_vec(), b"1".to_vec()));
        },
        other => panic!("unexpected: {:?}", other),
    }
}

#[test]
fn module_inline_quoted_path() {
    for s in [
        "module example.com/my/thing\n",
        "module \"example.com/my/thing\"\n",
        "module `example.com/my/thing`\n",
    ] {
        let doc = parse_gomod(s.as_bytes()).unwrap();
        match &doc[0].value {
            Directive::Module { path } => assert_eq!(path, &b"example.com/my/thing".to_vec()),
            other => panic!("unexpected: {:?}", other),
        }
    }
}

#[test]
fn retract_inline_single_version() {
    let s = "retract v1.0.0\n";
    let doc = parse_gomod(s.as_bytes()).unwrap();
    match &doc[0].value {
        Directive::Retract { specs } => {
            assert_eq!(specs.len(), 1);
            assert_eq!(
                specs[0].value,
                RetractSpec::Version(Identifier::Raw(b"v1.0.0".to_vec()))
            );
        },
        other => panic!("unexpected: {:?}", other),
    }
}

#[test]
fn carriage_returns_are_delimiters() {
    let s = "module example.com/a\r\ngo 1.21\r\n";
    let doc = parse_gomod(s.as_bytes()).unwrap();
    assert_eq!(doc.len(), 2);
    match &doc[1].value {
        Directive::Go { version } => assert_eq!(version.value(), &b"1.21".to_vec()),
        other => panic!("unexpected: {:?}", other),
    }
}

#[test]
fn replace_inline_file_path() {
    let s = "replace example.com/a => ../local/a\n";
    let doc = parse_gomod(s.as_bytes()).unwrap();
    match &doc[0].value {
        Directive::Replace { specs } => {
            assert_eq!(specs.len(), 1);
            assert_eq!(specs[0].value.path, b"example.com/a".to_vec());
            assert_eq!(specs[0].value.version, None);
            assert_eq!(
                specs[0].value.replacement,
                Replacement::FilePath(Identifier::Raw(b"../local/a".to_vec()))
            );
        },
        other => panic!("unexpected: {:?}", other),
    }
}
