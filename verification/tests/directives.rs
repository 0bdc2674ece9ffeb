use gomod_rs::parser::go_directive::parse_go_directive;
use gomod_rs::parser::godebug_directive::parse_godebug_directive;
use gomod_rs::parser::module_directive::parse_module_directive;
use gomod_rs::parser::replace_directive::{parse_replace_directive, parse_replace_spec};
use gomod_rs::parser::require_directive::parse_require_directive;
use gomod_rs::parser::retract_directive::parse_retract_directive;
use gomod_rs::parser::toolchain_directive::parse_toolchain_directive;
use gomod_rs::{Context, Directive, Identifier, Location, Replacement, ReplaceSpec, RetractSpec};

fn comments(texts: &[&str]) -> Vec<Vec<u8>> {
    texts.iter().map(|t| t.as_bytes().to_vec()).collect()
}

#[test]
fn test_go() {
    let s = "\n// heheda\ngo \"1.4.5\\\"rc1\" // inline\n";
    let (p, ret) = parse_go_directive(s.as_bytes(), 0).unwrap();
    assert_eq!(p, s.len());
    assert_eq!(
        ret,
        Context {
            range: (
                Location { line: 3, offset: 11 },
                Location { line: 4, offset: 37 },
            ),
            comments: comments(&[" heheda", " inline"]),
            value: Directive::Go {
                version: Identifier::Interpreted(b"1.4.5\"rc1".to_vec()),
            },
        }
    );
}

#[test]
fn test_toolchain() {
    let s = "\n// heheda\ntoolchain go1.21.3+auto // inline\n";
    let (p, ret) = parse_toolchain_directive(s.as_bytes(), 0).unwrap();
    assert_eq!(p, s.len());
    assert_eq!(
        ret,
        Context {
            range: (
                Location { line: 3, offset: 11 },
                Location { line: 4, offset: 45 },
            ),
            comments: comments(&[" heheda", " inline"]),
            value: Directive::Toolchain {
                name: Identifier::Raw(b"go1.21.3+auto".to_vec()),
            },
        }
    );
}

#[test]
fn test_module() {
    let s = r#"
// heheda
// Deprecated: use *** instead.
module ( 
// abc
// def
    `rsdf/sf-f/s8._~` // inline
    // ghi
   ) // trailing
"#;
    let (p, ret) = parse_module_directive(s.as_bytes(), 0).unwrap();
    assert_eq!(p, s.len());
    assert_eq!(
        ret,
        Context {
            range: (
                Location { line: 4, offset: 43 },
                Location { line: 10, offset: 127 },
            ),
            comments: comments(&[
                " heheda",
                " Deprecated: use *** instead.",
                " abc",
                " def",
                " inline",
                " ghi",
                " trailing",
            ]),
            value: Directive::Module {
                path: b"rsdf/sf-f/s8._~".to_vec(),
            },
        }
    );
}

#[test]
fn test_require() {
    let s = r#"
        // start require
        require ( // start specs
    golang.org/x/crypto v1.4.5 // indirect
    // mm
    golang.org/x/text v1.6.7
    // end specs
 ) // end require
"#;
    let (p, ret) = parse_require_directive(s.as_bytes(), 0).unwrap();
    assert_eq!(p, s.len());
    assert_eq!(
        ret,
        Context {
            range: (
                Location { line: 3, offset: 34 },
                Location { line: 9, offset: 176 },
            ),
            comments: comments(&[" start require", " start specs", " end specs", " end require"]),
            value: Directive::Require {
                specs: vec![
                    Context {
                        range: (
                            Location { line: 4, offset: 63 },
                            Location { line: 5, offset: 102 },
                        ),
                        comments: comments(&[" indirect"]),
                        value: (b"golang.org/x/crypto".to_vec(), Identifier::Raw(b"v1.4.5".to_vec())),
                    },
                    Context {
                        range: (
                            Location { line: 6, offset: 116 },
                            Location { line: 7, offset: 141 },
                        ),
                        comments: comments(&[" mm"]),
                        value: (b"golang.org/x/text".to_vec(), Identifier::Raw(b"v1.6.7".to_vec())),
                    },
                ],
            },
        }
    );
}

#[test]
fn test_retract() {
    let s = r#"
        // start retract
        retract ( // start specs
    v1.0.0 // aaa
    // bbb
    [v1.0.0, v1.9.9] // ccc
    // end specs
) // end retract
"#;
    let (p, ret) = parse_retract_directive(s.as_bytes(), 0).unwrap();
    assert_eq!(p, s.len());
    assert_eq!(
        ret,
        Context {
            range: (
                Location { line: 3, offset: 34 },
                Location { line: 9, offset: 150 },
            ),
            comments: comments(&[" start retract", " start specs", " end specs", " end retract"]),
            value: Directive::Retract {
                specs: vec![
                    Context {
                        range: (
                            Location { line: 4, offset: 63 },
                            Location { line: 5, offset: 77 },
                        ),
                        comments: comments(&[" aaa"]),
                        value: RetractSpec::Version(Identifier::Raw(b"v1.0.0".to_vec())),
                    },
                    Context {
                        range: (
                            Location { line: 6, offset: 92 },
                            Location { line: 7, offset: 116 },
                        ),
                        comments: comments(&[" bbb", " ccc"]),
                        value: RetractSpec::Range((
                            Identifier::Raw(b"v1.0.0".to_vec()),
                            Identifier::Raw(b"v1.9.9".to_vec()),
                        )),
                    },
                ],
            },
        }
    );
}

#[test]
fn test_godebug() {
    let s = r#"
        // hehe
        // start godebug
        godebug ( // start specs
        // abc
    //
    "panicnil"=1 // spec1
    // ghi

    asynctimerchan=`0` // spec2
    // jkl
 ) // end godebug
"#;
    let (p, ret) = parse_godebug_directive(s.as_bytes(), 0).unwrap();
    assert_eq!(p, s.len());
    assert_eq!(
        ret,
        Context {
            range: (
                Location { line: 4, offset: 50 },
                Location { line: 13, offset: 196 },
            ),
            comments: comments(&[
                " hehe",
                " start godebug",
                " start specs",
                " jkl",
                " end godebug",
            ]),
            value: Directive::Godebug {
                specs: vec![
                    Context {
                        range: (
                            Location { line: 7, offset: 101 },
                            Location { line: 8, offset: 123 },
                        ),
                        comments: comments(&[" abc", "", " spec1"]),
                        value: (b"panicnil".to_vec(), b"1".to_vec()),
                    },
                    Context {
                        range: (
                            Location { line: 10, offset: 139 },
                            Location { line: 11, offset: 167 },
                        ),
                        comments: comments(&[" ghi", " spec2"]),
                        value: (b"asynctimerchan".to_vec(), b"0".to_vec()),
                    },
                ],
            },
        }
    );
}

#[test]
fn test_replace_spec() {
    let s = "golang.org/x/net v1.2.3 => example.com/fork/net v1.4.5 // sfsdff";
    let (p, ret) = parse_replace_spec(s.as_bytes(), 0).unwrap();
    assert_eq!(p, s.len());
    assert_eq!(
        ret,
        Context {
            range: (
                Location { line: 1, offset: 0 },
                Location { line: 1, offset: 64 },
            ),
            comments: comments(&[" sfsdff"]),
            value: ReplaceSpec {
                path: b"golang.org/x/net".to_vec(),
                version: Some(Identifier::Raw(b"v1.2.3".to_vec())),
                replacement: Replacement::Module((
                    b"example.com/fork/net".to_vec(),
                    Identifier::Raw(b"v1.4.5".to_vec()),
                )),
            },
        }
    );
}

#[test]
fn test_replace() {
    let s = r#"
        // start replace
        replace ( // start specs
    golang.org/x/net v1.2.3 => example.com/fork/net v1.4.5 //aa
    // bb
    golang.org/x/net => example.com/fork/net v1.4.5 // bbb
    
    golang.org/x/net v1.2.3 => ./fork/net //cc
    golang.org/x/net => ./fork/net //dd
    // trailing comments
) // end specs"#;
    let (p, ret) = parse_replace_directive(s.as_bytes(), 0).unwrap();
    assert_eq!(p, s.len());
    assert_eq!(
        ret,
        Context {
            range: (
                Location { line: 3, offset: 34 },
                Location { line: 11, offset: 323 },
            ),
            comments: comments(&[
                " start replace",
                " start specs",
                " trailing comments",
                " end specs",
            ]),
            value: Directive::Replace {
                specs: vec![
                    Context {
                        range: (
                            Location { line: 4, offset: 63 },
                            Location { line: 5, offset: 123 },
                        ),
                        comments: comments(&["aa"]),
                        value: ReplaceSpec {
                            path: b"golang.org/x/net".to_vec(),
                            version: Some(Identifier::Raw(b"v1.2.3".to_vec())),
                            replacement: Replacement::Module((
                                b"example.com/fork/net".to_vec(),
                                Identifier::Raw(b"v1.4.5".to_vec()),
                            )),
                        },
                    },
                    Context {
                        range: (
                            Location { line: 6, offset: 137 },
                            Location { line: 7, offset: 192 },
                        ),
                        comments: comments(&[" bb", " bbb"]),
                        value: ReplaceSpec {
                            path: b"golang.org/x/net".to_vec(),
                            version: None,
                            replacement: Replacement::Module((
                                b"example.com/fork/net".to_vec(),
                                Identifier::Raw(b"v1.4.5".to_vec()),
                            )),
                        },
                    },
                    Context {
                        range: (
                            Location { line: 8, offset: 201 },
                            Location { line: 9, offset: 244 },
                        ),
                        comments: comments(&["cc"]),
                        value: ReplaceSpec {
                            path: b"golang.org/x/net".to_vec(),
                            version: Some(Identifier::Raw(b"v1.2.3".to_vec())),
                            replacement: Replacement::FilePath(Identifier::Raw(
                                b"./fork/net".to_vec(),
                            )),
                        },
                    },
                    Context {
                        range: (
                            Location { line: 9, offset: 248 },
                            Location { line: 10, offset: 284 },
                        ),
                        comments: comments(&["dd"]),
                        value: ReplaceSpec {
                            path: b"golang.org/x/net".to_vec(),
                            version: None,
                            replacement: Replacement::FilePath(Identifier::Raw(
                                b"./fork/net".to_vec(),
                            )),
                        },
                    },
                ],
            },
        }
    );
}
