use gomod_rs::parser::{parse_identifier, parse_inline_comment};
use gomod_rs::{Identifier, Sundry};

#[test]
fn test_inline_comment() {
    for s in ["// sdfsfs\n", "// sdfsfs", "  // sdfsfs\n", "  // sdfsfs"] {
        let (p, ret) = parse_inline_comment(s.as_bytes(), 0).unwrap();
        assert!(matches!(ret, Sundry::Comment(i) if i == b" sdfsfs".to_vec()));
        assert_eq!(p, s.len());
    }
    for s in ["//", "//\n", "  //", "  //\n"] {
        let (p, ret) = parse_inline_comment(s.as_bytes(), 0).unwrap();
        assert_eq!(p, s.len());
        assert!(matches!(ret, Sundry::Comment(i) if i.is_empty()));
    }
    for s in ["  ", "\n", "  \n"] {
        let (p, ret) = parse_inline_comment(s.as_bytes(), 0).unwrap();
        assert_eq!(p, s.len());
        assert!(matches!(ret, Sundry::Empty));
    }
    let (p, ret) = parse_inline_comment(b"", 0).unwrap();
    assert_eq!(p, 0);
    assert!(matches!(ret, Sundry::EOF));
}

#[test]
fn test_identifier() {
    for s in [r#"`v1.0.0`"#, "v1.0.0", r#""v1.0.0""#] {
        let (p, ret) = parse_identifier(s.as_bytes(), 0).unwrap();
        assert_eq!(ret.value(), &b"v1.0.0".to_vec());
        assert_eq!(p, s.len());
    }
    let s = r#""abc\n\r\f\"dd""#;
    let (p, ret) = parse_identifier(s.as_bytes(), 0).unwrap();
    assert_eq!(ret, Identifier::Interpreted(b"abcnrf\"dd".to_vec()));
    assert_eq!(p, s.len());
}
