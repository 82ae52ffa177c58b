use env_file::env_file::EnvFile;
use env_file::env_map::EnvMap;
use env_file::row::{EnvFileRow, ParseError};

fn b(s: &str) -> Vec<u8> {
    s.as_bytes().to_vec()
}

fn parse_ok(s: &str) -> EnvFile {
    match EnvFile::parse(&b(s)) {
        Ok(f) => f,
        Err(_) => panic!("expected the text to parse"),
    }
}

fn render_str(f: &EnvFile) -> String {
    String::from_utf8(f.render()).unwrap()
}

#[test]
fn round_trip_identity() {
    let text = "# leading comment\nKEY=value\nKEY2=\"quoted value with # not a comment\"\nKEY3='single quoted'\n\n# more comments\nKEY4=\n";
    let f = parse_ok(text);
    assert_eq!(render_str(&f), text);
}

#[test]
fn round_trip_no_trailing_newline() {
    let text = "A=1\nB=2";
    let f = parse_ok(text);
    assert_eq!(render_str(&f), text);
}

#[test]
fn round_trip_empty_text() {
    let f = parse_ok("");
    assert_eq!(render_str(&f), "");
    assert_eq!(f.env().len(), 0);
}

#[test]
fn round_trip_whitespace_and_odd_comments() {
    // Whitespace-only lines, comments without the conventional space, and
    // indented comments all come back byte-identical.
    let text = "  \n#tight\n   # indented\nK=v  \n";
    let f = parse_ok(text);
    assert_eq!(render_str(&f), text);
}

#[test]
fn comment_blank_preservation() {
    let text = "# first\n\nA=1\n# second\n\nB=2\n";
    let f = parse_ok(text);
    let rows = f.stream();
    assert_eq!(rows.len(), 6);
    match &rows[0] {
        EnvFileRow::CommentOnly(c) => assert_eq!(c.text, b("first")),
        _ => panic!("expected a comment row"),
    }
    assert!(matches!(&rows[1], EnvFileRow::Empty(_)));
    match &rows[2] {
        EnvFileRow::Declaration(d) => {
            assert_eq!(d.name, b("A"));
            assert_eq!(d.value, b("1"));
        }
        _ => panic!("expected a declaration row"),
    }
    match &rows[3] {
        EnvFileRow::CommentOnly(c) => assert_eq!(c.text, b("second")),
        _ => panic!("expected a comment row"),
    }
    assert!(matches!(&rows[4], EnvFileRow::Empty(_)));
    assert!(matches!(&rows[5], EnvFileRow::Declaration(_)));
    // Rendering without modification preserves everything exactly.
    assert_eq!(render_str(&f), text);
    // The stream is restartable: reading it again sees the same rows.
    assert_eq!(f.stream().len(), 6);
}

#[test]
fn merge_non_overwrite() {
    let mut out = EnvMap::new();
    out.insert(b("A"), b("1"));
    let mut input = EnvMap::new();
    input.insert(b("A"), b("2"));
    input.insert(b("B"), b("3"));
    out.merge_from(&input, false);
    assert_eq!(out.get(&b("A")).unwrap(), &b("1"));
    assert_eq!(out.get(&b("B")).unwrap(), &b("3"));
    assert_eq!(out.len(), 2);
}

#[test]
fn merge_overwrite() {
    let mut out = EnvMap::new();
    out.insert(b("A"), b("1"));
    let mut input = EnvMap::new();
    input.insert(b("A"), b("2"));
    input.insert(b("B"), b("3"));
    out.merge_from(&input, true);
    assert_eq!(out.get(&b("A")).unwrap(), &b("2"));
    assert_eq!(out.get(&b("B")).unwrap(), &b("3"));
    assert_eq!(out.len(), 2);
}

#[test]
fn apply_assign_feeds_apply() {
    // apply_assign updates the document-level mapping that apply renders.
    let mut f = parse_ok("A=1\n");
    let mut input = EnvMap::new();
    input.insert(b("A"), b("2"));
    input.insert(b("B"), b("3"));
    f.apply_assign(&input, false);
    let out = f.apply(&EnvMap::new(), true);
    assert_eq!(render_str(&out), "A=1\nB=3\n");
    let mut g = parse_ok("A=1\n");
    g.apply_assign(&input, true);
    let out2 = g.apply(&EnvMap::new(), true);
    assert_eq!(render_str(&out2), "A=2\nB=3\n");
}

#[test]
fn missing_key_inclusion() {
    let f = parse_ok("A=1\n");
    let mut m = EnvMap::new();
    m.insert(b("B"), b("2"));
    let with = f.apply(&m, true);
    assert_eq!(render_str(&with), "A=1\nB=2\n");
    let without = f.apply(&m, false);
    assert_eq!(render_str(&without), "A=1\n");
}

#[test]
fn last_write_wins() {
    let f = parse_ok("A=1\n# noise\nA=2\n");
    let env = f.env();
    assert_eq!(env.get(&b("A")).unwrap(), &b("2"));
    assert_eq!(env.len(), 1);
}

#[test]
fn error_key_starting_with_digit() {
    match EnvFile::parse(&b("GOOD=1\n1BAD=x\n")) {
        Err(ParseError::InvalidKey(line)) => assert_eq!(line, b("1BAD=x")),
        _ => panic!("expected an invalid-key error"),
    }
}

#[test]
fn error_unterminated_quote() {
    match EnvFile::parse(&b("KEY=\"unterminated\n")) {
        Err(ParseError::UnterminatedQuote(line)) => assert_eq!(line, b("KEY=\"unterminated")),
        _ => panic!("expected an unterminated-quote error"),
    }
    match EnvFile::parse(&b("KEY='open\n")) {
        Err(ParseError::UnterminatedQuote(_)) => {}
        _ => panic!("expected an unterminated-quote error"),
    }
}

#[test]
fn error_missing_equals() {
    match EnvFile::parse(&b("JUSTAWORD\n")) {
        Err(ParseError::MissingEquals(line)) => assert_eq!(line, b("JUSTAWORD")),
        _ => panic!("expected a missing-equals error"),
    }
}

#[test]
fn error_trailing_characters() {
    match EnvFile::parse(&b("K=\"v\" junk\n")) {
        Err(ParseError::TrailingChars(_)) => {}
        _ => panic!("expected a trailing-characters error"),
    }
}

#[test]
fn error_bad_key_characters() {
    assert!(EnvFile::parse(&b("BAD KEY=1\n")).is_err());
    assert!(EnvFile::parse(&b("=1\n")).is_err());
    assert!(EnvFile::parse(&b("A-B=1\n")).is_err());
}

#[test]
fn value_syntax() {
    let f = parse_ok("A=\"a b # c\"\nB=\"say \\\"hi\\\"\"\nC='lit \\ eral'\nD= spaced out  \nE=v # note\nF=\n");
    let env = f.env();
    assert_eq!(env.get(&b("A")).unwrap(), &b("a b # c"));
    assert_eq!(env.get(&b("B")).unwrap(), &b("say \"hi\""));
    assert_eq!(env.get(&b("C")).unwrap(), &b("lit \\ eral"));
    assert_eq!(env.get(&b("D")).unwrap(), &b("spaced out"));
    assert_eq!(env.get(&b("E")).unwrap(), &b("v"));
    assert_eq!(env.get(&b("F")).unwrap(), &b(""));
}

#[test]
fn quoted_value_with_inline_comment() {
    let text = "K=\"v\" # kept\n";
    let f = parse_ok(text);
    assert_eq!(f.env().get(&b("K")).unwrap(), &b("v"));
    assert_eq!(render_str(&f), text);
}

#[test]
fn apply_keeps_unchanged_formatting() {
    let text = "K=\"x\" # note\nL='y'\n";
    let f = parse_ok(text);
    let mut m = EnvMap::new();
    m.insert(b("K"), b("x"));
    m.insert(b("L"), b("y"));
    let same = f.apply(&m, true);
    assert_eq!(render_str(&same), text);
    let mut m2 = EnvMap::new();
    m2.insert(b("K"), b("z"));
    let changed = f.apply(&m2, true);
    assert_eq!(render_str(&changed), "K=z\nL='y'\n");
}

#[test]
fn map_get_and_insert() {
    let mut m = EnvMap::new();
    assert!(m.get(&b("A")).is_none());
    m.insert(b("A"), b("1"));
    m.insert(b("A"), b("2"));
    assert_eq!(m.len(), 1);
    assert_eq!(m.get(&b("A")).unwrap(), &b("2"));
    assert!(m.contains(&b("A")));
    assert!(!m.contains(&b("B")));
    assert_eq!(m.key_at(0), &b("A"));
    assert_eq!(m.value_at(0), &b("2"));
    let d = m.duplicate();
    assert_eq!(d.get(&b("A")).unwrap(), &b("2"));
}

#[test]
fn duplicate_keys_tolerated_with_last_write_wins() {
    // Duplicates are not rejected; the mapping keeps the last value, and
    // plain rendering still reproduces the text exactly.
    let text = "A=1\nA=2\n";
    let f = parse_ok(text);
    assert_eq!(f.env().get(&b("A")).unwrap(), &b("2"));
    assert_eq!(render_str(&f), text);
}

#[test]
fn parse_error_carries_line() {
    match EnvFile::parse(&b("OK=1\n???\n")) {
        Err(e) => assert_eq!(e.line(), &b("???")),
        Ok(_) => panic!("expected an error"),
    }
}
