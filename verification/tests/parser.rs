use std::ops::Range;

use cmdline_parser::{parse_single, unix, windows, Parser};

fn unix_tokens(cmd: &str) -> Vec<(Range<usize>, String)> {
    let mut parser = unix::Parser::new(cmd);
    let mut out = Vec::new();
    while let Some(t) = parser.next() {
        out.push(t);
    }
    out
}

fn windows_tokens(cmd: &str) -> Vec<(Range<usize>, String)> {
    let mut parser = windows::Parser::new(cmd);
    let mut out = Vec::new();
    while let Some(t) = parser.next() {
        out.push(t);
    }
    out
}

#[test]
fn unix_parser() {
    let parse = unix_tokens;

    // no quoting and simple escaping
    assert_eq!(
        parse(r"arg1 arg\2 arg3\ arg4  arg5 \a\r\g\\6"),
        [
            (0..4, r"arg1".into()),
            (5..10, r"arg2".into()),
            (11..21, r"arg3 arg4".into()),
            (23..27, r"arg5".into()),
            (28..37, r"arg\6".into()),
        ]
    );

    // single quoting
    assert_eq!(
        parse(r#"'arg 1' 'arg '2 'arg\3' 'arg\\4' 'arg"5' '\'arg6"#),
        [
            (0..7, r#"arg 1"#.into()),
            (8..15, r#"arg 2"#.into()),
            (16..23, r#"arg\3"#.into()),
            (24..32, r#"arg\\4"#.into()),
            (33..40, r#"arg"5"#.into()),
            (41..48, r#"\arg6"#.into()),
        ]
    );

    // double quoting
    assert_eq!(
        parse(r#""arg 1" "arg "2 "arg\3" "arg\\4" "arg'5" "arg\"6""#),
        [
            (0..7, r#"arg 1"#.into()),
            (8..15, r#"arg 2"#.into()),
            (16..23, r#"arg\3"#.into()),
            (24..32, r#"arg\4"#.into()),
            (33..40, r#"arg'5"#.into()),
            (41..49, r#"arg"6"#.into()),
        ]
    );

    // emtpy arguments
    assert_eq!(parse(r#"'' """#), [(0..2, r"".into()), (3..5, r"".into())]);

    // unfinished escaping
    assert_eq!(parse(r#"a\"#), [(0..2, r"a".into())]);

    // unfinished quoting (causes an error in a real shell)
    assert_eq!(parse(r#""a"#), [(0..2, "a".into())]);
    assert_eq!(parse(r#"'a"#), [(0..2, "a".into())]);
}

#[test]
fn windows_parser() {
    let parse = windows_tokens;

    // no quoting, escaping should have no effect
    assert_eq!(
        parse(r"arg1 arg\2 arg3\ arg4  arg5"),
        [
            (0..4, r"arg1".into()),
            (5..10, r"arg\2".into()),
            (11..16, r"arg3\".into()),
            (17..21, r"arg4".into()),
            (23..27, r"arg5".into()),
        ]
    );

    // quoting and escaped quotes
    assert_eq!(
        parse(r#""arg 1" "arg "2 "arg\3" "arg\\4" "arg\"5""#),
        [
            (0..7, r#"arg 1"#.into()),
            (8..15, r#"arg 2"#.into()),
            (16..23, r#"arg\3"#.into()),
            (24..32, r#"arg\4"#.into()),
            (33..41, r#"arg"5"#.into()),
        ]
    );

    // emtpy arguments
    assert_eq!(parse(r#""" """#), [(0..2, r"".into()), (3..5, r"".into())]);

    // unfinished quoting
    assert_eq!(parse(r#""a"#), [(0..2, "a".into())]);

    // unfinished escaping
    assert_eq!(parse(r#""a\"#), [(0..3, r"a\".into())]);
    assert_eq!(parse(r#""a\""#), [(0..4, r#"a""#.into())]);
}

#[test]
fn multiple_separators() {
    let mut parser = windows::Parser::new("arg1|arg 2:arg3");
    parser.set_separators(&['|', ':']);

    let mut tokens = Vec::new();
    while let Some(t) = parser.next() {
        tokens.push(t);
    }
    assert_eq!(
        tokens,
        [
            (0..4, "arg1".into()),
            (5..10, "arg 2".into()),
            (11..15, "arg3".into()),
        ]
    );
}

#[test]
fn dynamic_separators() {
    let mut parser = windows::Parser::new("arg1 arg 2:arg3");

    assert_eq!(parser.next(), Some((0..4, "arg1".into())));

    parser.set_separators(&[':']);
    assert_eq!(parser.next(), Some((5..10, "arg 2".into())));
    assert_eq!(parser.next(), Some((11..15, "arg3".into())));
    assert_eq!(parser.next(), None);
}

#[test]
fn facade_parser() {
    let mut parser = Parser::new(r#"mv "my file" project/"#);

    assert_eq!(parser.next(), Some((0..2, "mv".into())));
    assert_eq!(parser.next(), Some((3..12, "my file".into())));
    assert_eq!(parser.next(), Some((13..21, "project/".into())));
    assert_eq!(parser.next(), None);
}

#[test]
fn single_argument() {
    assert_eq!(parse_single(""), "");
    assert_eq!(parse_single("a b"), "a b");
    assert_eq!(parse_single("'a b'"), "a b");
    assert_eq!(parse_single(r#""arg\"6""#), r#"arg"6"#);
    assert_eq!(parse_single(r"a\"), "a");
    assert_eq!(parse_single(r"\"), "");
}

#[test]
fn single_argument_round_trip() {
    // Resolving the raw span of a token again yields the token's text.
    let input = r#"'arg 1' arg\2 "arg\"3""#;
    for (range, text) in unix_tokens(input) {
        assert_eq!(parse_single(&input[range]), text);
    }
}

#[test]
fn unix_empty_and_separator_only() {
    assert_eq!(unix_tokens(""), []);
    assert_eq!(unix_tokens("   "), []);
    assert_eq!(windows_tokens(""), []);
    assert_eq!(windows_tokens("   "), []);
}

#[test]
fn multibyte_offsets() {
    // Ranges are byte offsets: a two-byte character shifts them.
    assert_eq!(
        unix_tokens("\u{e9}t\u{e9} x"),
        [(0..5, "\u{e9}t\u{e9}".into()), (6..7, "x".into())]
    );
    assert_eq!(
        windows_tokens("\u{e9} \"a b\""),
        [(0..2, "\u{e9}".into()), (3..8, "a b".into())]
    );
}

#[test]
fn unix_dynamic_separators() {
    let mut parser = unix::Parser::new("arg1 arg 2:arg3");

    assert_eq!(parser.next(), Some((0..4, "arg1".into())));

    parser.set_separators(&[':']);
    assert_eq!(parser.next(), Some((5..10, "arg 2".into())));
    assert_eq!(parser.next(), Some((11..15, "arg3".into())));
    assert_eq!(parser.next(), None);
}

#[test]
fn windows_trailing_backslash_outside_quotes() {
    // Outside quotes a backslash is an ordinary character for this engine.
    assert_eq!(windows_tokens(r"a\"), [(0..2, r"a\".into())]);
}

#[test]
fn whitespace_split_reconstruction() {
    // With no quoting characters, tokens are the separator-split substrings
    // and their spans cover exactly the non-separator content.
    let input = "one two  three ";
    let tokens = unix_tokens(input);
    assert_eq!(
        tokens,
        [
            (0..3, "one".into()),
            (4..7, "two".into()),
            (9..14, "three".into()),
        ]
    );
    let concatenated: String = tokens.iter().map(|(_, t)| t.as_str()).collect();
    let without_separators: String = input.chars().filter(|c| *c != ' ').collect();
    assert_eq!(concatenated, without_separators);
    for (range, text) in tokens {
        assert_eq!(&input[range], text);
    }
}
