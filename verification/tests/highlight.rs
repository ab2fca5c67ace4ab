use treehouse::highlight::{
    compile_syntax, highlight, try_highlight, CaptureTokenTypes, Keyword, Pattern, RegexFlag, Syntax, Token,
    TokenTypes,
};

fn full(regex: &str, name: &str) -> Pattern {
    Pattern { regex: regex.to_owned(), flags: vec![], is: TokenTypes::FullMatch(name.to_owned()) }
}

fn syntax() -> Syntax {
    Syntax {
        patterns: vec![full("[a-zA-Z_]+", "identifier"), full("^[0-9]+", "number")],
        keywords: vec![(
            "fn".to_owned(),
            Keyword { into: "keyword".to_owned(), only_replaces: None },
        )],
    }
}

fn token(id: usize, range: std::ops::Range<usize>) -> Token {
    Token { id, range }
}

#[test]
fn compiling_interns_token_names() {
    let compiled = compile_syntax(&syntax());
    assert_eq!(compiled.token_names, vec!["default", "identifier", "number", "keyword"]);
    assert_eq!(compiled.patterns.len(), 2);
    assert_eq!(compiled.keywords.len(), 1);
    assert_eq!(compiled.keywords[0].1.into, 3);
    assert_eq!(compiled.keywords[0].1.only_replaces, None);
}

#[test]
fn patterns_that_do_not_build_are_left_out() {
    let syntax = Syntax { patterns: vec![full("(", "broken"), full("a", "a")], keywords: vec![] };
    let compiled = compile_syntax(&syntax);
    assert_eq!(compiled.patterns.len(), 1);
    assert_eq!(compiled.token_names, vec!["default", "a"]);
}

#[test]
fn tokens_follow_patterns_and_keywords() {
    let compiled = compile_syntax(&syntax());
    let tokens = compiled.try_tokenize("fn x1").unwrap();
    assert_eq!(tokens, vec![token(3, 0..2), token(0, 2..3), token(1, 3..4), token(2, 4..5)]);
    assert_eq!(compiled.tokenize("fn x1"), tokens);
}

#[test]
fn adjacent_tokens_of_one_type_are_joined() {
    let syntax = Syntax { patterns: vec![full("a", "a")], keywords: vec![] };
    let compiled = compile_syntax(&syntax);
    assert_eq!(compiled.try_tokenize("aa b").unwrap(), vec![token(1, 0..2), token(0, 2..4)]);
}

#[test]
fn patterns_are_anchored_where_they_are_tried() {
    let syntax = Syntax { patterns: vec![full("b", "b")], keywords: vec![] };
    let compiled = compile_syntax(&syntax);
    assert_eq!(compiled.try_tokenize("ab").unwrap(), vec![token(0, 0..1), token(1, 1..2)]);
}

#[test]
fn captures_get_their_own_types() {
    let syntax = Syntax {
        patterns: vec![Pattern {
            regex: "(a)(b)?c".to_owned(),
            flags: vec![],
            is: TokenTypes::Captures(CaptureTokenTypes {
                default: "d".to_owned(),
                captures: vec!["A".to_owned(), "B".to_owned()],
            }),
        }],
        keywords: vec![],
    };
    let compiled = compile_syntax(&syntax);
    assert_eq!(compiled.token_names, vec!["default", "d", "A", "B"]);
    assert_eq!(compiled.try_tokenize("acX").unwrap(), vec![token(2, 0..1), token(1, 1..2), token(0, 2..3)]);
    assert_eq!(
        compiled.try_tokenize("abc").unwrap(),
        vec![token(2, 0..1), token(3, 1..2), token(1, 2..3)]
    );
}

#[test]
fn keywords_may_replace_only_one_type() {
    let syntax = Syntax {
        patterns: vec![full("[a-z]+", "identifier"), full("\"[a-z]*\"", "string")],
        keywords: vec![(
            "if".to_owned(),
            Keyword { into: "keyword".to_owned(), only_replaces: Some("identifier".to_owned()) },
        )],
    };
    let compiled = compile_syntax(&syntax);
    let tokens = compiled.try_tokenize("if").unwrap();
    assert_eq!(tokens, vec![token(3, 0..2)]);
}

#[test]
fn dot_matches_line_breaks_only_when_asked() {
    let plain = Syntax { patterns: vec![full("a.b", "x")], keywords: vec![] };
    let dotall = Syntax {
        patterns: vec![Pattern {
            regex: "a.b".to_owned(),
            flags: vec![RegexFlag::DotMatchesNewline],
            is: TokenTypes::FullMatch("x".to_owned()),
        }],
        keywords: vec![],
    };
    assert_eq!(compile_syntax(&plain).try_tokenize("a\nb").unwrap(), vec![token(0, 0..3)]);
    assert_eq!(compile_syntax(&dotall).try_tokenize("a\nb").unwrap(), vec![token(1, 0..3)]);
}

#[test]
fn empty_matches_and_split_characters_do_not_tokenize() {
    let syntax = Syntax { patterns: vec![full("x*", "x")], keywords: vec![] };
    assert!(compile_syntax(&syntax).try_tokenize("a").is_none());
    let nothing = Syntax { patterns: vec![], keywords: vec![] };
    assert!(compile_syntax(&nothing).try_tokenize("é").is_none());
    assert_eq!(compile_syntax(&nothing).try_tokenize("ab").unwrap(), vec![token(0, 0..2)]);
}

#[test]
fn highlighting_writes_escaped_spans() {
    let compiled = compile_syntax(&syntax());
    let mut out = String::new();
    highlight(&mut out, &compiled, "fn <");
    assert_eq!(
        out,
        "<span class=\"keyword\">fn</span><span class=\"default\"> &lt;</span>"
    );
    let mut out = String::new();
    assert!(try_highlight(&mut out, &compiled, "x"));
    assert_eq!(out, "<span class=\"identifier\">x</span>");
    let broken = compile_syntax(&Syntax { patterns: vec![full("x*", "x")], keywords: vec![] });
    let mut out = String::from("kept");
    assert!(!try_highlight(&mut out, &broken, "a"));
    assert_eq!(out, "kept");
}
