use mcvm::lex::{lex, LexErrorKind, TextPos, Token};
use mcvm::routine::{can_call_routines, is_reserved};
use mcvm::script::{parse_routines, validate_script, ScriptError};

#[test]
fn reserved_routines() {
    assert!(is_reserved("meta"));
    assert!(is_reserved("properties"));
    assert!(is_reserved("install"));
    assert!(is_reserved("uninstall"));
    assert!(!is_reserved("helper"));
    assert!(!can_call_routines("meta"));
    assert!(!can_call_routines("properties"));
    assert!(can_call_routines("install"));
    assert!(can_call_routines("helper"));
}

#[test]
fn lexer_tokens_and_positions() {
    let toks = lex("@install {\n  name \"hi\"; $v # note\n}").unwrap();
    assert_eq!(toks[0], (Token::At, TextPos { line: 1, column: 1 }));
    assert_eq!(toks[1], (Token::Ident("install".into()), TextPos { line: 1, column: 2 }));
    assert_eq!(toks[2], (Token::CurlyOpen, TextPos { line: 1, column: 10 }));
    assert_eq!(toks[3], (Token::Ident("name".into()), TextPos { line: 2, column: 3 }));
    assert_eq!(toks[4], (Token::Str("hi".into()), TextPos { line: 2, column: 8 }));
    assert_eq!(toks[5], (Token::Semicolon, TextPos { line: 2, column: 12 }));
    assert_eq!(toks[6], (Token::Variable("v".into()), TextPos { line: 2, column: 14 }));
    assert_eq!(toks[7], (Token::CurlyClose, TextPos { line: 3, column: 1 }));
    assert_eq!(toks.len(), 8);
}

#[test]
fn lexer_errors() {
    let e = lex("a \"open").unwrap_err();
    assert_eq!(e.kind, LexErrorKind::UnterminatedString);
    assert_eq!(e.pos, TextPos { line: 1, column: 3 });
    assert_eq!(lex("$ x").unwrap_err().kind, LexErrorKind::EmptyVariable);
    assert_eq!(lex("a\n  ?").unwrap_err().pos, TextPos { line: 2, column: 3 });
    assert!(lex("").unwrap().is_empty());
}

#[test]
fn routines_are_split() {
    let toks = lex("@meta { name \"x\"; } @install { if a { call helper; } }").unwrap();
    let routines = parse_routines(&toks).unwrap();
    assert_eq!(routines.len(), 2);
    assert_eq!(routines[0].name, "meta");
    assert_eq!(routines[0].body.len(), 3);
    assert_eq!(routines[1].name, "install");
    assert_eq!(routines[1].body.len(), 7);
    let toks = lex("@install { a;").unwrap();
    assert_eq!(parse_routines(&toks), Err(ScriptError::Unclosed("install".into())));
    let toks = lex("install { }").unwrap();
    assert!(matches!(parse_routines(&toks), Err(ScriptError::UnexpectedToken(..))));
}

#[test]
fn routine_call_rules() {
    assert!(validate_script("@install { call helper; } @helper { }").is_ok());
    assert_eq!(
        validate_script("@meta { call helper; }"),
        Err(ScriptError::CallNotAllowed("meta".into(), "helper".into()))
    );
    assert_eq!(
        validate_script("@properties { call x; }"),
        Err(ScriptError::CallNotAllowed("properties".into(), "x".into()))
    );
    assert_eq!(
        validate_script("@install { call uninstall; }"),
        Err(ScriptError::ReservedCall("install".into(), "uninstall".into()))
    );
}

#[test]
fn script_reading_errors() {
    assert!(matches!(validate_script("@install { \"open }"), Err(ScriptError::Lex(_))));
    assert!(matches!(
        mcvm::script::parse_condition_text("os ?"),
        Err(ScriptError::Lex(_))
    ));
}
