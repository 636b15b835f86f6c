use ajisai::errors::EvalError;
use ajisai::interp::Interpreter;
use ajisai::tokenizer::{tokenize, ParseReason, Token};

#[test]
fn defining_and_calling_a_word() {
    let mut it = Interpreter::new();
    it.execute("[ DUP * ] \"SQUARE\" DEF").unwrap();
    it.execute("7 SQUARE").unwrap();
    let stack = it.get_stack();
    match &stack[0].val_type {
        ajisai::value::ValueType::Number(f) => {
            assert_eq!(f.numerator(), 49);
            assert_eq!(f.denominator(), 1);
        },
        other => panic!("expected a number, found {:?}", other),
    }
    assert_eq!(it.get_custom_words(), vec!["SQUARE".to_string()]);
}

#[test]
fn word_lookup_is_case_insensitive() {
    let mut it = Interpreter::new();
    it.execute("[ DUP * ] \"square\" DEF").unwrap();
    it.execute("3 square").unwrap();
    it.execute("3 SQUARE").unwrap();
    assert_eq!(it.get_stack().len(), 2);
}

#[test]
fn deleting_a_depended_upon_word_fails_naming_the_dependent() {
    let mut it = Interpreter::new();
    it.execute("[ DUP * ] \"SQUARE\" DEF").unwrap();
    it.execute("[ SQUARE SQUARE ] \"DOUBLESQ\" DEF").unwrap();
    match it.execute("\"SQUARE\" DEL").unwrap_err() {
        EvalError::DependencyViolation { word, dependents } => {
            assert_eq!(word, "SQUARE");
            assert_eq!(dependents, vec!["DOUBLESQ".to_string()]);
        },
        other => panic!("expected a dependency violation, found {:?}", other),
    }
    it.execute("\"DOUBLESQ\" DEL").unwrap();
    it.execute("\"SQUARE\" DEL").unwrap();
    assert!(it.get_custom_words().is_empty());
}

#[test]
fn redefining_a_depended_upon_word_fails_identically() {
    let mut it = Interpreter::new();
    it.execute("[ DUP * ] \"SQUARE\" DEF").unwrap();
    it.execute("[ SQUARE SQUARE ] \"DOUBLESQ\" DEF").unwrap();
    match it.execute("[ DUP + ] \"SQUARE\" DEF").unwrap_err() {
        EvalError::DependencyViolation { word, dependents } => {
            assert_eq!(word, "SQUARE");
            assert_eq!(dependents, vec!["DOUBLESQ".to_string()]);
        },
        other => panic!("expected a dependency violation, found {:?}", other),
    }
}

#[test]
fn redefining_an_unreferenced_word_drops_stale_edges() {
    let mut it = Interpreter::new();
    it.execute("[ DUP * ] \"SQUARE\" DEF").unwrap();
    it.execute("[ SQUARE ] \"USER\" DEF").unwrap();
    assert_eq!(it.get_dependencies("SQUARE"), vec!["USER".to_string()]);
    it.execute("[ DUP + ] \"USER\" DEF").unwrap();
    assert!(it.get_dependencies("SQUARE").is_empty());
    it.execute("\"SQUARE\" DEL").unwrap();
}

#[test]
fn builtins_cannot_be_redefined_or_deleted() {
    let mut it = Interpreter::new();
    let err = it.execute("[ 1 ] \"DUP\" DEF").unwrap_err();
    assert!(matches!(err, EvalError::RedefineBuiltin(_)));
    let err = it.delete_word("DUP").unwrap_err();
    assert!(matches!(err, EvalError::DeleteBuiltin(_)));
}

#[test]
fn deleting_an_unknown_word_fails() {
    let mut it = Interpreter::new();
    let err = it.delete_word("GHOST").unwrap_err();
    assert!(matches!(err, EvalError::WordNotFound(_)));
}

#[test]
fn descriptions_attach_to_the_next_definition() {
    let mut it = Interpreter::new();
    it.execute("( squares the top ) [ DUP * ] \"SQUARE\" DEF").unwrap();
    let words = it.get_custom_words_with_descriptions();
    assert_eq!(words.len(), 1);
    assert_eq!(words[0].0, "SQUARE");
    assert_eq!(words[0].1.as_deref(), Some("squares the top"));
}

#[test]
fn words_info_reports_protection() {
    let mut it = Interpreter::new();
    it.execute("[ DUP * ] \"SQUARE\" DEF").unwrap();
    it.execute("[ SQUARE ] \"USER\" DEF").unwrap();
    let info = it.get_custom_words_info();
    let square = info.iter().find(|e| e.0 == "SQUARE").unwrap();
    assert!(square.2);
    let user = info.iter().find(|e| e.0 == "USER").unwrap();
    assert!(!user.2);
}

#[test]
fn recursive_word_hits_the_depth_cap() {
    let mut it = Interpreter::new();
    it.execute("[ LOOPY ] \"LOOPY\" DEF").unwrap();
    let err = it.execute("LOOPY").unwrap_err();
    assert!(matches!(err, EvalError::RecursionLimitExceeded));
}

#[test]
fn tokenizer_classifies_words() {
    let toks = tokenize("42 -7 1/2 2.5 true false nil hello [ ] \"hi\"").unwrap();
    assert!(matches!(toks[0], Token::Number(42, 1)));
    assert!(matches!(toks[1], Token::Number(-7, 1)));
    assert!(matches!(toks[2], Token::Number(1, 2)));
    assert!(matches!(toks[3], Token::Number(25, 10)));
    assert!(matches!(toks[4], Token::Boolean(true)));
    assert!(matches!(toks[5], Token::Boolean(false)));
    assert!(matches!(toks[6], Token::Nil));
    match &toks[7] {
        Token::Symbol(s) => assert_eq!(s, "HELLO"),
        other => panic!("expected a symbol, found {:?}", other),
    }
    assert!(matches!(toks[8], Token::VectorStart));
    assert!(matches!(toks[9], Token::VectorEnd));
    match &toks[10] {
        Token::String(s) => assert_eq!(s, "hi"),
        other => panic!("expected a string, found {:?}", other),
    }
}

#[test]
fn tokenizer_skips_comments_and_keeps_descriptions() {
    let toks = tokenize("1 # a comment\n( doc text ) 2").unwrap();
    assert_eq!(toks.len(), 3);
    assert!(matches!(toks[0], Token::Number(1, 1)));
    match &toks[1] {
        Token::Description(d) => assert_eq!(d, "doc text"),
        other => panic!("expected a description, found {:?}", other),
    }
    assert!(matches!(toks[2], Token::Number(2, 1)));
}

#[test]
fn tokenizer_string_escapes() {
    let toks = tokenize("\"a\\\"b\"").unwrap();
    match &toks[0] {
        Token::String(s) => assert_eq!(s, "a\"b"),
        other => panic!("expected a string, found {:?}", other),
    }
}

#[test]
fn tokenizer_rejects_unterminated_strings() {
    let err = tokenize("\"open").unwrap_err();
    assert!(matches!(err, ParseReason::UnterminatedString));
}

#[test]
fn tokenizer_rejects_malformed_numbers() {
    assert!(matches!(tokenize("1.2.3").unwrap_err(), ParseReason::InvalidNumber(_)));
    assert!(matches!(tokenize("1/0").unwrap_err(), ParseReason::ZeroDenominator(_)));
    assert!(matches!(tokenize("a/b").unwrap_err(), ParseReason::InvalidFraction(_)));
}

#[test]
fn unclosed_vector_is_an_evaluation_error() {
    let mut it = Interpreter::new();
    let err = it.execute("[ 1 2").unwrap_err();
    assert!(matches!(err, EvalError::UnclosedVector));
    let err = it.execute("]").unwrap_err();
    assert!(matches!(err, EvalError::UnexpectedVectorEnd));
}

#[test]
fn parse_error_leaves_the_engine_untouched() {
    let mut it = Interpreter::new();
    it.execute("1").unwrap();
    let err = it.execute("2 \"open").unwrap_err();
    assert!(matches!(err, EvalError::Parse(_)));
    assert_eq!(it.get_stack().len(), 1);
}

#[test]
fn description_without_definition_is_inert() {
    let mut it = Interpreter::new();
    it.execute("( stray note ) 1").unwrap();
    assert_eq!(it.get_stack().len(), 1);
    assert!(it.get_custom_words().is_empty());
}

#[test]
fn symbols_inside_vectors_are_uppercased() {
    let toks = tokenize("[ dup ]").unwrap();
    match &toks[1] {
        Token::Symbol(s) => assert_eq!(s, "DUP"),
        other => panic!("expected a symbol, found {:?}", other),
    }
}

#[test]
fn unicode_whitespace_separates_tokens() {
    let toks = tokenize("1\u{000C}2\u{00A0}3").unwrap();
    assert_eq!(toks.len(), 3);
    assert!(matches!(toks[0], Token::Number(1, 1)));
    assert!(matches!(toks[1], Token::Number(2, 1)));
    assert!(matches!(toks[2], Token::Number(3, 1)));
}
