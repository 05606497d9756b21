use asn1_aper::parser::token::{ParseError, Token, TokenChecker, TokenKind};
use asn1_aper::parser::types::{
    parse_bit_string_type, parse_constructed_type, parse_enumerated_type, parse_type,
    Asn1ConstructedType, Asn1TypeKind,
};
use asn1_aper::parser::utils::{
    expect_keyword, expect_one_of_keywords, expect_token, expect_token_one_of, expect_tokens,
};

fn kw(text: &str) -> Token {
    Token::new(TokenKind::Keyword, text)
}

#[test]
fn expect_keyword_matches_head() {
    let toks = vec![kw("INTEGER")];
    assert_eq!(expect_keyword(&toks, "INTEGER").unwrap(), true);
    assert_eq!(expect_keyword(&toks, "BOOLEAN").unwrap(), false);
    assert_eq!(expect_keyword(&[], "INTEGER"), Err(ParseError::UnexpectedEnd));
}

#[test]
fn expect_one_of_keywords_scans_all() {
    let toks = vec![kw("CHOICE")];
    assert_eq!(
        expect_one_of_keywords(&toks, &["SEQUENCE", "SET", "CHOICE"]).unwrap(),
        true
    );
    assert_eq!(expect_one_of_keywords(&toks, &["SEQUENCE", "SET"]).unwrap(), false);
}

#[test]
fn expect_token_applies_checker() {
    let toks = vec![Token::new(TokenKind::TypeReference, "MyType")];
    assert_eq!(expect_token(&toks, TokenChecker::IsTypeReference).unwrap(), true);
    assert_eq!(expect_token(&toks, TokenChecker::IsKeyword).unwrap(), false);
}

#[test]
fn expect_token_one_of_any_checker() {
    let toks = vec![kw("INTEGER")];
    let checkers = [TokenChecker::IsTypeReference, TokenChecker::IsAsnBuiltinType];
    assert_eq!(expect_token_one_of(&toks, &checkers).unwrap(), true);
    let none = [TokenChecker::IsTypeReference, TokenChecker::IsCurlyBegin];
    assert_eq!(expect_token_one_of(&toks, &none).unwrap(), false);
}

#[test]
fn expect_tokens_checks_each_position() {
    let toks = vec![kw("ENUMERATED"), Token::new(TokenKind::CurlyBegin, "{")];
    let groups = vec![
        vec![TokenChecker::IsKeyword],
        vec![TokenChecker::IsCurlyBegin, TokenChecker::IsIdentifier],
    ];
    assert_eq!(expect_tokens(&toks, &groups).unwrap(), true);
    let groups2 = vec![vec![TokenChecker::IsCurlyEnd], vec![TokenChecker::IsCurlyBegin]];
    assert_eq!(expect_tokens(&toks, &groups2).unwrap(), false);
    let three = vec![
        vec![TokenChecker::IsKeyword],
        vec![TokenChecker::IsCurlyBegin],
        vec![TokenChecker::IsCurlyEnd],
    ];
    assert_eq!(expect_tokens(&toks, &three), Err(ParseError::UnexpectedEnd));
}

#[test]
fn parse_type_builtin_integer() {
    let toks = vec![kw("INTEGER")];
    let (t, consumed) = parse_type(&toks).unwrap();
    assert_eq!(consumed, 1);
    assert_eq!(t.id, "INTEGER".to_string());
    assert!(matches!(t.kind, Asn1TypeKind::Builtin(_)));
    assert_eq!(t.constraints, None);
}

#[test]
fn parse_type_reference_with_constraints() {
    let toks = vec![
        Token::new(TokenKind::TypeReference, "MyType"),
        Token::new(TokenKind::RoundBegin, "("),
        Token::new(TokenKind::Number, "0..7"),
        Token::new(TokenKind::RoundEnd, ")"),
    ];
    let (t, consumed) = parse_type(&toks).unwrap();
    assert_eq!(consumed, 4);
    assert_eq!(t.kind, Asn1TypeKind::Reference);
    assert_eq!(t.constraints, Some("( 0..7 )".to_string()));
}

#[test]
fn parse_type_swallows_failed_constraints() {
    // a token follows that opens no constraint group: the type parses and
    // the constraint failure is swallowed as None.
    let toks = vec![kw("INTEGER"), Token::new(TokenKind::Identifier, "x")];
    let (t, consumed) = parse_type(&toks).unwrap();
    assert_eq!(consumed, 1);
    assert_eq!(t.constraints, None);
}

#[test]
fn parse_type_unbalanced_constraints_swallowed() {
    let toks = vec![
        Token::new(TokenKind::TypeReference, "MyType"),
        Token::new(TokenKind::RoundBegin, "("),
        Token::new(TokenKind::Number, "0"),
    ];
    let (t, consumed) = parse_type(&toks).unwrap();
    assert_eq!(consumed, 1);
    assert_eq!(t.id, "MyType".to_string());
    assert_eq!(t.constraints, None);
}

#[test]
fn parse_type_rejects_bit_string() {
    let toks = vec![kw("BIT-STRING")];
    assert!(parse_type(&toks).is_err());
    assert_eq!(parse_bit_string_type(&toks), Err(ParseError::NotImplemented));
}

#[test]
fn parse_enumerated_joins_definition() {
    let toks = vec![
        kw("ENUMERATED"),
        Token::new(TokenKind::CurlyBegin, "{"),
        Token::new(TokenKind::Identifier, "red"),
        Token::new(TokenKind::Identifier, "green"),
        Token::new(TokenKind::CurlyEnd, "}"),
    ];
    let (text, consumed) = parse_enumerated_type(&toks).unwrap();
    assert_eq!(consumed, 5);
    assert_eq!(text, "ENUMERATED { red green }".to_string());
}

#[test]
fn parse_constructed_sequence() {
    let toks = vec![
        kw("SEQUENCE"),
        Token::new(TokenKind::CurlyBegin, "{"),
        Token::new(TokenKind::Identifier, "a"),
        Token::new(TokenKind::CurlyEnd, "}"),
    ];
    let (kind, text, consumed) = parse_constructed_type(&toks).unwrap();
    assert_eq!(kind, Asn1TypeKind::Constructed(Asn1ConstructedType::Sequence));
    assert_eq!(consumed, 4);
    assert_eq!(text, "SEQUENCE { a }".to_string());
}
