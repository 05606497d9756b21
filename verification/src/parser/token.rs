//! Lexical tokens of ASN.1 notation and the checks the parser applies to
//! them.
use vstd::prelude::*;
use vstd::string::StringExecFns;

verus! {

/// The lexical categories the parser distinguishes.
#[derive(Debug, Clone, Copy, PartialEq, Eq, Structural)]
pub enum TokenKind {
    Keyword,
    TypeReference,
    Identifier,
    Number,
    CurlyBegin,
    CurlyEnd,
    RoundBegin,
    RoundEnd,
    Symbol,
}

/// One lexical token: its category and its text.
#[derive(Debug, Clone)]
pub struct Token {
    pub kind: TokenKind,
    pub text: String,
}

/// Does the token's text read as the given word?
pub open spec fn spec_text_is(t: Token, s: Seq<char>) -> bool {
    t.text@ == s
}

/// The names of the ASN.1 builtin types this parser knows.
pub open spec fn spec_is_builtin_name(s: Seq<char>) -> bool {
    ||| s == "BIT-STRING"@
    ||| s == "ENUMERATED"@
    ||| s == "INTEGER"@
    ||| s == "BOOLEAN"@
    ||| s == "NULL"@
    ||| s == "OBJECT-IDENTIFIER"@
    ||| s == "UTF8String"@
    ||| s == "IA5String"@
    ||| s == "PrintableString"@
    ||| s == "CHARACTER-STRING"@
    ||| s == "SET"@
    ||| s == "SEQUENCE"@
    ||| s == "CHOICE"@
}

impl Token {
    pub fn new(kind: TokenKind, text: &str) -> (r: Token)
        ensures
            r.kind == kind,
            r.text@ == text@,
    {
        Token { kind, text: String::from_str(text) }
    }

    /// Is the token's text exactly the given word?
    pub fn text_is(&self, s: &str) -> (r: bool)
        ensures
            r == spec_text_is(*self, s@),
    {
        self.text == s.to_owned()
    }

    pub fn is_keyword(&self) -> (r: bool)
        ensures
            r == (self.kind == TokenKind::Keyword),
    {
        self.kind == TokenKind::Keyword
    }

    pub fn is_type_reference(&self) -> (r: bool)
        ensures
            r == (self.kind == TokenKind::TypeReference),
    {
        self.kind == TokenKind::TypeReference
    }

    pub fn is_identifier(&self) -> (r: bool)
        ensures
            r == (self.kind == TokenKind::Identifier),
    {
        self.kind == TokenKind::Identifier
    }

    /// Is the token one of the builtin ASN.1 type names?
    pub fn is_asn_builtin_type(&self) -> (r: bool)
        ensures
            r == spec_is_builtin_name(self.text@),
    {
        self.text_is("BIT-STRING") || self.text_is("ENUMERATED") || self.text_is("INTEGER")
            || self.text_is("BOOLEAN") || self.text_is("NULL") || self.text_is("OBJECT-IDENTIFIER")
            || self.text_is("UTF8String") || self.text_is("IA5String") || self.text_is(
            "PrintableString",
        ) || self.text_is("CHARACTER-STRING") || self.text_is("SET") || self.text_is("SEQUENCE")
            || self.text_is("CHOICE")
    }
}

/// A check the parser can apply to a token.
#[derive(Debug, Clone, Copy, PartialEq, Eq, Structural)]
pub enum TokenChecker {
    IsKeyword,
    IsTypeReference,
    IsIdentifier,
    IsAsnBuiltinType,
    IsCurlyBegin,
    IsCurlyEnd,
}

/// What each checker decides of a token.
pub open spec fn spec_check(c: TokenChecker, t: Token) -> bool {
    match c {
        TokenChecker::IsKeyword => t.kind == TokenKind::Keyword,
        TokenChecker::IsTypeReference => t.kind == TokenKind::TypeReference,
        TokenChecker::IsIdentifier => t.kind == TokenKind::Identifier,
        TokenChecker::IsAsnBuiltinType => spec_is_builtin_name(t.text@),
        TokenChecker::IsCurlyBegin => t.kind == TokenKind::CurlyBegin,
        TokenChecker::IsCurlyEnd => t.kind == TokenKind::CurlyEnd,
    }
}

/// Applies a checker to a token.
pub fn check_token(c: TokenChecker, t: &Token) -> (r: bool)
    ensures
        r == spec_check(c, *t),
{
    match c {
        TokenChecker::IsKeyword => t.is_keyword(),
        TokenChecker::IsTypeReference => t.is_type_reference(),
        TokenChecker::IsIdentifier => t.is_identifier(),
        TokenChecker::IsAsnBuiltinType => t.is_asn_builtin_type(),
        TokenChecker::IsCurlyBegin => t.kind == TokenKind::CurlyBegin,
        TokenChecker::IsCurlyEnd => t.kind == TokenKind::CurlyEnd,
    }
}

/// The parser's error: what was expected, and whether input ran out.
#[derive(Debug, Clone, Copy, PartialEq, Eq, Structural)]
pub enum ParseError {
    UnexpectedEnd,
    UnexpectedToken,
    NotImplemented,
}

} // verus!
