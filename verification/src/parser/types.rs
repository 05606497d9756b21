//! Parsing of the `Type` expansion in the ASN.1 grammar.
use crate::parser::token::{spec_check, spec_is_builtin_name, ParseError, Token, TokenChecker, TokenKind};
use crate::parser::utils::{
    expect_keyword, expect_one_of_keywords, expect_token_one_of, parse_constraints,
    parse_set_ish_value, spec_constraints, spec_group, texts_join,
};
use vstd::prelude::*;
use vstd::string::StringExecFns;

verus! {

/// The constructed-type categories.
#[derive(Debug, Clone, Copy, PartialEq, Eq, Structural)]
pub enum Asn1ConstructedType {
    Sequence,
    SetType,
    Choice,
}

/// The builtin ASN.1 type categories this parser distinguishes.
#[derive(Debug, Clone, Copy, PartialEq, Eq, Structural)]
pub enum Asn1BuiltinType {
    Integer,
    Boolean,
    Null,
    ObjectIdentifier,
    Utf8String,
    Ia5String,
    PrintableString,
    CharacterString,
    BitString,
    Enumerated,
}

/// What kind of type a `Type` expansion denotes.
#[derive(Debug, Clone, Copy, PartialEq, Eq, Structural)]
pub enum Asn1TypeKind {
    /// A reference to another named type: the default when no builtin
    /// keyword matches.
    Reference,
    Builtin(Asn1BuiltinType),
    Constructed(Asn1ConstructedType),
}

/// A parsed `Type`: its identifying text, its kind, and the raw text of its
/// constraints when some followed.
#[derive(Debug, Clone)]
pub struct Asn1Type {
    pub id: String,
    pub kind: Asn1TypeKind,
    pub constraints: Option<String>,
}

/// The kind the head token's text denotes; `SET`, `SEQUENCE` and `CHOICE`
/// all parse as a sequence-shaped constructed type.
pub open spec fn spec_kind_of(s: Seq<char>) -> Asn1TypeKind {
    if s == "BIT-STRING"@ {
        Asn1TypeKind::Builtin(Asn1BuiltinType::BitString)
    } else if s == "ENUMERATED"@ {
        Asn1TypeKind::Builtin(Asn1BuiltinType::Enumerated)
    } else if s == "INTEGER"@ {
        Asn1TypeKind::Builtin(Asn1BuiltinType::Integer)
    } else if s == "BOOLEAN"@ {
        Asn1TypeKind::Builtin(Asn1BuiltinType::Boolean)
    } else if s == "NULL"@ {
        Asn1TypeKind::Builtin(Asn1BuiltinType::Null)
    } else if s == "OBJECT-IDENTIFIER"@ {
        Asn1TypeKind::Builtin(Asn1BuiltinType::ObjectIdentifier)
    } else if s == "UTF8String"@ {
        Asn1TypeKind::Builtin(Asn1BuiltinType::Utf8String)
    } else if s == "IA5String"@ {
        Asn1TypeKind::Builtin(Asn1BuiltinType::Ia5String)
    } else if s == "PrintableString"@ {
        Asn1TypeKind::Builtin(Asn1BuiltinType::PrintableString)
    } else if s == "CHARACTER-STRING"@ {
        Asn1TypeKind::Builtin(Asn1BuiltinType::CharacterString)
    } else if s == "SET"@ || s == "SEQUENCE"@ || s == "CHOICE"@ {
        Asn1TypeKind::Constructed(Asn1ConstructedType::Sequence)
    } else {
        Asn1TypeKind::Reference
    }
}

/// What the type head yields: the id text and the tokens it consumes;
/// `None` when the head cannot be parsed (a BIT-STRING head, a missing
/// keyword, or an unbalanced definition).
pub open spec fn spec_head_parse(toks: Seq<Token>) -> Option<(Seq<char>, nat)> {
    if toks.len() == 0 {
        None
    } else {
        let t = toks[0].text@;
        if t == "BIT-STRING"@ {
            None
        } else if t == "ENUMERATED"@ {
            if toks[0].kind == TokenKind::Keyword {
                match spec_group(
                    toks.subrange(1, toks.len() as int),
                    TokenKind::CurlyBegin,
                    TokenKind::CurlyEnd,
                ) {
                    Some(c) => Some(
                        (
                            "ENUMERATED"@ + seq![' '] + texts_join(
                                toks.subrange(1, (1 + c) as int),
                            ),
                            (1 + c) as nat,
                        ),
                    ),
                    None => None,
                }
            } else {
                None
            }
        } else if t == "SEQUENCE"@ || t == "SET"@ || t == "CHOICE"@ {
            if toks[0].kind == TokenKind::Keyword {
                match spec_group(
                    toks.subrange(1, toks.len() as int),
                    TokenKind::CurlyBegin,
                    TokenKind::CurlyEnd,
                ) {
                    Some(c) => Some(
                        (t + seq![' '] + texts_join(toks.subrange(1, (1 + c) as int)), (1
                            + c) as nat),
                    ),
                    None => None,
                }
            } else {
                None
            }
        } else {
            Some((t, 1))
        }
    }
}

/// Parses the `Type` expansion: a builtin or constructed type keyword or a
/// type reference, then any constraint text that follows. A failed
/// constraint parse is swallowed: the type is returned with no constraints
/// and no constraint tokens counted.
pub fn parse_type(tokens: &[Token]) -> (r: Result<(Asn1Type, usize), ParseError>)
    ensures
        tokens@.len() == 0 ==> r.is_err(),
        tokens@.len() > 0 && tokens@[0].text@ == "BIT-STRING"@ ==> r == Err::<
            (Asn1Type, usize),
            ParseError,
        >(ParseError::NotImplemented),
        r.is_ok() <==> tokens@.len() > 0 && (tokens@[0].kind == TokenKind::TypeReference
            || spec_is_builtin_name(tokens@[0].text@)) && spec_head_parse(tokens@) is Some,
        r matches Ok(p) ==> ({
            &&& tokens@.len() > 0
            &&& 1 <= p.1 <= tokens@.len()
            &&& (tokens@[0].kind == TokenKind::TypeReference || spec_is_builtin_name(
                tokens@[0].text@,
            ))
            &&& p.0.kind == spec_kind_of(tokens@[0].text@)
            &&& p.0.kind != Asn1TypeKind::Builtin(Asn1BuiltinType::BitString)
        }),
        r matches Ok(p) ==> (match spec_head_parse(tokens@) {
            Some(h) => p.0.id@ == h.0 && (match spec_constraints(
                tokens@.subrange(h.1 as int, tokens@.len() as int),
            ) {
                Some(c) => p.1 == h.1 + c.1 && (p.0.constraints matches Some(cs) && cs@ == c.0),
                None => p.1 == h.1 && p.0.constraints is None,
            }),
            None => false,
        }),
{
    let checkers: Vec<TokenChecker> = vec![
        TokenChecker::IsTypeReference,
        TokenChecker::IsAsnBuiltinType,
    ];
    let head_ok = match expect_token_one_of(tokens, checkers.as_slice()) {
        Ok(b) => b,
        Err(e) => {
            return Err(e);
        },
    };
    if !head_ok {
        proof {
            assert(checkers@[0] == TokenChecker::IsTypeReference);
            assert(checkers@[1] == TokenChecker::IsAsnBuiltinType);
            assert(!spec_check(checkers@[0], tokens@[0]));
            assert(!spec_check(checkers@[1], tokens@[0]));
        }
        return Err(ParseError::UnexpectedToken);
    }
    proof {
        assert(spec_check(checkers@[0], tokens@[0]) || spec_check(checkers@[1], tokens@[0]));
    }
    let token = &tokens[0];
    let mut consumed: usize = 0;
    let kind: Asn1TypeKind;
    let id: String;
    if token.text_is("BIT-STRING") {
        let (bid, bconsumed) = match parse_bit_string_type(tokens) {
            Ok(p) => p,
            Err(e) => {
                return Err(e);
            },
        };
        kind = Asn1TypeKind::Builtin(Asn1BuiltinType::BitString);
        id = bid;
        consumed = bconsumed;
    } else if token.text_is("ENUMERATED") {
        let (eid, econsumed) = match parse_enumerated_type(tokens) {
            Ok(p) => p,
            Err(e) => {
                return Err(e);
            },
        };
        kind = Asn1TypeKind::Builtin(Asn1BuiltinType::Enumerated);
        id = eid;
        consumed = econsumed;
    } else if token.text_is("INTEGER") {
        kind = Asn1TypeKind::Builtin(Asn1BuiltinType::Integer);
        id = token.text.clone();
        consumed = 1;
    } else if token.text_is("BOOLEAN") {
        kind = Asn1TypeKind::Builtin(Asn1BuiltinType::Boolean);
        id = token.text.clone();
        consumed = 1;
    } else if token.text_is("NULL") {
        kind = Asn1TypeKind::Builtin(Asn1BuiltinType::Null);
        id = token.text.clone();
        consumed = 1;
    } else if token.text_is("OBJECT-IDENTIFIER") {
        kind = Asn1TypeKind::Builtin(Asn1BuiltinType::ObjectIdentifier);
        id = token.text.clone();
        consumed = 1;
    } else if token.text_is("UTF8String") {
        kind = Asn1TypeKind::Builtin(Asn1BuiltinType::Utf8String);
        id = token.text.clone();
        consumed = 1;
    } else if token.text_is("IA5String") {
        kind = Asn1TypeKind::Builtin(Asn1BuiltinType::Ia5String);
        id = token.text.clone();
        consumed = 1;
    } else if token.text_is("PrintableString") {
        kind = Asn1TypeKind::Builtin(Asn1BuiltinType::PrintableString);
        id = token.text.clone();
        consumed = 1;
    } else if token.text_is("CHARACTER-STRING") {
        kind = Asn1TypeKind::Builtin(Asn1BuiltinType::CharacterString);
        id = token.text.clone();
        consumed = 1;
    } else if token.text_is("SET") || token.text_is("SEQUENCE") || token.text_is("CHOICE") {
        let (ckind, cid, cconsumed) = match parse_constructed_type(tokens) {
            Ok(p) => p,
            Err(e) => {
                return Err(e);
            },
        };
        kind = ckind;
        id = cid;
        consumed = cconsumed;
    } else {
        kind = Asn1TypeKind::Reference;
        id = token.text.clone();
        consumed = 1;
    }
    let rest: &[Token] = &tokens[consumed..tokens.len()];
    let constraints: Option<String>;
    match parse_constraints(rest) {
        Ok((ctext, cconsumed)) => {
            constraints = Some(ctext);
            consumed = consumed + cconsumed;
        },
        Err(_) => {
            constraints = None;
        },
    }
    proof {
        reveal_strlit("BIT-STRING");
        reveal_strlit("ENUMERATED");
        reveal_strlit("INTEGER");
        reveal_strlit("BOOLEAN");
        reveal_strlit("NULL");
        reveal_strlit("OBJECT-IDENTIFIER");
        reveal_strlit("UTF8String");
        reveal_strlit("IA5String");
        reveal_strlit("PrintableString");
        reveal_strlit("CHARACTER-STRING");
        reveal_strlit("SET");
        reveal_strlit("SEQUENCE");
        reveal_strlit("CHOICE");
        assert(spec_head_parse(tokens@) is Some);
    }
    Ok((Asn1Type { id, kind, constraints }, consumed))
}

/// Parsing of the BIT STRING type notation is not implemented: the attempt
/// is reported rather than guessed at.
pub fn parse_bit_string_type(_tokens: &[Token]) -> (r: Result<(String, usize), ParseError>)
    ensures
        r.is_err(),
        r == Err::<(String, usize), ParseError>(ParseError::NotImplemented),
{
    Err(ParseError::NotImplemented)
}

/// Parses an ENUMERATED type: the keyword, then its `{ ... }` definition,
/// returned as one joined text.
pub fn parse_enumerated_type(tokens: &[Token]) -> (r: Result<(String, usize), ParseError>)
    ensures
        tokens@.len() == 0 ==> r.is_err(),
        r.is_ok() <==> tokens@.len() > 0 && tokens@[0].kind == TokenKind::Keyword
            && tokens@[0].text@ == "ENUMERATED"@ && spec_group(
            tokens@.subrange(1, tokens@.len() as int),
            TokenKind::CurlyBegin,
            TokenKind::CurlyEnd,
        ) is Some,
        r matches Ok(p) ==> ({
            &&& tokens@.len() > 0
            &&& tokens@[0].kind == TokenKind::Keyword && tokens@[0].text@ == "ENUMERATED"@
            &&& 3 <= p.1 <= tokens@.len()
            &&& spec_group(
                tokens@.subrange(1, tokens@.len() as int),
                TokenKind::CurlyBegin,
                TokenKind::CurlyEnd,
            ) == Some((p.1 - 1) as nat)
            &&& p.0@ == "ENUMERATED"@ + seq![' '] + texts_join(
                tokens@.subrange(1, p.1 as int),
            )
        }),
{
    let kw_ok = match expect_keyword(tokens, "ENUMERATED") {
        Ok(b) => b,
        Err(e) => {
            return Err(e);
        },
    };
    if !kw_ok {
        return Err(ParseError::UnexpectedToken);
    }
    let rest: &[Token] = &tokens[1..tokens.len()];
    let (def, def_consumed) = match parse_set_ish_value(rest) {
        Ok(p) => p,
        Err(e) => {
            return Err(e);
        },
    };
    let mut out = String::from_str("ENUMERATED");
    out.append(" ");
    out.append(def.as_str());
    proof {
        reveal_strlit(" ");
        assert(" "@ =~= seq![' ']);
        assert(rest@.subrange(0, def_consumed as int) =~= tokens@.subrange(
            1,
            (1 + def_consumed) as int,
        ));
    }
    Ok((out, 1 + def_consumed))
}

/// Parses a SEQUENCE, SET or CHOICE type: the keyword, then its `{ ... }`
/// definition, all returned as a sequence-shaped constructed type.
pub fn parse_constructed_type(tokens: &[Token]) -> (r: Result<
    (Asn1TypeKind, String, usize),
    ParseError,
>)
    ensures
        tokens@.len() == 0 ==> r.is_err(),
        r.is_ok() <==> tokens@.len() > 0 && tokens@[0].kind == TokenKind::Keyword && (
        tokens@[0].text@ == "SEQUENCE"@ || tokens@[0].text@ == "SET"@ || tokens@[0].text@
            == "CHOICE"@) && spec_group(
            tokens@.subrange(1, tokens@.len() as int),
            TokenKind::CurlyBegin,
            TokenKind::CurlyEnd,
        ) is Some,
        r matches Ok(p) ==> ({
            &&& tokens@.len() > 0
            &&& tokens@[0].kind == TokenKind::Keyword
            &&& (tokens@[0].text@ == "SEQUENCE"@ || tokens@[0].text@ == "SET"@
                || tokens@[0].text@ == "CHOICE"@)
            &&& p.0 == Asn1TypeKind::Constructed(Asn1ConstructedType::Sequence)
            &&& 3 <= p.2 <= tokens@.len()
            &&& spec_group(
                tokens@.subrange(1, tokens@.len() as int),
                TokenKind::CurlyBegin,
                TokenKind::CurlyEnd,
            ) == Some((p.2 - 1) as nat)
            &&& p.1@ == tokens@[0].text@ + seq![' '] + texts_join(
                tokens@.subrange(1, p.2 as int),
            )
        }),
{
    let kws: Vec<&str> = vec!["SEQUENCE", "SET", "CHOICE"];
    let kw_ok = match expect_one_of_keywords(tokens, kws.as_slice()) {
        Ok(b) => b,
        Err(e) => {
            return Err(e);
        },
    };
    if !kw_ok {
        return Err(ParseError::UnexpectedToken);
    }
    let id = tokens[0].text.clone();
    let rest: &[Token] = &tokens[1..tokens.len()];
    let (def, def_consumed) = match parse_set_ish_value(rest) {
        Ok(p) => p,
        Err(e) => {
            return Err(e);
        },
    };
    let mut out = id;
    out.append(" ");
    out.append(def.as_str());
    proof {
        reveal_strlit(" ");
        assert(" "@ =~= seq![' ']);
        assert(rest@.subrange(0, def_consumed as int) =~= tokens@.subrange(
            1,
            (1 + def_consumed) as int,
        ));
    }
    Ok((Asn1TypeKind::Constructed(Asn1ConstructedType::Sequence), out, 1 + def_consumed))
}

} // verus!
