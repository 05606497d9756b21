//! Token-expectation helpers: each looks at the head of the token stream
//! and reports whether it matches, failing only when the stream has run out.
use crate::parser::token::{spec_check, check_token, ParseError, Token, TokenChecker, TokenKind};
use vstd::prelude::*;
use vstd::string::StringExecFns;

verus! {

/// The texts of the given tokens, joined by single spaces.
pub open spec fn texts_join(toks: Seq<Token>) -> Seq<char>
    decreases toks.len(),
{
    if toks.len() == 0 {
        Seq::empty()
    } else if toks.len() == 1 {
        toks[0].text@
    } else {
        texts_join(toks.drop_last()) + seq![' '] + toks.last().text@
    }
}

/// The position just after a bracketed group closes, scanning from `i`
/// with `depth` groups open; `None` when the stream ends first.
pub open spec fn spec_group_end(
    toks: Seq<Token>,
    ob: TokenKind,
    cb: TokenKind,
    i: nat,
    depth: nat,
) -> Option<nat>
    decreases toks.len() - i,
{
    if depth == 0 {
        Some(i)
    } else if i >= toks.len() {
        None
    } else {
        let d = if toks[i as int].kind == ob {
            depth + 1
        } else if toks[i as int].kind == cb {
            (depth - 1) as nat
        } else {
            depth
        };
        spec_group_end(toks, ob, cb, i + 1, d)
    }
}

/// The number of tokens a balanced bracketed group at the head of the
/// stream takes, or `None` when there is no such group.
pub open spec fn spec_group(toks: Seq<Token>, ob: TokenKind, cb: TokenKind) -> Option<nat> {
    if toks.len() > 0 && toks[0].kind == ob {
        spec_group_end(toks, ob, cb, 1, 1)
    } else {
        None
    }
}

/// What a constraint parse at the head of the stream yields: the joined
/// text of the balanced `( ... )` group and its token count.
pub open spec fn spec_constraints(toks: Seq<Token>) -> Option<(Seq<char>, nat)> {
    match spec_group(toks, TokenKind::RoundBegin, TokenKind::RoundEnd) {
        Some(c) => Some((texts_join(toks.subrange(0, c as int)), c)),
        None => None,
    }
}

/// Is the first token the given keyword? Fails only on an empty stream.
pub fn expect_keyword(tokens: &[Token], keyword: &str) -> (r: Result<bool, ParseError>)
    ensures
        r.is_err() <==> tokens@.len() == 0,
        r matches Ok(b) ==> b == (tokens@[0].kind == TokenKind::Keyword && tokens@[0].text@
            == keyword@),
        r matches Err(e) ==> e == ParseError::UnexpectedEnd,
{
    if tokens.len() == 0 {
        Err(ParseError::UnexpectedEnd)
    } else {
        Ok(tokens[0].is_keyword() && tokens[0].text_is(keyword))
    }
}

/// Is the first token one of the given keywords? Fails only on an empty
/// stream.
pub fn expect_one_of_keywords(tokens: &[Token], keywords: &[&str]) -> (r: Result<
    bool,
    ParseError,
>)
    ensures
        r.is_err() <==> tokens@.len() == 0,
        r matches Ok(b) ==> b == (exists|i: int|
            0 <= i < keywords@.len() && tokens@[0].kind == TokenKind::Keyword && tokens@[0].text@
                == #[trigger] keywords@[i]@),
        r matches Err(e) ==> e == ParseError::UnexpectedEnd,
{
    if tokens.len() == 0 {
        return Err(ParseError::UnexpectedEnd);
    }
    let mut i: usize = 0;
    while i < keywords.len()
        invariant
            i <= keywords@.len(),
            tokens@.len() > 0,
            forall|k: int|
                0 <= k < i ==> !(tokens@[0].kind == TokenKind::Keyword && tokens@[0].text@
                    == #[trigger] keywords@[k]@),
        decreases keywords@.len() - i,
    {
        if tokens[0].is_keyword() && tokens[0].text_is(keywords[i]) {
            return Ok(true);
        }
        i = i + 1;
    }
    Ok(false)
}

/// Does the first token pass the given check? Fails only on an empty
/// stream.
pub fn expect_token(tokens: &[Token], checker: TokenChecker) -> (r: Result<bool, ParseError>)
    ensures
        r.is_err() <==> tokens@.len() == 0,
        r matches Ok(b) ==> b == spec_check(checker, tokens@[0]),
        r matches Err(e) ==> e == ParseError::UnexpectedEnd,
{
    if tokens.len() == 0 {
        Err(ParseError::UnexpectedEnd)
    } else {
        Ok(check_token(checker, &tokens[0]))
    }
}

/// Does any of the checks accept the token?
pub open spec fn any_check(cs: Seq<TokenChecker>, t: Token) -> bool {
    exists|i: int| 0 <= i < cs.len() && spec_check(#[trigger] cs[i], t)
}

/// Does the first token pass any of the given checks? Fails only on an
/// empty stream.
pub fn expect_token_one_of(tokens: &[Token], checkers: &[TokenChecker]) -> (r: Result<
    bool,
    ParseError,
>)
    ensures
        r.is_err() <==> tokens@.len() == 0,
        r matches Ok(b) ==> b == any_check(checkers@, tokens@[0]),
        r matches Err(e) ==> e == ParseError::UnexpectedEnd,
{
    if tokens.len() == 0 {
        return Err(ParseError::UnexpectedEnd);
    }
    let mut i: usize = 0;
    while i < checkers.len()
        invariant
            i <= checkers@.len(),
            tokens@.len() > 0,
            forall|k: int| 0 <= k < i ==> !spec_check(#[trigger] checkers@[k], tokens@[0]),
        decreases checkers@.len() - i,
    {
        if check_token(checkers[i], &tokens[0]) {
            return Ok(true);
        }
        i = i + 1;
    }
    Ok(false)
}

/// Do the leading tokens each pass one of their respective checks? Fails
/// only when fewer tokens remain than check groups.
pub fn expect_tokens(tokens: &[Token], checkers: &[Vec<TokenChecker>]) -> (r: Result<
    bool,
    ParseError,
>)
    ensures
        r.is_err() <==> tokens@.len() < checkers@.len(),
        r matches Ok(b) ==> b == (forall|i: int|
            0 <= i < checkers@.len() ==> #[trigger] any_check(checkers@[i]@, tokens@[i])),
        r matches Err(e) ==> e == ParseError::UnexpectedEnd,
{
    if tokens.len() < checkers.len() {
        return Err(ParseError::UnexpectedEnd);
    }
    let mut i: usize = 0;
    while i < checkers.len()
        invariant
            i <= checkers@.len(),
            checkers@.len() <= tokens@.len(),
            forall|k: int| 0 <= k < i ==> #[trigger] any_check(checkers@[k]@, tokens@[k]),
        decreases checkers@.len() - i,
    {
        let group: &Vec<TokenChecker> = &checkers[i];
        let rest: &[Token] = &tokens[i..tokens.len()];
        let found = match expect_token_one_of(rest, group.as_slice()) {
            Ok(b) => b,
            Err(_) => {
                proof {
                    assert(false);
                }
                false
            },
        };
        proof {
            assert(rest@[0] == tokens@[i as int]);
            assert(group@ == checkers@[i as int]@);
        }
        if !found {
            proof {
                assert(!any_check(checkers@[i as int]@, tokens@[i as int]));
            }
            return Ok(false);
        }
        i = i + 1;
    }
    Ok(true)
}

/// Reads one balanced `{ ... }` group from the head of the stream and
/// returns its text, braces included, with the number of tokens consumed.
pub fn parse_set_ish_value(tokens: &[Token]) -> (r: Result<(String, usize), ParseError>)
    ensures
        r.is_ok() <==> spec_group(tokens@, TokenKind::CurlyBegin, TokenKind::CurlyEnd) is Some,
        r matches Ok(p) ==> 2 <= p.1 <= tokens@.len() && tokens@[0].kind == TokenKind::CurlyBegin
            && tokens@[p.1 - 1].kind == TokenKind::CurlyEnd && spec_group(
            tokens@,
            TokenKind::CurlyBegin,
            TokenKind::CurlyEnd,
        ) == Some(p.1 as nat) && p.0@ == texts_join(tokens@.subrange(0, p.1 as int)),
        tokens@.len() == 0 ==> r == Err::<(String, usize), ParseError>(ParseError::UnexpectedEnd),
{
    if tokens.len() == 0 {
        return Err(ParseError::UnexpectedEnd);
    }
    if !(tokens[0].kind == TokenKind::CurlyBegin) {
        return Err(ParseError::UnexpectedToken);
    }
    let mut depth: usize = 1;
    let mut i: usize = 1;
    let mut out: String = tokens[0].text.clone();
    proof {
        assert(texts_join(tokens@.subrange(0, 1)) == tokens@[0].text@);
    }
    while depth > 0 && i < tokens.len()
        invariant
            1 <= i <= tokens@.len(),
            depth <= i,
            out@ == texts_join(tokens@.subrange(0, i as int)),
            depth == 0 ==> tokens@[i - 1].kind == TokenKind::CurlyEnd,
            spec_group_end(
                tokens@,
                TokenKind::CurlyBegin,
                TokenKind::CurlyEnd,
                i as nat,
                depth as nat,
            ) == spec_group(tokens@, TokenKind::CurlyBegin, TokenKind::CurlyEnd),
        decreases tokens@.len() - i,
    {
        let t = &tokens[i];
        if t.kind == TokenKind::CurlyBegin {
            depth = depth + 1;
        } else if t.kind == TokenKind::CurlyEnd {
            depth = depth - 1;
        }
        out.append(" ");
        out.append(t.text.as_str());
        proof {
            reveal_strlit(" ");
            assert(" "@ =~= seq![' ']);
            let pre = tokens@.subrange(0, i as int);
            let cur = tokens@.subrange(0, i + 1);
            assert(cur.drop_last() =~= pre);
            assert(cur.last() == tokens@[i as int]);
        }
        i = i + 1;
    }
    if depth != 0 {
        return Err(ParseError::UnexpectedEnd);
    }
    Ok((out, i))
}

/// Reads one balanced `( ... )` constraint group from the head of the
/// stream and returns its text with the number of tokens consumed.
pub fn parse_constraints(tokens: &[Token]) -> (r: Result<(String, usize), ParseError>)
    ensures
        r.is_ok() <==> spec_constraints(tokens@) is Some,
        r matches Ok(p) ==> 2 <= p.1 <= tokens@.len() && tokens@[0].kind == TokenKind::RoundBegin
            && tokens@[p.1 - 1].kind == TokenKind::RoundEnd && spec_constraints(tokens@) == Some(
            (p.0@, p.1 as nat),
        ) && p.0@ == texts_join(tokens@.subrange(0, p.1 as int)),
        tokens@.len() == 0 ==> r == Err::<(String, usize), ParseError>(ParseError::UnexpectedEnd),
{
    if tokens.len() == 0 {
        return Err(ParseError::UnexpectedEnd);
    }
    if !(tokens[0].kind == TokenKind::RoundBegin) {
        return Err(ParseError::UnexpectedToken);
    }
    let mut depth: usize = 1;
    let mut i: usize = 1;
    let mut out: String = tokens[0].text.clone();
    proof {
        assert(texts_join(tokens@.subrange(0, 1)) == tokens@[0].text@);
    }
    while depth > 0 && i < tokens.len()
        invariant
            1 <= i <= tokens@.len(),
            depth <= i,
            out@ == texts_join(tokens@.subrange(0, i as int)),
            depth == 0 ==> tokens@[i - 1].kind == TokenKind::RoundEnd,
            spec_group_end(
                tokens@,
                TokenKind::RoundBegin,
                TokenKind::RoundEnd,
                i as nat,
                depth as nat,
            ) == spec_group(tokens@, TokenKind::RoundBegin, TokenKind::RoundEnd),
        decreases tokens@.len() - i,
    {
        let t = &tokens[i];
        if t.kind == TokenKind::RoundBegin {
            depth = depth + 1;
        } else if t.kind == TokenKind::RoundEnd {
            depth = depth - 1;
        }
        out.append(" ");
        out.append(t.text.as_str());
        proof {
            reveal_strlit(" ");
            assert(" "@ =~= seq![' ']);
            let pre = tokens@.subrange(0, i as int);
            let cur = tokens@.subrange(0, i + 1);
            assert(cur.drop_last() =~= pre);
            assert(cur.last() == tokens@[i as int]);
        }
        i = i + 1;
    }
    if depth != 0 {
        return Err(ParseError::UnexpectedEnd);
    }
    Ok((out, i))
}

} // verus!
