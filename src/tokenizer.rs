use vstd::prelude::*;

use crate::token::{ErrorKind, Expression, Token, TokenView, tokens_view};

verus! {

/// Whether `c` is a decimal digit.
pub open spec fn is_digit(c: char) -> bool {
    '0' <= c && c <= '9'
}

/// The token that an operator or grouping character stands for: the letters
/// `a`..`f`, or the symbols `+ - * / ( )` themselves.
pub open spec fn symbol_of(c: char) -> Option<TokenView> {
    if c == 'a' || c == '+' {
        Some(TokenView::Operator('+'))
    } else if c == 'b' || c == '-' {
        Some(TokenView::Operator('-'))
    } else if c == 'c' || c == '*' {
        Some(TokenView::Operator('*'))
    } else if c == 'd' || c == '/' {
        Some(TokenView::Operator('/'))
    } else if c == 'e' || c == '(' {
        Some(TokenView::LeftParen)
    } else if c == 'f' || c == ')' {
        Some(TokenView::RightParen)
    } else {
        None
    }
}

/// Whether the notation accepts `c` at all.
pub open spec fn is_accepted(c: char) -> bool {
    is_digit(c) || c == ' ' || symbol_of(c) is Some
}

/// The tokens emitted so far, with the pending digits appended as a number if
/// there are any.
pub open spec fn flush(tokens: Seq<TokenView>, digits: Seq<char>) -> Seq<TokenView> {
    if digits.len() == 0 {
        tokens
    } else {
        tokens.push(TokenView::Number(digits))
    }
}

/// The tokenizer's state after reading `s` from left to right: the tokens
/// emitted and the digits of the number being read; or the first character
/// that the notation does not accept.
pub open spec fn scan(s: Seq<char>) -> Result<(Seq<TokenView>, Seq<char>), ErrorKind>
    decreases s.len(),
{
    if s.len() == 0 {
        Ok((Seq::empty(), Seq::empty()))
    } else {
        match scan(s.drop_last()) {
            Err(e) => Err(e),
            Ok((tokens, digits)) => {
                let c = s.last();
                if is_digit(c) {
                    Ok((tokens, digits.push(c)))
                } else if c == ' ' {
                    Ok((tokens, digits))
                } else {
                    match symbol_of(c) {
                        Some(t) => Ok((flush(tokens, digits).push(t), Seq::empty())),
                        None => Err(ErrorKind::UnexpectedCharacter(c)),
                    }
                }
            },
        }
    }
}

/// The token sequence that `s` reads as.
pub open spec fn tokens_of(s: Seq<char>) -> Result<Seq<TokenView>, ErrorKind> {
    match scan(s) {
        Err(e) => Err(e),
        Ok((tokens, digits)) => Ok(flush(tokens, digits)),
    }
}

/// Once scanning has failed, reading more characters keeps the same failure.
pub proof fn lemma_scan_error_sticks(s: Seq<char>, k: int, m: int)
    requires
        0 <= k <= m <= s.len(),
        scan(s.take(k)) is Err,
    ensures
        scan(s.take(m)) == scan(s.take(k)),
    decreases m - k,
{
    if m > k {
        lemma_scan_error_sticks(s, k, m - 1);
        assert(s.take(m).drop_last() =~= s.take(m - 1));
    }
}

/// The token for an operator or grouping character.
fn symbol_token(c: char) -> (r: Option<Token>)
    ensures
        match r {
            Some(t) => symbol_of(c) == Some(t@),
            None => symbol_of(c) is None,
        },
{
    if c == 'a' || c == '+' {
        Some(Token::Operator('+'))
    } else if c == 'b' || c == '-' {
        Some(Token::Operator('-'))
    } else if c == 'c' || c == '*' {
        Some(Token::Operator('*'))
    } else if c == 'd' || c == '/' {
        Some(Token::Operator('/'))
    } else if c == 'e' || c == '(' {
        Some(Token::LeftParen)
    } else if c == 'f' || c == ')' {
        Some(Token::RightParen)
    } else {
        None
    }
}

/// Reads `text` into its token sequence, in one left-to-right pass.
///
/// Digits gather into a number until an operator or grouping character
/// comes; spaces are skipped without ending the number. Any other character
/// fails with `UnexpectedCharacter`.
pub fn tokenize(text: &str) -> (r: Result<Expression, ErrorKind>)
    ensures
        match r {
            Ok(e) => tokens_of(text@) == Ok::<Seq<TokenView>, ErrorKind>(e@),
            Err(k) => tokens_of(text@) == Err::<Seq<TokenView>, ErrorKind>(k),
        },
{
    let mut tokens: Vec<Token> = Vec::new();
    let mut digits: Vec<char> = Vec::new();
    proof {
        assert(text@.take(0) =~= Seq::<char>::empty());
        assert(tokens_view(tokens@) =~= Seq::<TokenView>::empty());
    }
    for c in it: text.chars()
        invariant
            it.seq() == text@,
            scan(text@.take(it.index() as int)) == Ok::<(Seq<TokenView>, Seq<char>), ErrorKind>(
                (tokens_view(tokens@), digits@),
            ),
    {
        let ghost i = it.index();
        let ghost before = tokens_view(tokens@);
        assert(c == text@[i as int]);
        assert(text@.take(i + 1).drop_last() =~= text@.take(i as int));
        assert(text@.take(i + 1).last() == c);
        if '0' <= c && c <= '9' {
            digits.push(c);
        } else if c == ' ' {
        } else {
            match symbol_token(c) {
                Some(t) => {
                    let ghost d = digits@;
                    if digits.len() > 0 {
                        tokens.push(Token::Number(digits));
                        digits = Vec::new();
                    }
                    tokens.push(t);
                    assert(tokens_view(tokens@) =~= flush(before, d).push(t@));
                    assert(digits@ =~= Seq::<char>::empty());
                },
                None => {
                    proof {
                        lemma_scan_error_sticks(text@, it.index() + 1, text@.len() as int);
                        assert(text@.take(text@.len() as int) =~= text@);
                    }
                    return Err(ErrorKind::UnexpectedCharacter(c));
                },
            }
        }
    }
    assert(text@.take(text@.len() as int) =~= text@);
    let ghost before = tokens_view(tokens@);
    let ghost d = digits@;
    if digits.len() > 0 {
        tokens.push(Token::Number(digits));
    }
    assert(tokens_view(tokens@) =~= flush(before, d));
    Ok(Expression { tokens })
}

} // verus!
