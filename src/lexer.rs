//! The lexer: one token per letter.

use vstd::prelude::*;
use crate::func::{BasicFunc, DoubleFunc, HigherFunc};

verus! {

/// The tokens that close a body.
#[derive(Clone, Copy, Debug, PartialEq, Eq, Structural)]
pub enum BoundToken {
    /// `z`: closes the innermost open operator.
    Bound1,
    /// `q`: one of a pair of quote marks around a body.
    BoundQuote,
    /// A `q` without a partner; it opens just after the first open operator.
    SoloQuote,
}

/// A token of the language.
#[derive(Clone, Copy, Debug, PartialEq, Eq, Structural)]
pub enum Token {
    Basic(BasicFunc),
    Higher(HigherFunc),
    Double(DoubleFunc),
    Bound(BoundToken),
}

/// The token that a letter stands for, if any.
pub open spec fn token_of(c: char) -> Option<Token> {
    if c == 'a' {
        Some(Token::Basic(BasicFunc::AllPair))
    } else if c == 'b' {
        Some(Token::Double(DoubleFunc::Bifurcate))
    } else if c == 'c' {
        Some(Token::Basic(BasicFunc::Combine))
    } else if c == 'e' {
        Some(Token::Basic(BasicFunc::Equal))
    } else if c == 'f' {
        Some(Token::Higher(HigherFunc::Filter))
    } else if c == 'h' {
        Some(Token::Basic(BasicFunc::Head))
    } else if c == 'i' {
        Some(Token::Higher(HigherFunc::Inverse))
    } else if c == 'l' {
        Some(Token::Basic(BasicFunc::Length))
    } else if c == 'm' {
        Some(Token::Higher(HigherFunc::MapEach))
    } else if c == 'n' {
        Some(Token::Basic(BasicFunc::Negate))
    } else if c == 'o' {
        Some(Token::Higher(HigherFunc::Order))
    } else if c == 'p' {
        Some(Token::Basic(BasicFunc::Product))
    } else if c == 'q' {
        Some(Token::Bound(BoundToken::BoundQuote))
    } else if c == 'r' {
        Some(Token::Higher(HigherFunc::Repeat))
    } else if c == 's' {
        Some(Token::Basic(BasicFunc::Sum))
    } else if c == 't' {
        Some(Token::Basic(BasicFunc::Tail))
    } else if c == 'w' {
        Some(Token::Double(DoubleFunc::While))
    } else if c == 'x' {
        Some(Token::Higher(HigherFunc::FixedPoint))
    } else if c == 'y' {
        Some(Token::Basic(BasicFunc::PowerSet))
    } else if c == 'z' {
        Some(Token::Bound(BoundToken::Bound1))
    } else {
        None
    }
}

/// How many paired-quote tokens the sequence holds.
pub open spec fn quote_count(t: Seq<Token>) -> nat
    decreases t.len(),
{
    if t.len() == 0 {
        0
    } else {
        quote_count(t.drop_last()) + if t.last() == Token::Bound(BoundToken::BoundQuote) {
            1nat
        } else {
            0nat
        }
    }
}

/// The index of the first paired-quote token.
pub open spec fn first_quote(t: Seq<Token>) -> int
    decreases t.len(),
{
    if t.len() == 0 || t[0] == Token::Bound(BoundToken::BoundQuote) {
        0
    } else {
        1 + first_quote(t.skip(1))
    }
}

/// Every character is a letter of the language.
pub open spec fn lexable(s: Seq<char>) -> bool {
    forall|i: int| 0 <= i < s.len() ==> (#[trigger] token_of(s[i])) is Some
}

/// The token of each character, in order.
pub open spec fn raw_tokens(s: Seq<char>) -> Seq<Token> {
    Seq::new(s.len(), |i: int| token_of(s[i])->0)
}

/// The tokens of a program, or `None` where a character is not a letter of
/// the language; with an odd number of quotes the first becomes a solo quote.
pub open spec fn lex_spec(s: Seq<char>) -> Option<Seq<Token>> {
    if !lexable(s) {
        None
    } else {
        let raw = raw_tokens(s);
        if quote_count(raw) % 2 == 1 {
            Some(raw.update(first_quote(raw), Token::Bound(BoundToken::SoloQuote)))
        } else {
            Some(raw)
        }
    }
}

proof fn lemma_no_quote(t: Seq<Token>)
    requires
        forall|j: int| 0 <= j < t.len() ==> t[j] != Token::Bound(BoundToken::BoundQuote),
    ensures
        quote_count(t) == 0,
    decreases t.len(),
{
    if t.len() > 0 {
        lemma_no_quote(t.drop_last());
    }
}

fn char_token(c: char) -> (r: Option<Token>)
    ensures
        r == token_of(c),
{
    match c {
        'a' => Some(Token::Basic(BasicFunc::AllPair)),
        'b' => Some(Token::Double(DoubleFunc::Bifurcate)),
        'c' => Some(Token::Basic(BasicFunc::Combine)),
        'e' => Some(Token::Basic(BasicFunc::Equal)),
        'f' => Some(Token::Higher(HigherFunc::Filter)),
        'h' => Some(Token::Basic(BasicFunc::Head)),
        'i' => Some(Token::Higher(HigherFunc::Inverse)),
        'l' => Some(Token::Basic(BasicFunc::Length)),
        'm' => Some(Token::Higher(HigherFunc::MapEach)),
        'n' => Some(Token::Basic(BasicFunc::Negate)),
        'o' => Some(Token::Higher(HigherFunc::Order)),
        'p' => Some(Token::Basic(BasicFunc::Product)),
        'q' => Some(Token::Bound(BoundToken::BoundQuote)),
        'r' => Some(Token::Higher(HigherFunc::Repeat)),
        's' => Some(Token::Basic(BasicFunc::Sum)),
        't' => Some(Token::Basic(BasicFunc::Tail)),
        'w' => Some(Token::Double(DoubleFunc::While)),
        'x' => Some(Token::Higher(HigherFunc::FixedPoint)),
        'y' => Some(Token::Basic(BasicFunc::PowerSet)),
        'z' => Some(Token::Bound(BoundToken::Bound1)),
        _ => None,
    }
}

/// Maps each letter of the program to its token; `None` at the first
/// character that is not a letter of the language. Where the program holds an
/// odd number of `q`, the first of them becomes a solo quote.
pub fn lex(code: &str) -> (r: Option<Vec<Token>>)
    ensures
        match r {
            Some(t) => lex_spec(code@) == Some(t@),
            None => lex_spec(code@) is None,
        },
{
    let n = code.unicode_len();
    let ghost s = code@;
    let mut tokens: Vec<Token> = Vec::new();
    let mut i: usize = 0;
    while i < n
        invariant
            n == s.len(),
            s == code@,
            i <= n,
            tokens@ =~= raw_tokens(s).subrange(0, i as int),
            forall|j: int| 0 <= j < i ==> (#[trigger] token_of(s[j])) is Some,
        decreases n - i,
    {
        let c = code.get_char(i);
        match char_token(c) {
            Some(t) => tokens.push(t),
            None => {
                return None;
            },
        }
        i += 1;
    }
    let ghost raw = raw_tokens(s);
    assert(tokens@ =~= raw);
    let mut count: usize = 0;
    let mut k: usize = 0;
    while k < tokens.len()
        invariant
            tokens@ == raw,
            k <= tokens@.len(),
            count == quote_count(raw.subrange(0, k as int)),
            count <= k,
        decreases tokens@.len() - k,
    {
        assert(raw.subrange(0, k as int + 1).drop_last() =~= raw.subrange(0, k as int));
        if tokens[k] == Token::Bound(BoundToken::BoundQuote) {
            count += 1;
        }
        k += 1;
    }
    assert(raw.subrange(0, raw.len() as int) =~= raw);
    if count % 2 == 1 {
        let mut f: usize = 0;
        while f < tokens.len() && tokens[f] != Token::Bound(BoundToken::BoundQuote)
            invariant
                tokens@ == raw,
                f <= raw.len(),
                first_quote(raw) == f + first_quote(raw.skip(f as int)),
                forall|j: int| 0 <= j < f ==> raw[j] != Token::Bound(BoundToken::BoundQuote),
            decreases raw.len() - f,
        {
            assert(raw.skip(f as int).skip(1) =~= raw.skip(f as int + 1));
            f += 1;
        }
        if f == tokens.len() {
            proof {
                lemma_no_quote(raw);
            }
            return Some(tokens);
        }
        tokens.set(f, Token::Bound(BoundToken::SoloQuote));
    }
    Some(tokens)
}

} // verus!
