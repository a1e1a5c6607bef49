use vstd::prelude::*;

use crate::err::Error;
use crate::token::{
    DelimType, OperatorType, Symbol, Token, lemma_symbols_push, result_symbols, symbols,
};

verus! {

/// The characters that carry the Unicode `White_Space` property, the same set
/// that `char::is_whitespace` accepts.
pub open spec fn is_blank(c: char) -> bool {
    ||| c == ' ' || c == '\t' || c == '\n' || c == '\u{0B}' || c == '\u{0C}' || c == '\r'
    ||| c == '\u{85}' || c == '\u{A0}' || c == '\u{1680}'
    ||| ('\u{2000}' <= c && c <= '\u{200A}')
    ||| c == '\u{2028}' || c == '\u{2029}' || c == '\u{202F}' || c == '\u{205F}'
    ||| c == '\u{3000}'
}

/// `s` with every whitespace character removed, the others kept in order.
pub open spec fn strip_blanks(s: Seq<char>) -> Seq<char>
    decreases s.len(),
{
    if s.len() == 0 {
        s
    } else if is_blank(s.last()) {
        strip_blanks(s.drop_last())
    } else {
        strip_blanks(s.drop_last()).push(s.last())
    }
}

fn char_is_blank(c: char) -> (r: bool)
    ensures
        r == is_blank(c),
{
    c == ' ' || c == '\t' || c == '\n' || c == '\u{0B}' || c == '\u{0C}' || c == '\r'
        || c == '\u{85}' || c == '\u{A0}' || c == '\u{1680}'
        || ('\u{2000}' <= c && c <= '\u{200A}')
        || c == '\u{2028}' || c == '\u{2029}' || c == '\u{202F}' || c == '\u{205F}'
        || c == '\u{3000}'
}

/// Relies on `String::push`: the character is appended at the end.
#[verifier::external_body]
fn push_char(s: &mut String, c: char)
    ensures
        final(s)@ == old(s)@.push(c),
{
    s.push(c)
}

/// Removes all whitespace from `s`: leading, trailing and internal.
pub fn sanitize_whitespace(s: &str) -> (r: String)
    ensures
        r@ == strip_blanks(s@),
{
    broadcast use vstd::string::axiom_spec_iter;

    let mut res = String::new();
    for c in it: s.chars()
        invariant
            it.seq() == s@,
            res@ == strip_blanks(it.seq().take(it.index() as int)),
    {
        proof {
            assert(it.seq().take(it.index() + 1).drop_last() == it.seq().take(it.index() as int));
        }
        if !char_is_blank(c) {
            push_char(&mut res, c);
        }
    }
    assert(s@.take(s@.len() as int) == s@);
    res
}

/// An ASCII decimal digit.
pub open spec fn is_digit(c: char) -> bool {
    '0' <= c && c <= '9'
}

/// A character that may continue a numeral once a digit has started it.
pub open spec fn is_numeral_char(c: char) -> bool {
    is_digit(c) || c == '.'
}

/// How many numeral characters follow one another from position `j` of `t`.
pub open spec fn numeral_run(t: Seq<char>, j: int) -> nat
    decreases t.len() - j,
{
    if 0 <= j < t.len() && is_numeral_char(t[j]) {
        1 + numeral_run(t, j + 1)
    } else {
        0
    }
}

/// The number of decimal points in `s`.
pub open spec fn count_points(s: Seq<char>) -> nat
    decreases s.len(),
{
    if s.len() == 0 {
        0
    } else {
        count_points(s.drop_last()) + if s.last() == '.' {
            1nat
        } else {
            0nat
        }
    }
}

/// The symbol that a single non-digit character stands for, if any.
pub open spec fn single_symbol(c: char) -> Option<Symbol> {
    if c == '+' {
        Some(Symbol::Operator(OperatorType::Add))
    } else if c == '-' {
        Some(Symbol::Operator(OperatorType::Subtract))
    } else if c == '*' {
        Some(Symbol::Operator(OperatorType::Multiply))
    } else if c == '/' {
        Some(Symbol::Operator(OperatorType::Divide))
    } else if c == '^' {
        Some(Symbol::Operator(OperatorType::Power))
    } else if c == '(' {
        Some(Symbol::Delimiter(DelimType::OpenParen))
    } else if c == ')' {
        Some(Symbol::Delimiter(DelimType::CloseParen))
    } else {
        None
    }
}

/// `s` placed in front of the symbols of `r`; an error stays as it is.
pub open spec fn prepend(s: Seq<Symbol>, r: Result<Seq<Symbol>, Error>) -> Result<
    Seq<Symbol>,
    Error,
> {
    match r {
        Ok(rest) => Ok(s + rest),
        Err(e) => Err(e),
    }
}

/// The symbols of `t` from position `i` on, scanning left to right: a digit
/// starts a numeral that takes every digit and point after it, and may hold
/// one point at most; each other accepted character is one symbol.
pub open spec fn lex(t: Seq<char>, i: nat) -> Result<Seq<Symbol>, Error>
    decreases t.len() - i,
    via lex_decreases
{
    if i >= t.len() {
        Ok(Seq::empty())
    } else if is_digit(t[i as int]) {
        let j = i + 1 + numeral_run(t, i + 1 as int);
        let numeral = t.subrange(i as int, j as int);
        if count_points(numeral) > 1 {
            Err(Error::InvalidChar)
        } else {
            prepend(seq![Symbol::Number(numeral)], lex(t, j))
        }
    } else {
        match single_symbol(t[i as int]) {
            Some(sym) => prepend(seq![sym], lex(t, i + 1)),
            None => Err(Error::InvalidChar),
        }
    }
}

/// A numeral as the tokenizer reads one: a digit first, then digits and
/// points, with one point at most.
pub open spec fn is_numeral(s: Seq<char>) -> bool {
    &&& s.len() > 0
    &&& is_digit(s[0])
    &&& forall|k: int| 0 <= k < s.len() ==> #[trigger] is_numeral_char(s[k])
    &&& count_points(s) <= 1
}

/// A numeral run never reaches past the end of the text.
pub proof fn lemma_numeral_run_bound(t: Seq<char>, j: int)
    requires
        0 <= j <= t.len(),
    ensures
        j + numeral_run(t, j) <= t.len(),
    decreases t.len() - j,
{
    if j < t.len() && is_numeral_char(t[j]) {
        lemma_numeral_run_bound(t, j + 1);
    }
}

#[via_fn]
proof fn lex_decreases(t: Seq<char>, i: nat) {
    if i < t.len() {
        lemma_numeral_run_bound(t, i + 1 as int);
    }
}

/// Every numeral among `syms` is well formed.
pub open spec fn numerals_ok(syms: Seq<Symbol>) -> bool {
    forall|k: int|
        0 <= k < syms.len() ==> (#[trigger] syms[k] matches Symbol::Number(s) ==> is_numeral(s))
}

proof fn lemma_numeral_run_chars(t: Seq<char>, j: int)
    requires
        0 <= j,
    ensures
        forall|k: int| j <= k < j + numeral_run(t, j) ==> #[trigger] is_numeral_char(t[k]),
    decreases t.len() - j,
{
    if j < t.len() && is_numeral_char(t[j]) {
        lemma_numeral_run_chars(t, j + 1);
    }
}

proof fn lemma_lex_numerals(t: Seq<char>, i: nat)
    ensures
        lex(t, i) matches Ok(syms) ==> numerals_ok(syms),
    decreases t.len() - i,
{
    if i < t.len() {
        if is_digit(t[i as int]) {
            let j = i + 1 + numeral_run(t, i + 1 as int);
            lemma_numeral_run_bound(t, i + 1 as int);
            lemma_numeral_run_chars(t, i + 1 as int);
            lemma_lex_numerals(t, j);
            let numeral = t.subrange(i as int, j as int);
            assert forall|k: int| 0 <= k < numeral.len() implies #[trigger] is_numeral_char(
                numeral[k],
            ) by {
                if k > 0 {
                    assert(is_numeral_char(t[i + k]));
                }
            }
            assert(numeral[0] == t[i as int]);
            if let Ok(rest) = lex(t, j) {
                let all = seq![Symbol::Number(numeral)] + rest;
                if count_points(numeral) <= 1 {
                    assert(is_numeral(numeral));
                    assert forall|k: int| 0 <= k < all.len() implies (
                    #[trigger] all[k] matches Symbol::Number(s) ==> is_numeral(s)) by {
                        if k > 0 {
                            assert(all[k] == rest[k - 1]);
                        }
                    }
                }
            }
        } else {
            lemma_lex_numerals(t, i + 1);
            if let (Some(sym), Ok(rest)) = (single_symbol(t[i as int]), lex(t, i + 1)) {
                let all = seq![sym] + rest;
                assert forall|k: int| 0 <= k < all.len() implies (#[trigger] all[k] matches Symbol::Number(
                    s,
                ) ==> is_numeral(s)) by {
                    if k > 0 {
                        assert(all[k] == rest[k - 1]);
                    }
                }
            }
        }
    }
}

/// The tokenizer emits well-formed numerals only.
pub proof fn lemma_tokens_numerals(input: Seq<char>)
    ensures
        tokens_of(input) matches Ok(syms) ==> numerals_ok(syms),
{
    lemma_lex_numerals(strip_blanks(input), 0);
}

/// Opening brackets minus closing brackets.
pub open spec fn bracket_balance(syms: Seq<Symbol>) -> int
    decreases syms.len(),
{
    if syms.len() == 0 {
        0
    } else {
        bracket_balance(syms.drop_last()) + match syms.last() {
            Symbol::Delimiter(DelimType::OpenParen) => 1int,
            Symbol::Delimiter(DelimType::CloseParen) => -1int,
            _ => 0int,
        }
    }
}

/// The tokens of an input text, or the error that rejects it.
pub open spec fn tokens_of(input: Seq<char>) -> Result<Seq<Symbol>, Error> {
    let t = strip_blanks(input);
    if t.len() == 0 {
        Err(Error::EmptyExpression)
    } else {
        match lex(t, 0) {
            Err(e) => Err(e),
            Ok(syms) => if bracket_balance(syms) != 0 {
                Err(Error::UnmatchedBracket)
            } else {
                Ok(syms)
            },
        }
    }
}

proof fn lemma_prepend_push(pre: Seq<Symbol>, sym: Symbol, r: Result<Seq<Symbol>, Error>)
    ensures
        prepend(pre, prepend(seq![sym], r)) == prepend(pre.push(sym), r),
{
    if let Ok(rest) = r {
        assert(pre + (seq![sym] + rest) =~= pre.push(sym) + rest);
    }
}

/// The characters of `s`, in order.
fn chars_of(s: &str) -> (v: Vec<char>)
    ensures
        v@ == s@,
{
    broadcast use vstd::string::axiom_spec_iter;

    let mut v: Vec<char> = Vec::new();
    for c in it: s.chars()
        invariant
            it.seq() == s@,
            v@ == it.seq().take(it.index() as int),
    {
        proof {
            assert(it.seq().take(it.index() + 1) == it.seq().take(it.index() as int).push(c));
        }
        v.push(c);
    }
    assert(s@.take(s@.len() as int) == s@);
    v
}

/// Reads the numeral that starts with the digit at `start`: its text, the
/// position just after it and the number of points in it.
fn scan_numeral(t: &Vec<char>, start: usize) -> (r: (String, usize, usize))
    requires
        start < t.len(),
        is_digit(t@[start as int]),
    ensures
        r.1 == start + 1 + numeral_run(t@, start + 1),
        r.1 <= t.len(),
        r.0@ == t@.subrange(start as int, r.1 as int),
        r.2 == count_points(r.0@),
{
    let mut text = String::new();
    push_char(&mut text, t[start]);
    let mut points: usize = 0;
    let mut k: usize = start + 1;
    proof {
        assert(text@ =~= t@.subrange(start as int, k as int));
        assert(text@.drop_last() =~= Seq::<char>::empty());
        assert(count_points(text@.drop_last()) == 0);
    }
    while k < t.len() && (('0' <= t[k] && t[k] <= '9') || t[k] == '.')
        invariant
            start < k <= t.len(),
            numeral_run(t@, start + 1) == (k - start - 1) + numeral_run(t@, k as int),
            text@ == t@.subrange(start as int, k as int),
            points == count_points(text@),
            points <= k - start,
        decreases t.len() - k,
    {
        if t[k] == '.' {
            points = points + 1;
        }
        push_char(&mut text, t[k]);
        k = k + 1;
        proof {
            assert(text@ =~= t@.subrange(start as int, k as int));
            assert(text@.drop_last() =~= t@.subrange(start as int, k - 1));
        }
    }
    (text, k, points)
}

/// The token that a single non-digit character stands for, if any.
fn single_token(c: char) -> (r: Option<Token>)
    ensures
        match r {
            Some(tok) => single_symbol(c) == Some(tok@),
            None => single_symbol(c) is None,
        },
{
    if c == '+' {
        Some(Token::Operator(OperatorType::Add))
    } else if c == '-' {
        Some(Token::Operator(OperatorType::Subtract))
    } else if c == '*' {
        Some(Token::Operator(OperatorType::Multiply))
    } else if c == '/' {
        Some(Token::Operator(OperatorType::Divide))
    } else if c == '^' {
        Some(Token::Operator(OperatorType::Power))
    } else if c == '(' {
        Some(Token::Delimiter(DelimType::OpenParen))
    } else if c == ')' {
        Some(Token::Delimiter(DelimType::CloseParen))
    } else {
        None
    }
}

/// Splits an infix expression into tokens.
///
/// Whitespace is removed first; what is left must not be empty
/// (`EmptyExpression`). A digit starts a numeral, which takes every digit
/// and point that follows and may hold one point at most; the characters
/// `+ - * / ^ ( )` are one token each; anything else is an `InvalidChar`.
/// Brackets must balance in number (`UnmatchedBracket`).
pub fn tokenize(input: &str) -> (r: Result<Vec<Token>, Error>)
    ensures
        result_symbols(r) == tokens_of(input@),
        r matches Ok(v) ==> numerals_ok(symbols(v@)),
{
    proof {
        lemma_tokens_numerals(input@);
    }
    let text = sanitize_whitespace(input);
    let t = chars_of(text.as_str());
    if t.len() == 0 {
        return Err(Error::EmptyExpression);
    }
    let mut res: Vec<Token> = Vec::new();
    let mut opens: usize = 0;
    let mut closes: usize = 0;
    let mut i: usize = 0;
    proof {
        assert(symbols(res@) =~= Seq::<Symbol>::empty());
        assert(Seq::<Symbol>::empty() + Seq::<Symbol>::empty() =~= Seq::<Symbol>::empty());
        if let Ok(rest) = lex(t@, 0) {
            assert(Seq::<Symbol>::empty() + rest =~= rest);
        }
    }
    while i < t.len()
        invariant
            t@ == strip_blanks(input@),
            t.len() > 0,
            i <= t.len(),
            lex(t@, 0) == prepend(symbols(res@), lex(t@, i as nat)),
            opens - closes == bracket_balance(symbols(res@)),
            opens <= i,
            closes <= i,
        decreases t.len() - i,
    {
        let c = t[i];
        let ghost before = symbols(res@);
        if '0' <= c && c <= '9' {
            let (numeral, end, points) = scan_numeral(&t, i);
            if points > 1 {
                assert(lex(t@, i as nat) == Err::<Seq<Symbol>, Error>(Error::InvalidChar));
                return Err(Error::InvalidChar);
            }
            let tok = Token::Number(numeral);
            proof {
                lemma_prepend_push(before, tok@, lex(t@, end as nat));
                lemma_symbols_push(res@, tok);
                assert(symbols(res@.push(tok)).drop_last() == before);
            }
            res.push(tok);
            i = end;
        } else {
            match single_token(c) {
                None => {
                    assert(lex(t@, i as nat) == Err::<Seq<Symbol>, Error>(Error::InvalidChar));
                    return Err(Error::InvalidChar);
                },
                Some(tok) => {
                    proof {
                        lemma_prepend_push(before, tok@, lex(t@, (i + 1) as nat));
                        lemma_symbols_push(res@, tok);
                        assert(symbols(res@.push(tok)).drop_last() == before);
                    }
                    if c == '(' {
                        opens = opens + 1;
                    } else if c == ')' {
                        closes = closes + 1;
                    }
                    res.push(tok);
                    i = i + 1;
                },
            }
        }
    }
    proof {
        assert(symbols(res@) + Seq::<Symbol>::empty() =~= symbols(res@));
    }
    if opens != closes {
        Err(Error::UnmatchedBracket)
    } else {
        Ok(res)
    }
}

} // verus!
