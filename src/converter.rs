use vstd::prelude::*;

use crate::err::Error;
use crate::token::{
    DelimType, OperatorType, Symbol, Token, lemma_symbols_drop_last, lemma_symbols_push, symbols,
    result_symbols,
};

verus! {

/// Binding strength: additive 1, multiplicative 2, exponentiation 3;
/// brackets and everything else 0, so that they never cause a pop.
pub open spec fn precedence_of(s: Symbol) -> nat {
    match s {
        Symbol::Operator(OperatorType::Add) | Symbol::Operator(OperatorType::Subtract) => 1,
        Symbol::Operator(OperatorType::Multiply) | Symbol::Operator(OperatorType::Divide) => 2,
        Symbol::Operator(OperatorType::Power) => 3,
        _ => 0,
    }
}

/// The state of a conversion: the output so far and the working stack.
pub type Shunt = (Seq<Symbol>, Seq<Symbol>);

/// A closing bracket: pops the stack onto the output down to the nearest
/// opening bracket, which is dropped; chain markers are dropped too.
pub open spec fn close_bracket(res: Seq<Symbol>, stack: Seq<Symbol>) -> Result<Shunt, Error>
    decreases stack.len(),
{
    if stack.len() == 0 {
        Err(Error::UnmatchedBracket)
    } else {
        let top = stack.last();
        let rest = stack.drop_last();
        match top {
            Symbol::Delimiter(DelimType::OpenParen) => Ok((res, rest)),
            Symbol::PowerMarker => close_bracket(res, rest),
            _ => close_bracket(res.push(top), rest),
        }
    }
}

/// Ends a chain of exponentiations: every `^` on top of the stack goes to the
/// output, down to and including the chain's marker, which is dropped.
pub open spec fn flush_chain(res: Seq<Symbol>, stack: Seq<Symbol>) -> Shunt
    decreases stack.len(),
{
    if stack.len() == 0 {
        (res, stack)
    } else {
        match stack.last() {
            Symbol::PowerMarker => (res, stack.drop_last()),
            Symbol::Operator(OperatorType::Power) => flush_chain(
                res.push(stack.last()),
                stack.drop_last(),
            ),
            _ => (res, stack),
        }
    }
}

/// Pushes `op`, first moving the top of the stack to the output when it binds
/// at least as strongly.
pub open spec fn place_operator(res: Seq<Symbol>, stack: Seq<Symbol>, op: OperatorType) -> Shunt {
    if stack.len() > 0 && precedence_of(Symbol::Operator(op)) <= precedence_of(stack.last()) {
        (res.push(stack.last()), stack.drop_last().push(Symbol::Operator(op)))
    } else {
        (res, stack.push(Symbol::Operator(op)))
    }
}

/// An operator, given the symbol that follows it.
pub open spec fn shunt_operator(
    res: Seq<Symbol>,
    stack: Seq<Symbol>,
    op: OperatorType,
    next: Option<Symbol>,
) -> Result<Shunt, Error> {
    let pow = Symbol::Operator(OperatorType::Power);
    if next matches Some(Symbol::Operator(_)) {
        Err(Error::DanglingOperator)
    } else if stack.len() == 0 {
        Ok((res, stack.push(Symbol::Operator(op))))
    } else if stack.last() == pow {
        if op == OperatorType::Power {
            Ok((res, stack.push(pow)))
        } else {
            let (r, s) = flush_chain(res, stack);
            Ok(place_operator(r, s, op))
        }
    } else if op == OperatorType::Power {
        Ok((res, stack.push(Symbol::PowerMarker).push(pow)))
    } else {
        Ok(place_operator(res, stack, op))
    }
}

/// One input symbol, given the symbol that follows it.
pub open spec fn shunt_step(
    res: Seq<Symbol>,
    stack: Seq<Symbol>,
    sym: Symbol,
    next: Option<Symbol>,
) -> Result<Shunt, Error> {
    match sym {
        Symbol::Number(_) => Ok((res.push(sym), stack)),
        Symbol::Delimiter(DelimType::OpenParen) => Ok((res, stack.push(sym))),
        Symbol::Delimiter(DelimType::CloseParen) => close_bracket(res, stack),
        Symbol::Operator(op) => shunt_operator(res, stack, op, next),
        Symbol::PowerMarker => Err(Error::InvalidChar),
    }
}

/// The symbol after position `i`, if any.
pub open spec fn lookahead(syms: Seq<Symbol>, i: int) -> Option<Symbol> {
    if i + 1 < syms.len() {
        Some(syms[i + 1])
    } else {
        None
    }
}

/// The state after the first `n` symbols of `syms`, or the first error.
pub open spec fn shunt(syms: Seq<Symbol>, n: nat) -> Result<Shunt, Error>
    decreases n,
{
    if n == 0 {
        Ok((Seq::empty(), Seq::empty()))
    } else {
        match shunt(syms, (n - 1) as nat) {
            Err(e) => Err(e),
            Ok((r, s)) => shunt_step(r, s, syms[n - 1], lookahead(syms, n - 1)),
        }
    }
}

/// The end of the input: the stack goes to the output, top first; markers
/// are dropped and a bracket left on it is an error.
pub open spec fn drain(res: Seq<Symbol>, stack: Seq<Symbol>) -> Result<Seq<Symbol>, Error>
    decreases stack.len(),
{
    if stack.len() == 0 {
        Ok(res)
    } else {
        match stack.last() {
            Symbol::Delimiter(_) => Err(Error::UnmatchedBracket),
            Symbol::PowerMarker => drain(res, stack.drop_last()),
            top => drain(res.push(top), stack.drop_last()),
        }
    }
}

/// The postfix form of an infix symbol sequence, or the first error met.
pub open spec fn postfix_of(syms: Seq<Symbol>) -> Result<Seq<Symbol>, Error> {
    match shunt(syms, syms.len()) {
        Err(e) => Err(e),
        Ok((r, s)) => drain(r, s),
    }
}

/// A symbol that postfix order is written in: a number or an operator.
pub open spec fn is_postfix_symbol(s: Symbol) -> bool {
    s is Number || s is Operator
}

pub open spec fn all_postfix(syms: Seq<Symbol>) -> bool {
    forall|i: int| 0 <= i < syms.len() ==> is_postfix_symbol(#[trigger] syms[i])
}

/// What the working stack may hold: operators, opening brackets, markers.
pub open spec fn stack_ok(stack: Seq<Symbol>) -> bool {
    forall|i: int|
        0 <= i < stack.len() ==> (#[trigger] stack[i] is Operator || stack[i] == Symbol::Delimiter(
            DelimType::OpenParen,
        ) || stack[i] is PowerMarker)
}

proof fn lemma_close_bracket_clean(res: Seq<Symbol>, stack: Seq<Symbol>)
    requires
        all_postfix(res),
        stack_ok(stack),
    ensures
        close_bracket(res, stack) matches Ok((r, s)) ==> all_postfix(r) && stack_ok(s),
    decreases stack.len(),
{
    if stack.len() > 0 {
        let top = stack.last();
        assert(stack_ok(stack.drop_last()));
        if !(top is PowerMarker) && top != Symbol::Delimiter(DelimType::OpenParen) {
            assert(all_postfix(res.push(top)));
            lemma_close_bracket_clean(res.push(top), stack.drop_last());
        } else {
            lemma_close_bracket_clean(res, stack.drop_last());
        }
    }
}

proof fn lemma_flush_chain_clean(res: Seq<Symbol>, stack: Seq<Symbol>)
    requires
        all_postfix(res),
        stack_ok(stack),
    ensures
        all_postfix(flush_chain(res, stack).0),
        stack_ok(flush_chain(res, stack).1),
    decreases stack.len(),
{
    if stack.len() > 0 {
        assert(stack_ok(stack.drop_last()));
        if stack.last() == Symbol::Operator(OperatorType::Power) {
            assert(all_postfix(res.push(stack.last())));
            lemma_flush_chain_clean(res.push(stack.last()), stack.drop_last());
        }
    }
}

proof fn lemma_shunt_clean(syms: Seq<Symbol>, n: nat)
    ensures
        shunt(syms, n) matches Ok((r, s)) ==> all_postfix(r) && stack_ok(s),
    decreases n,
{
    if n > 0 {
        lemma_shunt_clean(syms, (n - 1) as nat);
        if let Ok((r, s)) = shunt(syms, (n - 1) as nat) {
            let sym = syms[n - 1];
            match sym {
                Symbol::Delimiter(DelimType::CloseParen) => {
                    lemma_close_bracket_clean(r, s);
                },
                Symbol::Operator(op) => {
                    if s.len() > 0 {
                        assert(stack_ok(s.drop_last()));
                        assert(s[s.len() - 1] == s.last());
                    }
                    lemma_flush_chain_clean(r, s);
                    let (r2, s2) = flush_chain(r, s);
                    if s2.len() > 0 && precedence_of(sym) <= precedence_of(s2.last()) {
                        assert(stack_ok(s2.drop_last()));
                        assert(s2[s2.len() - 1] == s2.last());
                        assert(all_postfix(r2.push(s2.last())));
                    }
                    if s.len() > 0 && precedence_of(sym) <= precedence_of(s.last()) {
                        assert(all_postfix(r.push(s.last())));
                    }
                    assert(stack_ok(s.push(Symbol::PowerMarker)));
                    assert(all_postfix(r.push(sym)));
                },
                Symbol::Number(_) => {
                    assert(all_postfix(r.push(sym)));
                },
                Symbol::Delimiter(DelimType::OpenParen) => {
                    assert(stack_ok(s.push(sym)));
                },
                Symbol::PowerMarker => {},
            }
        }
    }
}

proof fn lemma_drain_clean(res: Seq<Symbol>, stack: Seq<Symbol>)
    requires
        all_postfix(res),
        stack_ok(stack),
    ensures
        drain(res, stack) matches Ok(p) ==> all_postfix(p),
    decreases stack.len(),
{
    if stack.len() > 0 {
        assert(stack_ok(stack.drop_last()));
        assert(stack[stack.len() - 1] == stack.last());
        if stack.last() is Operator {
            assert(all_postfix(res.push(stack.last())));
            lemma_drain_clean(res.push(stack.last()), stack.drop_last());
        } else {
            lemma_drain_clean(res, stack.drop_last());
        }
    }
}

/// A successful conversion holds numbers and operators only: no bracket and
/// no chain marker reaches the output.
pub proof fn lemma_postfix_clean(syms: Seq<Symbol>)
    ensures
        postfix_of(syms) matches Ok(p) ==> all_postfix(p),
{
    lemma_shunt_clean(syms, syms.len());
    if let Ok((r, s)) = shunt(syms, syms.len()) {
        lemma_drain_clean(r, s);
    }
}

fn precedence(t: &Token) -> (r: u8)
    ensures
        r == precedence_of(t@),
{
    match t {
        Token::Operator(OperatorType::Add) | Token::Operator(OperatorType::Subtract) => 1,
        Token::Operator(OperatorType::Multiply) | Token::Operator(OperatorType::Divide) => 2,
        Token::Operator(OperatorType::Power) => 3,
        _ => 0,
    }
}

/// Moves the top of `stack` onto `res`.
fn move_top(res: &mut Vec<Token>, stack: &mut Vec<Token>)
    requires
        old(stack).len() > 0,
    ensures
        final(stack)@ == old(stack)@.drop_last(),
        symbols(final(res)@) == symbols(old(res)@).push(symbols(old(stack)@).last()),
        symbols(final(stack)@) == symbols(old(stack)@).drop_last(),
{
    proof {
        lemma_symbols_drop_last(stack@);
    }
    let top = stack.pop().unwrap();
    proof {
        lemma_symbols_push(res@, top);
    }
    res.push(top);
}

fn close_bracket_exec(res: &mut Vec<Token>, stack: &mut Vec<Token>) -> (r: Result<(), Error>)
    ensures
        match close_bracket(symbols(old(res)@), symbols(old(stack)@)) {
            Ok((r2, s2)) => r is Ok && symbols(final(res)@) == r2 && symbols(final(stack)@)
                == s2,
            Err(e) => r == Err::<(), Error>(e),
        },
{
    let ghost target = close_bracket(symbols(res@), symbols(stack@));
    loop
        invariant
            target == close_bracket(symbols(old(res)@), symbols(old(stack)@)),
            target == close_bracket(symbols(res@), symbols(stack@)),
        decreases stack.len(),
    {
        let n = stack.len();
        if n == 0 {
            return Err(Error::UnmatchedBracket);
        }
        proof {
            lemma_symbols_drop_last(stack@);
        }
        match &stack[n - 1] {
            Token::Delimiter(DelimType::OpenParen) => {
                stack.pop();
                return Ok(());
            },
            Token::PowerMarker => {
                stack.pop();
            },
            _ => {
                move_top(res, stack);
            },
        }
    }
}

fn flush_chain_exec(res: &mut Vec<Token>, stack: &mut Vec<Token>)
    ensures
        (symbols(final(res)@), symbols(final(stack)@)) == flush_chain(
            symbols(old(res)@),
            symbols(old(stack)@),
        ),
{
    let ghost target = flush_chain(symbols(res@), symbols(stack@));
    loop
        invariant
            target == flush_chain(symbols(old(res)@), symbols(old(stack)@)),
            target == flush_chain(symbols(res@), symbols(stack@)),
        decreases stack.len(),
    {
        let n = stack.len();
        if n == 0 {
            return;
        }
        proof {
            lemma_symbols_drop_last(stack@);
        }
        match &stack[n - 1] {
            Token::PowerMarker => {
                stack.pop();
                return;
            },
            Token::Operator(OperatorType::Power) => {
                move_top(res, stack);
            },
            _ => {
                return;
            },
        }
    }
}

fn place_operator_exec(res: &mut Vec<Token>, stack: &mut Vec<Token>, op: OperatorType)
    ensures
        (symbols(final(res)@), symbols(final(stack)@)) == place_operator(
            symbols(old(res)@),
            symbols(old(stack)@),
            op,
        ),
{
    let tok = Token::Operator(op);
    let n = stack.len();
    if n > 0 {
        proof {
            lemma_symbols_drop_last(stack@);
        }
        if precedence(&tok) <= precedence(&stack[n - 1]) {
            move_top(res, stack);
        }
    }
    proof {
        lemma_symbols_push(stack@, tok);
    }
    stack.push(tok);
}

fn drain_exec(res: &mut Vec<Token>, stack: &mut Vec<Token>) -> (r: Result<(), Error>)
    ensures
        match drain(symbols(old(res)@), symbols(old(stack)@)) {
            Ok(out) => r is Ok && symbols(final(res)@) == out,
            Err(e) => r == Err::<(), Error>(e),
        },
{
    let ghost target = drain(symbols(res@), symbols(stack@));
    loop
        invariant
            target == drain(symbols(old(res)@), symbols(old(stack)@)),
            target == drain(symbols(res@), symbols(stack@)),
        decreases stack.len(),
    {
        let n = stack.len();
        if n == 0 {
            return Ok(());
        }
        proof {
            lemma_symbols_drop_last(stack@);
        }
        match &stack[n - 1] {
            Token::Delimiter(_) => {
                return Err(Error::UnmatchedBracket);
            },
            Token::PowerMarker => {
                stack.pop();
            },
            _ => {
                move_top(res, stack);
            },
        }
    }
}

/// An operator that is not followed by another operator.
fn shunt_operator_exec(res: &mut Vec<Token>, stack: &mut Vec<Token>, op: OperatorType)
    ensures
        forall|next: Option<Symbol>|
            !(next matches Some(Symbol::Operator(_))) ==> #[trigger] shunt_operator(
                symbols(old(res)@),
                symbols(old(stack)@),
                op,
                next,
            ) == Ok::<Shunt, Error>((symbols(final(res)@), symbols(final(stack)@))),
{
    let n = stack.len();
    if n == 0 {
        place_operator_exec(res, stack, op);
        return;
    }
    proof {
        lemma_symbols_drop_last(stack@);
    }
    let top_is_power = matches!(stack[n - 1], Token::Operator(OperatorType::Power));
    if top_is_power {
        if op == OperatorType::Power {
            let tok = Token::Operator(op);
            proof {
                lemma_symbols_push(stack@, tok);
            }
            stack.push(tok);
        } else {
            flush_chain_exec(res, stack);
            place_operator_exec(res, stack, op);
        }
    } else if op == OperatorType::Power {
        let marker = Token::PowerMarker;
        proof {
            lemma_symbols_push(stack@, marker);
        }
        stack.push(marker);
        let tok = Token::Operator(op);
        proof {
            lemma_symbols_push(stack@, tok);
        }
        stack.push(tok);
    } else {
        place_operator_exec(res, stack, op);
    }
}

/// Once the conversion has failed, it stays failed with the same error.
proof fn lemma_shunt_error_persists(syms: Seq<Symbol>, n: nat, m: nat)
    requires
        n <= m,
        shunt(syms, n) is Err,
    ensures
        shunt(syms, m) == shunt(syms, n),
    decreases m - n,
{
    if n < m {
        lemma_shunt_error_persists(syms, n, (m - 1) as nat);
    }
}

/// Rewrites an infix token sequence into postfix order.
///
/// Numbers go straight to the output; operators wait on a working stack
/// until an operator that binds no more strongly, a closing bracket or the
/// end of the input sends them on. Equal precedence sends the waiting
/// operator on (left associativity), except in a chain of `^`, which is
/// kept on the stack above a marker and sent on as a whole (right
/// associativity). Two adjacent operators are a `DanglingOperator`, a
/// bracket without its partner an `UnmatchedBracket`, and a `PowerMarker`
/// in the input an `InvalidChar`.
pub fn convert(tokens: &[Token]) -> (r: Result<Vec<Token>, Error>)
    ensures
        result_symbols(r) == postfix_of(symbols(tokens@)),
        r matches Ok(v) ==> all_postfix(symbols(v@)),
{
    proof {
        lemma_postfix_clean(symbols(tokens@));
    }
    let ghost syms = symbols(tokens@);
    let mut res: Vec<Token> = Vec::new();
    let mut stack: Vec<Token> = Vec::new();
    proof {
        assert(symbols(res@) =~= Seq::<Symbol>::empty());
        assert(symbols(stack@) =~= Seq::<Symbol>::empty());
    }
    let mut i: usize = 0;
    while i < tokens.len()
        invariant
            i <= tokens.len(),
            syms == symbols(tokens@),
            shunt(syms, i as nat) == Ok::<Shunt, Error>((symbols(res@), symbols(stack@))),
        decreases tokens.len() - i,
    {
        let ghost next = lookahead(syms, i as int);
        assert(syms[i as int] == tokens@[i as int]@);
        match &tokens[i] {
            Token::Number(text) => {
                let tok = Token::Number(text.clone());
                proof {
                    lemma_symbols_push(res@, tok);
                }
                res.push(tok);
            },
            Token::Delimiter(DelimType::OpenParen) => {
                let tok = Token::Delimiter(DelimType::OpenParen);
                proof {
                    lemma_symbols_push(stack@, tok);
                }
                stack.push(tok);
            },
            Token::Delimiter(DelimType::CloseParen) => {
                match close_bracket_exec(&mut res, &mut stack) {
                    Ok(()) => {},
                    Err(e) => {
                        proof {
                            lemma_shunt_error_persists(syms, (i + 1) as nat, syms.len());
                        }
                        return Err(e);
                    },
                }
            },
            Token::Operator(op) => {
                let op = *op;
                if i + 1 < tokens.len() && matches!(tokens[i + 1], Token::Operator(_)) {
                    proof {
                        assert(next == Some(tokens@[i + 1]@));
                        lemma_shunt_error_persists(syms, (i + 1) as nat, syms.len());
                    }
                    return Err(Error::DanglingOperator);
                }
                shunt_operator_exec(&mut res, &mut stack, op);
            },
            Token::PowerMarker => {
                proof {
                    lemma_shunt_error_persists(syms, (i + 1) as nat, syms.len());
                }
                return Err(Error::InvalidChar);
            },
        }
        i += 1;
    }
    match drain_exec(&mut res, &mut stack) {
        Ok(()) => Ok(res),
        Err(e) => Err(e),
    }
}

} // verus!
