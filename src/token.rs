use vstd::prelude::*;

verus! {

/// The binary operators of the expression language.
#[derive(Clone, Copy, Debug, PartialEq, Eq, Structural)]
pub enum OperatorType {
    Add,
    Subtract,
    Multiply,
    Divide,
    Power,
}

/// The two kinds of bracket.
#[derive(Clone, Copy, Debug, PartialEq, Eq, Structural)]
pub enum DelimType {
    OpenParen,
    CloseParen,
}

/// One lexical unit of an expression.
///
/// A `Number` holds the text of a decimal numeral: ASCII digits with at most
/// one decimal point, starting with a digit. `PowerMarker` is never produced
/// from text: the converter uses it on its working stack to mark where a
/// chain of exponentiations begins.
#[derive(Clone, Debug, PartialEq)]
pub enum Token {
    Number(String),
    Operator(OperatorType),
    Delimiter(DelimType),
    PowerMarker,
}

/// The mathematical value of a token: a numeral is its sequence of characters.
pub enum Symbol {
    Number(Seq<char>),
    Operator(OperatorType),
    Delimiter(DelimType),
    PowerMarker,
}

impl View for Token {
    type V = Symbol;

    open spec fn view(&self) -> Symbol {
        match self {
            Token::Number(s) => Symbol::Number(s@),
            Token::Operator(op) => Symbol::Operator(*op),
            Token::Delimiter(d) => Symbol::Delimiter(*d),
            Token::PowerMarker => Symbol::PowerMarker,
        }
    }
}

/// The symbols of a token sequence, in order.
pub open spec fn symbols(ts: Seq<Token>) -> Seq<Symbol> {
    ts.map_values(|t: Token| t@)
}

/// The view of a stage's outcome: the symbols on success, the error otherwise.
pub open spec fn result_symbols(r: Result<Vec<Token>, crate::err::Error>) -> Result<
    Seq<Symbol>,
    crate::err::Error,
> {
    match r {
        Ok(v) => Ok(symbols(v@)),
        Err(e) => Err(e),
    }
}

impl OperatorType {
    /// The character that writes the operator.
    pub open spec fn spec_symbol(self) -> char {
        match self {
            OperatorType::Add => '+',
            OperatorType::Subtract => '-',
            OperatorType::Multiply => '*',
            OperatorType::Divide => '/',
            OperatorType::Power => '^',
        }
    }

    /// The character that writes the operator.
    pub fn symbol(&self) -> (c: char)
        ensures
            c == self.spec_symbol(),
    {
        match self {
            OperatorType::Add => '+',
            OperatorType::Subtract => '-',
            OperatorType::Multiply => '*',
            OperatorType::Divide => '/',
            OperatorType::Power => '^',
        }
    }
}

} // verus!

verus! {

/// Appending a token appends its symbol.
pub proof fn lemma_symbols_push(ts: Seq<Token>, t: Token)
    ensures
        symbols(ts.push(t)) == symbols(ts).push(t@),
{
    assert(symbols(ts.push(t)) =~= symbols(ts).push(t@));
}

/// Removing the last token removes the last symbol.
pub proof fn lemma_symbols_drop_last(ts: Seq<Token>)
    requires
        ts.len() > 0,
    ensures
        symbols(ts.drop_last()) == symbols(ts).drop_last(),
        symbols(ts).last() == ts.last()@,
{
    assert(symbols(ts.drop_last()) =~= symbols(ts).drop_last());
}

} // verus!
