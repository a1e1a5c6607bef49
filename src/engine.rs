use vstd::prelude::*;

use crate::converter::{convert, postfix_of};
use crate::err::Error;
use crate::expr::{Expr, Tree, build_expr, result_tree, tree_of};
use crate::tokenizer::{tokenize, tokens_of};

verus! {

/// The expression tree that an infix text describes, or the first error met
/// on the way: tokenizing, then converting to postfix, then assembling.
pub open spec fn expression_of(input: Seq<char>) -> Result<Tree, Error> {
    match tokens_of(input) {
        Err(e) => Err(e),
        Ok(syms) => match postfix_of(syms) {
            Err(e) => Err(e),
            Ok(p) => tree_of(p),
        },
    }
}

/// Reads an infix expression into its tree, stopping at the first failure
/// of a stage and handing its error on unchanged.
pub fn parse_expression(input: &str) -> (r: Result<Expr, Error>)
    ensures
        result_tree(r) == expression_of(input@),
{
    let tokens = match tokenize(input) {
        Ok(t) => t,
        Err(e) => return Err(e),
    };
    let postfix = match convert(tokens.as_slice()) {
        Ok(p) => p,
        Err(e) => return Err(e),
    };
    build_expr(postfix.as_slice())
}

} // verus!
