use vstd::prelude::*;

use crate::err::Error;
use crate::token::{OperatorType, Symbol, Token, symbols};

verus! {

/// An expression tree: a numeral, or an operator applied to two operands.
#[derive(Debug, PartialEq)]
pub enum Expr {
    Number(String),
    Binary(OperatorType, Box<Expr>, Box<Expr>),
}

/// The mathematical value of an expression tree.
pub enum Tree {
    Leaf(Seq<char>),
    Node(OperatorType, Box<Tree>, Box<Tree>),
}

impl Expr {
    pub open spec fn spec_view(&self) -> Tree
        decreases self,
    {
        match self {
            Expr::Number(s) => Tree::Leaf(s@),
            Expr::Binary(op, l, r) => Tree::Node(*op, Box::new(l.spec_view()), Box::new(r.spec_view())),
        }
    }
}

impl View for Expr {
    type V = Tree;

    open spec fn view(&self) -> Tree {
        self.spec_view()
    }
}

impl Tree {
    /// The tree written in postfix order: operands first, operator last.
    pub open spec fn postfix(self) -> Seq<Symbol>
        decreases self,
    {
        match self {
            Tree::Leaf(s) => seq![Symbol::Number(s)],
            Tree::Node(op, l, r) => l.postfix() + r.postfix() + seq![Symbol::Operator(op)],
        }
    }
}

/// The postfix forms of a stack of trees, bottom first.
pub open spec fn flatten(ts: Seq<Tree>) -> Seq<Symbol>
    decreases ts.len(),
{
    if ts.len() == 0 {
        Seq::empty()
    } else {
        flatten(ts.drop_last()) + ts.last().postfix()
    }
}

/// The value stack after walking `p` left to right: a number pushes a leaf,
/// an operator replaces the top two trees (right operand on top) by one
/// node. An operator with fewer than two trees below it is a
/// `MissingOperand`; a bracket or a chain marker is an `InvalidPostfix`.
pub open spec fn assemble(p: Seq<Symbol>) -> Result<Seq<Tree>, Error>
    decreases p.len(),
{
    if p.len() == 0 {
        Ok(Seq::empty())
    } else {
        match assemble(p.drop_last()) {
            Err(e) => Err(e),
            Ok(ts) => match p.last() {
                Symbol::Number(s) => Ok(ts.push(Tree::Leaf(s))),
                Symbol::Operator(op) => if ts.len() < 2 {
                    Err(Error::MissingOperand)
                } else {
                    let n = ts.len() as int;
                    Ok(
                        ts.subrange(0, n - 2).push(
                            Tree::Node(op, Box::new(ts[n - 2]), Box::new(ts[n - 1])),
                        ),
                    )
                },
                _ => Err(Error::InvalidPostfix),
            },
        }
    }
}

/// The single tree that a postfix sequence describes, or why there is none:
/// no tree at all is an `EmptyExpression`, more than one a `MissingOperator`.
pub open spec fn tree_of(p: Seq<Symbol>) -> Result<Tree, Error> {
    match assemble(p) {
        Err(e) => Err(e),
        Ok(ts) => if ts.len() == 0 {
            Err(Error::EmptyExpression)
        } else if ts.len() == 1 {
            Ok(ts[0])
        } else {
            Err(Error::MissingOperator)
        },
    }
}

/// The view of an outcome that holds a tree.
pub open spec fn result_tree(r: Result<Expr, Error>) -> Result<Tree, Error> {
    match r {
        Ok(e) => Ok(e@),
        Err(e) => Err(e),
    }
}

/// Once assembling has failed, it stays failed with the same error.
proof fn lemma_assemble_error_persists(p: Seq<Symbol>, n: int)
    requires
        0 <= n <= p.len(),
        assemble(p.take(n)) is Err,
    ensures
        assemble(p) == assemble(p.take(n)),
    decreases p.len() - n,
{
    if n < p.len() {
        assert(p.take(n + 1).drop_last() =~= p.take(n));
        lemma_assemble_error_persists(p, n + 1);
    }
    else {
        assert(p.take(n) =~= p);
    }
}

/// Assembles a postfix token sequence into an expression tree.
pub fn build_expr(postfix: &[Token]) -> (r: Result<Expr, Error>)
    ensures
        result_tree(r) == tree_of(symbols(postfix@)),
        r matches Ok(e) ==> e@.postfix() == symbols(postfix@),
{
    let ghost p = symbols(postfix@);
    let mut stack: Vec<Expr> = Vec::new();
    let mut i: usize = 0;
    proof {
        assert(p.take(0) =~= Seq::<Symbol>::empty());
        assert(stack@.map_values(|e: Expr| e@) =~= Seq::<Tree>::empty());
    }
    while i < postfix.len()
        invariant
            i <= postfix.len(),
            p == symbols(postfix@),
            assemble(p.take(i as int)) == Ok::<Seq<Tree>, Error>(stack@.map_values(|e: Expr| e@)),
            flatten(stack@.map_values(|e: Expr| e@)) == p.take(i as int),
        decreases postfix.len() - i,
    {
        let ghost trees = stack@.map_values(|e: Expr| e@);
        assert(p.take(i + 1).drop_last() =~= p.take(i as int));
        assert(p.take(i + 1).last() == postfix@[i as int]@);
        match &postfix[i] {
            Token::Number(text) => {
                let leaf = Expr::Number(text.clone());
                stack.push(leaf);
                proof {
                    assert(stack@.map_values(|e: Expr| e@) =~= trees.push(leaf@));
                    assert(trees.push(leaf@).drop_last() =~= trees);
                    assert(p.take(i + 1) =~= p.take(i as int) + leaf@.postfix());
                }
            },
            Token::Operator(op) => {
                if stack.len() < 2 {
                    proof {
                        lemma_assemble_error_persists(p, i + 1);
                    }
                    return Err(Error::MissingOperand);
                }
                let right = stack.pop().unwrap();
                let left = stack.pop().unwrap();
                let node = Expr::Binary(*op, Box::new(left), Box::new(right));
                stack.push(node);
                proof {
                    let n = trees.len() as int;
                    let below = trees.subrange(0, n - 2);
                    assert(stack@.map_values(|e: Expr| e@) =~= below.push(node@));
                    assert(trees.drop_last() =~= below.push(trees[n - 2]));
                    assert(trees.drop_last().drop_last() =~= below);
                    assert(below.push(node@).drop_last() =~= below);
                    assert(left@ == trees[n - 2] && right@ == trees[n - 1]);
                    assert(flatten(trees) == flatten(trees.drop_last()) + trees[n - 1].postfix());
                    assert(flatten(trees.drop_last()) == flatten(below) + trees[n - 2].postfix());
                    assert(node@.postfix() == left@.postfix() + right@.postfix() + seq![
                        Symbol::Operator(*op),
                    ]);
                    assert(p.take(i + 1) =~= flatten(below) + node@.postfix());
                }
            },
            _ => {
                proof {
                    lemma_assemble_error_persists(p, i + 1);
                }
                return Err(Error::InvalidPostfix);
            },
        }
        i += 1;
    }
    proof {
        assert(p.take(i as int) =~= p);
    }
    if stack.len() == 0 {
        Err(Error::EmptyExpression)
    } else if stack.len() == 1 {
        let ghost trees = stack@.map_values(|e: Expr| e@);
        proof {
            assert(trees.drop_last() =~= Seq::<Tree>::empty());
            assert(flatten(trees.drop_last()) == Seq::<Symbol>::empty());
            assert(flatten(trees) =~= trees[0].postfix());
        }
        let e = stack.pop().unwrap();
        Ok(e)
    } else {
        Err(Error::MissingOperator)
    }
}

} // verus!
