use vstd::prelude::*;

use crate::converter::{drain, lookahead, postfix_of, precedence_of, shunt};
use crate::engine::expression_of;
use crate::err::Error;
use crate::expr::{Tree, assemble, tree_of};
use crate::token::{OperatorType, Symbol};
use crate::tokenizer::{
    bracket_balance, is_blank, is_numeral, is_numeral_char, lex, numeral_run, prepend,
    single_symbol, strip_blanks, tokens_of,
};

verus! {

/// Text without whitespace is left as it is.
proof fn lemma_strip_keeps(s: Seq<char>)
    requires
        forall|k: int| 0 <= k < s.len() ==> !#[trigger] is_blank(s[k]),
    ensures
        strip_blanks(s) == s,
    decreases s.len(),
{
    if s.len() > 0 {
        lemma_strip_keeps(s.drop_last());
        assert(s.drop_last().push(s.last()) =~= s);
    }
}

/// A run of numeral characters from `j` that stops at `end`.
proof fn lemma_numeral_run_exact(t: Seq<char>, j: int, end: int)
    requires
        0 <= j <= end <= t.len(),
        forall|k: int| j <= k < end ==> #[trigger] is_numeral_char(t[k]),
        end == t.len() || !is_numeral_char(t[end]),
    ensures
        numeral_run(t, j) == end - j,
    decreases end - j,
{
    if j < end {
        lemma_numeral_run_exact(t, j + 1, end);
    }
}

/// Running an identical text through the engine twice gives identical
/// outcomes: the same tree, or the same error.
pub proof fn law_deterministic(a: Seq<char>, b: Seq<char>)
    requires
        a == b,
    ensures
        expression_of(a) == expression_of(b),
{
}

/// Two numerals joined by one operator read as that operator applied to the
/// two numerals, left operand first; evaluating the tree is then exactly
/// applying the operator to the two numbers.
pub proof fn law_binary_round_trip(a: Seq<char>, op: OperatorType, b: Seq<char>)
    requires
        is_numeral(a),
        is_numeral(b),
    ensures
        expression_of(a + seq![op.spec_symbol()] + b) == Ok::<Tree, Error>(
            Tree::Node(op, Box::new(Tree::Leaf(a)), Box::new(Tree::Leaf(b))),
        ),
{
    let c = op.spec_symbol();
    let s = a + seq![c] + b;
    let la = a.len() as int;
    let n = s.len() as int;
    assert forall|k: int| 0 <= k < s.len() implies !#[trigger] is_blank(s[k]) by {
        if k < la {
            assert(is_numeral_char(a[k]));
        } else if k > la {
            assert(is_numeral_char(b[k - la - 1]));
        }
    }
    lemma_strip_keeps(s);
    assert forall|k: int| 1 <= k < la implies #[trigger] is_numeral_char(s[k]) by {
        assert(is_numeral_char(a[k]));
    }
    lemma_numeral_run_exact(s, 1, la);
    assert forall|k: int| la + 2 <= k < n implies #[trigger] is_numeral_char(s[k]) by {
        assert(is_numeral_char(b[k - la - 1]));
    }
    lemma_numeral_run_exact(s, la + 2, n);
    assert(s.subrange(0, la) =~= a);
    assert(s.subrange(la + 1, n) =~= b);
    let num_a = Symbol::Number(a);
    let opr = Symbol::Operator(op);
    let num_b = Symbol::Number(b);
    assert(single_symbol(c) == Some(opr));
    assert(lex(s, n as nat) == Ok::<Seq<Symbol>, Error>(Seq::empty()));
    assert(lex(s, (la + 1) as nat) == Ok::<Seq<Symbol>, Error>(seq![num_b] + Seq::empty()));
    assert(lex(s, la as nat) == Ok::<Seq<Symbol>, Error>(
        seq![opr] + (seq![num_b] + Seq::empty()),
    ));
    assert(lex(s, 0) == Ok::<Seq<Symbol>, Error>(
        seq![num_a] + (seq![opr] + (seq![num_b] + Seq::empty())),
    ));
    let syms = seq![num_a, opr, num_b];
    assert(seq![num_a] + (seq![opr] + (seq![num_b] + Seq::empty())) =~= syms);
    reveal_with_fuel(bracket_balance, 4);
    assert(syms.drop_last() =~= seq![num_a, opr]);
    assert(syms.drop_last().drop_last() =~= seq![num_a]);
    assert(syms.drop_last().drop_last().drop_last() =~= Seq::<Symbol>::empty());
    assert(bracket_balance(syms) == 0);
    assert(tokens_of(s) == Ok::<Seq<Symbol>, Error>(syms));
    reveal_with_fuel(shunt, 4);
    assert(lookahead(syms, 1) == Some(num_b));
    let empty = Seq::<Symbol>::empty();
    assert(shunt(syms, 1) == Ok::<(Seq<Symbol>, Seq<Symbol>), Error>((empty.push(num_a), empty)));
    assert(shunt(syms, 2) == Ok::<(Seq<Symbol>, Seq<Symbol>), Error>(
        (empty.push(num_a), empty.push(opr)),
    ));
    assert(shunt(syms, 3) == Ok::<(Seq<Symbol>, Seq<Symbol>), Error>(
        (empty.push(num_a).push(num_b), empty.push(opr)),
    ));
    reveal_with_fuel(drain, 2);
    assert(empty.push(opr).drop_last() =~= empty);
    let post = seq![num_a, num_b, opr];
    assert(empty.push(num_a).push(num_b).push(opr) =~= post);
    assert(postfix_of(syms) == Ok::<Seq<Symbol>, Error>(post));
    reveal_with_fuel(assemble, 4);
    assert(post.drop_last() =~= seq![num_a, num_b]);
    assert(post.drop_last().drop_last() =~= seq![num_a]);
    assert(post.drop_last().drop_last().drop_last() =~= Seq::<Symbol>::empty());
    let leaves = Seq::<Tree>::empty().push(Tree::Leaf(a)).push(Tree::Leaf(b));
    assert(assemble(post.drop_last()) == Ok::<Seq<Tree>, Error>(leaves));
    assert(leaves.subrange(0, 0) =~= Seq::<Tree>::empty());
    assert(tree_of(post) == Ok::<Tree, Error>(
        Tree::Node(op, Box::new(Tree::Leaf(a)), Box::new(Tree::Leaf(b))),
    ));
}

/// Walking the postfix form of `t` after a prefix that left the trees `ts`
/// leaves `ts` with `t` on top.
proof fn lemma_assemble_tree(p: Seq<Symbol>, ts: Seq<Tree>, t: Tree)
    requires
        assemble(p) == Ok::<Seq<Tree>, Error>(ts),
    ensures
        assemble(p + t.postfix()) == Ok::<Seq<Tree>, Error>(ts.push(t)),
    decreases t,
{
    match t {
        Tree::Leaf(s) => {
            assert((p + t.postfix()).drop_last() =~= p);
        },
        Tree::Node(op, l, r) => {
            lemma_assemble_tree(p, ts, *l);
            lemma_assemble_tree(p + l.postfix(), ts.push(*l), *r);
            let q = p + l.postfix() + r.postfix();
            assert((p + t.postfix()).drop_last() =~= q);
            assert((p + t.postfix()).last() == Symbol::Operator(op));
            let two = ts.push(*l).push(*r);
            assert(two.subrange(0, two.len() - 2) =~= ts);
        },
    }
}

/// Every expression tree is recovered, unchanged, from its postfix form.
pub proof fn law_postfix_round_trip(t: Tree)
    ensures
        tree_of(t.postfix()) == Ok::<Tree, Error>(t),
{
    let empty = Seq::<Symbol>::empty();
    assert(assemble(empty) == Ok::<Seq<Tree>, Error>(Seq::empty()));
    lemma_assemble_tree(empty, Seq::empty(), t);
    assert(empty + t.postfix() =~= t.postfix());
}

/// A numeral `a` written at position `i` of `t` and not followed by another
/// numeral character is read as one number.
proof fn lemma_lex_numeral_at(t: Seq<char>, i: int, a: Seq<char>)
    requires
        0 <= i,
        i + a.len() <= t.len(),
        is_numeral(a),
        t.subrange(i, i + a.len()) == a,
        i + a.len() == t.len() || !is_numeral_char(t[i + a.len()]),
    ensures
        lex(t, i as nat) == prepend(seq![Symbol::Number(a)], lex(t, (i + a.len()) as nat)),
{
    let end = i + a.len();
    assert(t[i] == a[0]);
    assert forall|k: int| i + 1 <= k < end implies #[trigger] is_numeral_char(t[k]) by {
        assert(t[k] == a[k - i]);
        assert(is_numeral_char(a[k - i]));
    }
    lemma_numeral_run_exact(t, i + 1, end);
}

/// An operator's character at position `i` of `t` is read as that operator.
proof fn lemma_lex_operator_at(t: Seq<char>, i: int, op: OperatorType)
    requires
        0 <= i < t.len(),
        t[i] == op.spec_symbol(),
    ensures
        lex(t, i as nat) == prepend(seq![Symbol::Operator(op)], lex(t, (i + 1) as nat)),
{
    assert(single_symbol(op.spec_symbol()) == Some(Symbol::Operator(op)));
}

/// A chain of two exponentiations groups to the right: `a ^ b ^ c` reads
/// as `a ^ (b ^ c)`.
pub proof fn law_power_right_associative(a: Seq<char>, b: Seq<char>, c: Seq<char>)
    requires
        is_numeral(a),
        is_numeral(b),
        is_numeral(c),
    ensures
        expression_of(a + seq!['^'] + b + seq!['^'] + c) == Ok::<Tree, Error>(
            Tree::Node(
                OperatorType::Power,
                Box::new(Tree::Leaf(a)),
                Box::new(
                    Tree::Node(
                        OperatorType::Power,
                        Box::new(Tree::Leaf(b)),
                        Box::new(Tree::Leaf(c)),
                    ),
                ),
            ),
        ),
{
    let pw = OperatorType::Power;
    let s = a + seq!['^'] + b + seq!['^'] + c;
    let i1 = a.len() as int;
    let i2 = i1 + 1 + b.len();
    let n = s.len() as int;
    assert(n == i2 + 1 + c.len());
    assert forall|k: int| 0 <= k < s.len() implies !#[trigger] is_blank(s[k]) by {
        if k < i1 {
            assert(is_numeral_char(a[k]));
        } else if i1 < k < i2 {
            assert(is_numeral_char(b[k - i1 - 1]));
        } else if k > i2 {
            assert(is_numeral_char(c[k - i2 - 1]));
        }
    }
    lemma_strip_keeps(s);
    assert(s.subrange(0, i1) =~= a);
    assert(s.subrange(i1 + 1, i2) =~= b);
    assert(s.subrange(i2 + 1, n) =~= c);
    lemma_lex_numeral_at(s, 0, a);
    lemma_lex_operator_at(s, i1, pw);
    lemma_lex_numeral_at(s, i1 + 1, b);
    lemma_lex_operator_at(s, i2, pw);
    lemma_lex_numeral_at(s, i2 + 1, c);
    let na = Symbol::Number(a);
    let nb = Symbol::Number(b);
    let nc = Symbol::Number(c);
    let p = Symbol::Operator(pw);
    let e = Seq::<Symbol>::empty();
    assert(lex(s, n as nat) == Ok::<Seq<Symbol>, Error>(e));
    let syms = seq![na, p, nb, p, nc];
    assert(seq![na] + (seq![p] + (seq![nb] + (seq![p] + (seq![nc] + e)))) =~= syms);
    assert(lex(s, 0) == Ok::<Seq<Symbol>, Error>(syms));
    reveal_with_fuel(bracket_balance, 6);
    assert(syms.drop_last() =~= seq![na, p, nb, p]);
    assert(syms.drop_last().drop_last() =~= seq![na, p, nb]);
    assert(syms.drop_last().drop_last().drop_last() =~= seq![na, p]);
    assert(syms.drop_last().drop_last().drop_last().drop_last() =~= seq![na]);
    assert(seq![na].drop_last() =~= e);
    assert(bracket_balance(syms) == 0);
    assert(tokens_of(s) == Ok::<Seq<Symbol>, Error>(syms));
    reveal_with_fuel(shunt, 6);
    assert(lookahead(syms, 1) == Some(nb));
    assert(lookahead(syms, 3) == Some(nc));
    assert(shunt(syms, 1) == Ok::<(Seq<Symbol>, Seq<Symbol>), Error>((e.push(na), e)));
    assert(shunt(syms, 2) == Ok::<(Seq<Symbol>, Seq<Symbol>), Error>((e.push(na), e.push(p))));
    assert(shunt(syms, 3) == Ok::<(Seq<Symbol>, Seq<Symbol>), Error>(
        (e.push(na).push(nb), e.push(p)),
    ));
    assert(shunt(syms, 4) == Ok::<(Seq<Symbol>, Seq<Symbol>), Error>(
        (e.push(na).push(nb), e.push(p).push(p)),
    ));
    assert(shunt(syms, 5) == Ok::<(Seq<Symbol>, Seq<Symbol>), Error>(
        (e.push(na).push(nb).push(nc), e.push(p).push(p)),
    ));
    reveal_with_fuel(drain, 3);
    assert(e.push(p).push(p).drop_last() =~= e.push(p));
    assert(e.push(p).drop_last() =~= e);
    let post = seq![na, nb, nc, p, p];
    assert(e.push(na).push(nb).push(nc).push(p).push(p) =~= post);
    assert(postfix_of(syms) == Ok::<Seq<Symbol>, Error>(post));
    let inner = Tree::Node(pw, Box::new(Tree::Leaf(b)), Box::new(Tree::Leaf(c)));
    let whole = Tree::Node(pw, Box::new(Tree::Leaf(a)), Box::new(inner));
    assert(Tree::Leaf(a).postfix() == seq![na]);
    assert(Tree::Leaf(b).postfix() == seq![nb]);
    assert(Tree::Leaf(c).postfix() == seq![nc]);
    assert(inner.postfix() == seq![nb] + seq![nc] + seq![p]);
    assert(inner.postfix() =~= seq![nb, nc, p]);
    assert(whole.postfix() == seq![na] + inner.postfix() + seq![p]);
    assert(post =~= whole.postfix());
    law_postfix_round_trip(whole);
}

/// The stronger of two operators takes its operands first: when `op2`
/// binds more strongly than `op1`, `a op1 b op2 c` reads as
/// `a op1 (b op2 c)`.
pub proof fn law_precedence(
    a: Seq<char>,
    op1: OperatorType,
    b: Seq<char>,
    op2: OperatorType,
    c: Seq<char>,
)
    requires
        is_numeral(a),
        is_numeral(b),
        is_numeral(c),
        precedence_of(Symbol::Operator(op1)) < precedence_of(Symbol::Operator(op2)),
    ensures
        expression_of(a + seq![op1.spec_symbol()] + b + seq![op2.spec_symbol()] + c) == Ok::<
            Tree,
            Error,
        >(
            Tree::Node(
                op1,
                Box::new(Tree::Leaf(a)),
                Box::new(Tree::Node(op2, Box::new(Tree::Leaf(b)), Box::new(Tree::Leaf(c)))),
            ),
        ),
{
    let s = a + seq![op1.spec_symbol()] + b + seq![op2.spec_symbol()] + c;
    let i1 = a.len() as int;
    let i2 = i1 + 1 + b.len();
    let n = s.len() as int;
    assert(n == i2 + 1 + c.len());
    assert forall|k: int| 0 <= k < s.len() implies !#[trigger] is_blank(s[k]) by {
        if k < i1 {
            assert(is_numeral_char(a[k]));
        } else if i1 < k < i2 {
            assert(is_numeral_char(b[k - i1 - 1]));
        } else if k > i2 {
            assert(is_numeral_char(c[k - i2 - 1]));
        }
    }
    lemma_strip_keeps(s);
    assert(s.subrange(0, i1) =~= a);
    assert(s.subrange(i1 + 1, i2) =~= b);
    assert(s.subrange(i2 + 1, n) =~= c);
    lemma_lex_numeral_at(s, 0, a);
    lemma_lex_operator_at(s, i1, op1);
    lemma_lex_numeral_at(s, i1 + 1, b);
    lemma_lex_operator_at(s, i2, op2);
    lemma_lex_numeral_at(s, i2 + 1, c);
    let na = Symbol::Number(a);
    let nb = Symbol::Number(b);
    let nc = Symbol::Number(c);
    let p1 = Symbol::Operator(op1);
    let p2 = Symbol::Operator(op2);
    let e = Seq::<Symbol>::empty();
    assert(lex(s, n as nat) == Ok::<Seq<Symbol>, Error>(e));
    let syms = seq![na, p1, nb, p2, nc];
    assert(seq![na] + (seq![p1] + (seq![nb] + (seq![p2] + (seq![nc] + e)))) =~= syms);
    assert(lex(s, 0) == Ok::<Seq<Symbol>, Error>(syms));
    reveal_with_fuel(bracket_balance, 6);
    assert(syms.drop_last() =~= seq![na, p1, nb, p2]);
    assert(syms.drop_last().drop_last() =~= seq![na, p1, nb]);
    assert(syms.drop_last().drop_last().drop_last() =~= seq![na, p1]);
    assert(syms.drop_last().drop_last().drop_last().drop_last() =~= seq![na]);
    assert(seq![na].drop_last() =~= e);
    assert(bracket_balance(syms) == 0);
    assert(tokens_of(s) == Ok::<Seq<Symbol>, Error>(syms));
    reveal_with_fuel(shunt, 6);
    reveal_with_fuel(drain, 4);
    assert(lookahead(syms, 1) == Some(nb));
    assert(lookahead(syms, 3) == Some(nc));
    assert(shunt(syms, 1) == Ok::<(Seq<Symbol>, Seq<Symbol>), Error>((e.push(na), e)));
    assert(shunt(syms, 2) == Ok::<(Seq<Symbol>, Seq<Symbol>), Error>((e.push(na), e.push(p1))));
    assert(shunt(syms, 3) == Ok::<(Seq<Symbol>, Seq<Symbol>), Error>(
        (e.push(na).push(nb), e.push(p1)),
    ));
    let res = e.push(na).push(nb).push(nc);
    let post = seq![na, nb, nc, p2, p1];
    assert(e.push(p1).drop_last() =~= e);
    if op2 == OperatorType::Power {
        let st = e.push(p1).push(Symbol::PowerMarker).push(p2);
        assert(shunt(syms, 5) == Ok::<(Seq<Symbol>, Seq<Symbol>), Error>((res, st)));
        assert(st.drop_last() =~= e.push(p1).push(Symbol::PowerMarker));
        assert(e.push(p1).push(Symbol::PowerMarker).drop_last() =~= e.push(p1));
        assert(res.push(p2).push(p1) =~= post);
    } else {
        let st = e.push(p1).push(p2);
        assert(shunt(syms, 5) == Ok::<(Seq<Symbol>, Seq<Symbol>), Error>((res, st)));
        assert(st.drop_last() =~= e.push(p1));
        assert(res.push(p2).push(p1) =~= post);
    }
    assert(postfix_of(syms) == Ok::<Seq<Symbol>, Error>(post));
    let inner = Tree::Node(op2, Box::new(Tree::Leaf(b)), Box::new(Tree::Leaf(c)));
    let whole = Tree::Node(op1, Box::new(Tree::Leaf(a)), Box::new(inner));
    assert(Tree::Leaf(a).postfix() == seq![na]);
    assert(Tree::Leaf(b).postfix() == seq![nb]);
    assert(Tree::Leaf(c).postfix() == seq![nc]);
    assert(inner.postfix() == seq![nb] + seq![nc] + seq![p2]);
    assert(whole.postfix() == seq![na] + inner.postfix() + seq![p1]);
    assert(post =~= whole.postfix());
    law_postfix_round_trip(whole);
}

} // verus!
