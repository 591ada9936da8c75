use vstd::prelude::*;

use crate::lexer::TokenKind;

verus! {

/// A node of the syntax tree. A number literal keeps its source text.
#[derive(Debug, PartialEq)]
pub enum Expression {
    Number(String),
    Bool(bool),
    Nil,
    Var(String, Box<Expression>),
    Binary(Box<Expression>, TokenKind, Box<Expression>),
    Grouping(Box<Expression>),
    Unary(TokenKind, Box<Expression>),
}

/// Binding strength of an infix operator, on the scale of
/// `parser::Precedence` (`Term` is 6, `Factor` is 7).
pub open spec fn operator_rank(op: TokenKind) -> nat {
    if op == TokenKind::Plus || op == TokenKind::Minus {
        6
    } else if op == TokenKind::Star || op == TokenKind::Slash {
        7
    } else {
        0
    }
}

pub open spec fn is_arithmetic_operator(op: TokenKind) -> bool {
    op == TokenKind::Plus || op == TokenKind::Minus || op == TokenKind::Star || op
        == TokenKind::Slash
}

/// How tightly the top of an expression binds: the rank of its top binary
/// operator, `Unary` (8) for a unary node, `Primary` (10) otherwise.
pub open spec fn binding(e: Expression) -> nat {
    match e {
        Expression::Binary(_, op, _) => operator_rank(op),
        Expression::Unary(_, _) => 8,
        _ => 10,
    }
}

/// The tokens an expression is written with, as `lexer::view_of` sees
/// them: a number with its text, every other token by its kind alone.
pub open spec fn yield_of(e: Expression) -> Seq<(TokenKind, Seq<char>)>
    decreases e,
{
    match e {
        Expression::Number(text) => seq![(TokenKind::Number, text@)],
        Expression::Bool(b) => seq![
            (if b {
                TokenKind::True
            } else {
                TokenKind::False
            }, Seq::empty()),
        ],
        Expression::Nil => seq![(TokenKind::Nil, Seq::empty())],
        Expression::Var(_, _) => Seq::empty(),
        Expression::Grouping(x) => seq![(TokenKind::LPar, Seq::empty())] + yield_of(*x) + seq![
            (TokenKind::Rpar, Seq::empty()),
        ],
        Expression::Unary(op, x) => seq![(op, Seq::empty())] + yield_of(*x),
        Expression::Binary(l, op, r) => yield_of(*l) + seq![(op, Seq::empty())] + yield_of(*r),
    }
}

/// The trees the parser can build: every binary node's left operand binds
/// at least as tightly as its operator and its right operand strictly more
/// tightly (operators of one level group to the left), and a unary operand
/// binds at least as tightly as a unary operator.
pub open spec fn well_formed(e: Expression) -> bool
    decreases e,
{
    match e {
        Expression::Number(_) => true,
        Expression::Bool(_) => true,
        Expression::Nil => true,
        Expression::Var(_, _) => false,
        Expression::Grouping(inner) => well_formed(*inner),
        Expression::Unary(op, x) => (op == TokenKind::Minus || op == TokenKind::Bang)
            && well_formed(*x) && binding(*x) >= 8,
        Expression::Binary(l, op, r) => is_arithmetic_operator(op) && well_formed(*l)
            && well_formed(*r) && binding(*l) >= operator_rank(op) && binding(*r)
            > operator_rank(op),
    }
}

/// Two trees that are equal up to how their number texts are stored.
pub open spec fn same_tree(a: Expression, b: Expression) -> bool
    decreases a,
{
    match a {
        Expression::Number(x) => match b {
            Expression::Number(y) => x@ == y@,
            _ => false,
        },
        Expression::Bool(x) => b == Expression::Bool(x),
        Expression::Nil => b is Nil,
        Expression::Var(_, _) => false,
        Expression::Grouping(x) => match b {
            Expression::Grouping(y) => same_tree(*x, *y),
            _ => false,
        },
        Expression::Unary(o, x) => match b {
            Expression::Unary(p, y) => o == p && same_tree(*x, *y),
            _ => false,
        },
        Expression::Binary(l, o, r) => match b {
            Expression::Binary(m, p, q) => o == p && same_tree(*l, *m) && same_tree(*r, *q),
            _ => false,
        },
    }
}

pub proof fn lemma_same_tree_refl(a: Expression)
    requires
        well_formed(a),
    ensures
        same_tree(a, a),
    decreases a,
{
    match a {
        Expression::Grouping(x) => lemma_same_tree_refl(*x),
        Expression::Unary(_, x) => lemma_same_tree_refl(*x),
        Expression::Binary(l, _, r) => {
            lemma_same_tree_refl(*l);
            lemma_same_tree_refl(*r);
        },
        _ => {},
    }
}

/// Trees equal up to number storage are written with the same tokens and
/// are alike in every respect the parser's contract mentions.
pub proof fn lemma_same_tree_alike(a: Expression, b: Expression)
    requires
        same_tree(a, b),
    ensures
        same_tree(b, a),
        yield_of(a) == yield_of(b),
        binding(a) == binding(b),
        well_formed(a) == well_formed(b),
    decreases a,
{
    match a {
        Expression::Grouping(x) => {
            let y = b->Grouping_0;
            lemma_same_tree_alike(*x, *y);
        },
        Expression::Unary(_, x) => {
            let y = b->Unary_1;
            lemma_same_tree_alike(*x, *y);
        },
        Expression::Binary(l, _, r) => {
            lemma_same_tree_alike(*l, *b->Binary_0);
            lemma_same_tree_alike(*r, *b->Binary_2);
        },
        _ => {},
    }
}

/// A well-formed tree is written with at least one token and binds at
/// least at the additive level.
pub proof fn lemma_well_formed_basics(e: Expression)
    requires
        well_formed(e),
    ensures
        yield_of(e).len() > 0,
        binding(e) >= 6,
    decreases e,
{
    match e {
        Expression::Grouping(x) => lemma_well_formed_basics(*x),
        Expression::Unary(_, x) => lemma_well_formed_basics(*x),
        Expression::Binary(l, _, r) => {
            lemma_well_formed_basics(*l);
            lemma_well_formed_basics(*r);
        },
        _ => {},
    }
}

/// Number of binary nodes on the left edge of a tree.
pub open spec fn spine(e: Expression) -> nat
    decreases e,
{
    match e {
        Expression::Binary(l, _, _) => 1 + spine(*l),
        _ => 0,
    }
}

/// The tree left after descending `j` steps along the left edge.
pub open spec fn strip(e: Expression, j: nat) -> Expression
    decreases e,
{
    if j == 0 {
        e
    } else {
        match e {
            Expression::Binary(l, _, _) => strip(*l, (j - 1) as nat),
            _ => e,
        }
    }
}

/// The tokens of `e` that follow those of `strip(e, j)`.
pub open spec fn tail(e: Expression, j: nat) -> Seq<(TokenKind, Seq<char>)>
    decreases e,
{
    if j == 0 {
        Seq::empty()
    } else {
        match e {
            Expression::Binary(l, o, r) => tail(*l, (j - 1) as nat) + seq![(o, Seq::empty())]
                + yield_of(*r),
            _ => Seq::empty(),
        }
    }
}

/// Facts about the left edge of a well-formed tree: the tokens split at
/// every step, each step down is a binary node whose operator binds at
/// least as tightly as the tree, and the bottom is no binary node.
pub proof fn lemma_spine(e: Expression, j: nat)
    requires
        well_formed(e),
        j <= spine(e),
    ensures
        yield_of(e) == yield_of(strip(e, j)) + tail(e, j),
        well_formed(strip(e, j)),
        binding(strip(e, j)) >= binding(e),
        j == spine(e) ==> !(strip(e, j) is Binary),
        0 < j ==> strip(e, (j - 1) as nat) is Binary,
        0 < j ==> *strip(e, (j - 1) as nat)->Binary_0 == strip(e, j),
        0 < j ==> tail(e, j) == seq![(strip(e, (j - 1) as nat)->Binary_1, Seq::<char>::empty())]
            + yield_of(*strip(e, (j - 1) as nat)->Binary_2) + tail(e, (j - 1) as nat),
    decreases e,
{
    match e {
        Expression::Binary(l, o, r) => {
            if j > 0 {
                lemma_spine(*l, (j - 1) as nat);
                if j > 1 {
                    lemma_spine(*l, (j - 2) as nat);
                    assert(tail(e, j) =~= seq![
                        (strip(e, (j - 1) as nat)->Binary_1, Seq::<char>::empty()),
                    ] + yield_of(*strip(e, (j - 1) as nat)->Binary_2) + tail(e, (j - 1) as nat));
                } else {
                    assert(tail(*l, 0) =~= Seq::<(TokenKind, Seq<char>)>::empty());
                    assert(tail(e, j) =~= seq![
                        (strip(e, (j - 1) as nat)->Binary_1, Seq::<char>::empty()),
                    ] + yield_of(*strip(e, (j - 1) as nat)->Binary_2) + tail(e, (j - 1) as nat));
                }
                assert(yield_of(e) =~= yield_of(strip(e, j)) + tail(e, j));
            } else {
                assert(yield_of(e) =~= yield_of(strip(e, j)) + tail(e, j));
            }
        },
        _ => {
            assert(yield_of(e) =~= yield_of(strip(e, j)) + tail(e, j));
        },
    }
}

} // verus!
