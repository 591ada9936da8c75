use vstd::prelude::*;

use crate::ast::{
    Expression, binding, is_arithmetic_operator, lemma_same_tree_alike, lemma_same_tree_refl,
    lemma_spine,
    lemma_well_formed_basics, operator_rank, same_tree, spine, strip, tail, well_formed, yield_of,
};
use crate::lexer::{Lexer, Token, TokenKind, error_free, tokens_from, tokens_of, view_of};

verus! {

#[derive(Debug, Clone, Copy, PartialEq, Eq, Structural)]
pub enum ParseError {
    /// A token that cannot start an expression.
    UnexpectedPrefix,
    /// A token that cannot continue an expression.
    UnexpectedInfix,
    /// A token other than the one the grammar requires (a missing `)`).
    Mismatch,
    /// A number rule applied to a token that is no number.
    MalformedNumber,
    /// The scanner reported an error token.
    InvalidToken,
    /// A token left over after the expression (other than one final `;`).
    TrailingToken,
}

pub type ParseResult = Result<Expression, ParseError>;

/// Binding levels, from the loosest to the tightest.
#[derive(Debug, Clone, Copy, PartialEq, Eq, Structural)]
pub enum Precedence {
    Lowest,
    Assignment,
    Or,
    And,
    Equality,
    Comparison,
    Term,
    Factor,
    Unary,
    Call,
    Primary,
}

pub open spec fn rank(p: Precedence) -> nat {
    match p {
        Precedence::Lowest => 0,
        Precedence::Assignment => 1,
        Precedence::Or => 2,
        Precedence::And => 3,
        Precedence::Equality => 4,
        Precedence::Comparison => 5,
        Precedence::Term => 6,
        Precedence::Factor => 7,
        Precedence::Unary => 8,
        Precedence::Call => 9,
        Precedence::Primary => 10,
    }
}

/// The level of a token in infix position.
pub open spec fn kind_rank(k: TokenKind) -> nat {
    if k == TokenKind::Equal {
        1
    } else if k == TokenKind::IsEqual || k == TokenKind::NotBang {
        4
    } else if k == TokenKind::LessEqual || k == TokenKind::Less || k == TokenKind::GreaterEqual
        || k == TokenKind::Greater {
        5
    } else if k == TokenKind::Plus || k == TokenKind::Minus {
        6
    } else if k == TokenKind::Star || k == TokenKind::Slash {
        7
    } else if k == TokenKind::Bang {
        8
    } else if k == TokenKind::Dot {
        9
    } else {
        0
    }
}

impl Precedence {
    /// The level one step tighter (`Primary` stays `Primary`).
    pub fn next(&self) -> (r: Precedence)
        ensures
            rank(r) == if rank(*self) < 10 {
                rank(*self) + 1
            } else {
                10
            },
    {
        let o = self.order();
        let ret_order = if o < 10 {
            o + 1
        } else {
            10
        };
        Precedence::from_order(ret_order)
    }

    pub fn order(&self) -> (r: u8)
        ensures
            r == rank(*self),
    {
        match self {
            Precedence::Lowest => 0,
            Precedence::Assignment => 1,
            Precedence::Or => 2,
            Precedence::And => 3,
            Precedence::Equality => 4,
            Precedence::Comparison => 5,
            Precedence::Term => 6,
            Precedence::Factor => 7,
            Precedence::Unary => 8,
            Precedence::Call => 9,
            Precedence::Primary => 10,
        }
    }

    pub fn from_order(order: u8) -> (r: Precedence)
        requires
            order <= 10,
        ensures
            rank(r) == order,
    {
        match order {
            0 => Precedence::Lowest,
            1 => Precedence::Assignment,
            2 => Precedence::Or,
            3 => Precedence::And,
            4 => Precedence::Equality,
            5 => Precedence::Comparison,
            6 => Precedence::Term,
            7 => Precedence::Factor,
            8 => Precedence::Unary,
            9 => Precedence::Call,
            _ => Precedence::Primary,
        }
    }

    /// The level of a token in infix position; `Lowest` for non-operators.
    pub fn of_kind(kind: TokenKind) -> (r: Precedence)
        ensures
            rank(r) == kind_rank(kind),
    {
        match kind {
            TokenKind::Equal => Precedence::Assignment,
            TokenKind::IsEqual | TokenKind::NotBang => Precedence::Equality,
            TokenKind::LessEqual | TokenKind::Less | TokenKind::GreaterEqual
            | TokenKind::Greater => Precedence::Comparison,
            TokenKind::Plus | TokenKind::Minus => Precedence::Term,
            TokenKind::Star | TokenKind::Slash => Precedence::Factor,
            TokenKind::Bang => Precedence::Unary,
            TokenKind::Dot => Precedence::Call,
            _ => Precedence::Lowest,
        }
    }
}

/// The tokens that can start an expression.
pub open spec fn starts_expression(k: TokenKind) -> bool {
    k == TokenKind::Number || k == TokenKind::LPar || k == TokenKind::Bang || k == TokenKind::Minus
        || k == TokenKind::True || k == TokenKind::False || k == TokenKind::Nil
}

/// No expression can start at the front of `toks`.
pub open spec fn no_start(toks: Seq<(TokenKind, Seq<char>)>) -> bool {
    toks.len() == 0 || !starts_expression(toks[0].0)
}

/// `x` fits the front of `toks` at the loosest level and no `)` follows it.
pub open spec fn unclosed_after(x: Expression, toks: Seq<(TokenKind, Seq<char>)>) -> bool {
    fits(x, 1, toks) && (yield_of(x).len() == toks.len() || toks[yield_of(x).len() as int].0
        != TokenKind::Rpar)
}

/// `toks` opens a parenthesis around `x` and never closes it.
pub open spec fn unclosed(x: Expression, toks: Seq<(TokenKind, Seq<char>)>) -> bool {
    toks.len() > 0 && toks[0].0 == TokenKind::LPar && unclosed_after(x, toks.drop_first())
}

/// `e` is written with exactly the tokens `toks`, optionally followed by
/// one `;`.
pub open spec fn whole(e: Expression, toks: Seq<(TokenKind, Seq<char>)>) -> bool {
    well_formed(e) && (toks == yield_of(e) || toks == yield_of(e) + seq![
        (TokenKind::Semicolon, Seq::<char>::empty()),
    ])
}

/// `e` can be read from the front of `toks` by a rule that stops before
/// any token binding more loosely than `min`: it is well formed, binds at
/// least at `min`, is written with the first tokens of `toks`, and the
/// token after them (if any) binds more loosely than `min`.
pub open spec fn fits(e: Expression, min: nat, toks: Seq<(TokenKind, Seq<char>)>) -> bool {
    let n = yield_of(e).len();
    &&& well_formed(e)
    &&& binding(e) >= min
    &&& n <= toks.len()
    &&& toks.subrange(0, n as int) == yield_of(e)
    &&& (n == toks.len() || kind_rank(toks[n as int].0) < min)
}

/// The first token of a tree that fits at the unary level tells its form.
proof fn lemma_first_token(p: Expression, toks: Seq<(TokenKind, Seq<char>)>)
    requires
        fits(p, 8, toks),
    ensures
        toks.len() > 0,
        yield_of(p)[0] == toks[0],
        !(p is Binary),
        match p {
            Expression::Number(t) => toks[0] == (TokenKind::Number, t@),
            Expression::Bool(b) => toks[0] == (if b {
                TokenKind::True
            } else {
                TokenKind::False
            }, Seq::<char>::empty()),
            Expression::Nil => toks[0] == (TokenKind::Nil, Seq::<char>::empty()),
            Expression::Grouping(x) => toks[0] == (TokenKind::LPar, Seq::<char>::empty()),
            Expression::Unary(o, x) => toks[0] == (o, Seq::<char>::empty()) && (o == TokenKind::Minus
                || o == TokenKind::Bang),
            _ => false,
        },
{
    lemma_well_formed_basics(p);
    assert(toks.subrange(0, yield_of(p).len() as int)[0] == toks[0]);
}

/// The tokens after `y` once `y` has moved from the upcoming tokens to the
/// consumed ones.
proof fn lemma_moved(
    read0: Seq<(TokenKind, Seq<char>)>,
    up0: Seq<(TokenKind, Seq<char>)>,
    y: Seq<(TokenKind, Seq<char>)>,
    up1: Seq<(TokenKind, Seq<char>)>,
)
    requires
        read0 + up0 == (read0 + y) + up1,
    ensures
        y.len() <= up0.len(),
        up1 == up0.subrange(y.len() as int, up0.len() as int),
        up0.subrange(0, y.len() as int) == y,
{
    let l = read0 + up0;
    let ry = read0 + y;
    let r = ry + up1;
    assert(l.len() == r.len());
    assert forall|i: int| 0 <= i < y.len() implies up0[i] == y[i] by {
        let k = read0.len() + i;
        assert(l[k] == up0[i]);
        assert(ry[k] == y[i]);
        assert(r[k] == ry[k]);
    }
    assert forall|i: int| 0 <= i < up1.len() implies up0[y.len() + i] == up1[i] by {
        let k = read0.len() + y.len() + i;
        assert(l[k] == up0[y.len() + i]);
        assert(r[k] == up1[i]);
    }
    assert(up1 =~= up0.subrange(y.len() as int, up0.len() as int));
    assert(up0.subrange(0, y.len() as int) =~= y);
}

/// A grouping that fits at the unary level holds an expression that fits
/// the tokens after `(`, followed by `)`.
proof fn lemma_grouping_inner(p: Expression, up0: Seq<(TokenKind, Seq<char>)>)
    requires
        fits(p, 8, seq![(TokenKind::LPar, Seq::<char>::empty())] + up0),
    ensures
        p is Grouping,
        fits(*p->Grouping_0, 1, up0),
        yield_of(*p->Grouping_0).len() < up0.len(),
        up0[yield_of(*p->Grouping_0).len() as int] == (TokenKind::Rpar, Seq::<char>::empty()),
{
    let all = seq![(TokenKind::LPar, Seq::<char>::empty())] + up0;
    lemma_first_token(p, all);
    let x = *p->Grouping_0;
    lemma_well_formed_basics(x);
    let n = yield_of(x).len() as int;
    let yp = yield_of(p);
    assert(yp == seq![(TokenKind::LPar, Seq::<char>::empty())] + yield_of(x) + seq![
        (TokenKind::Rpar, Seq::<char>::empty()),
    ]);
    assert forall|i: int| 0 <= i < n implies up0[i] == yield_of(x)[i] by {
        assert(all.subrange(0, yp.len() as int)[i + 1] == all[i + 1]);
        assert(yp[i + 1] == yield_of(x)[i]);
    }
    assert(up0.subrange(0, n) =~= yield_of(x));
    assert(all.subrange(0, yp.len() as int)[n + 1] == all[n + 1]);
    assert(yp[n + 1] == (TokenKind::Rpar, Seq::<char>::empty()));
}

/// A unary node that fits at the unary level holds an operand that fits
/// the tokens after its operator.
proof fn lemma_unary_operand(p: Expression, op: TokenKind, up0: Seq<(TokenKind, Seq<char>)>)
    requires
        op == TokenKind::Minus || op == TokenKind::Bang,
        fits(p, 8, seq![(op, Seq::<char>::empty())] + up0),
    ensures
        p is Unary,
        p->Unary_0 == op,
        fits(*p->Unary_1, 8, up0),
{
    let all = seq![(op, Seq::<char>::empty())] + up0;
    lemma_first_token(p, all);
    let x = *p->Unary_1;
    lemma_well_formed_basics(x);
    let n = yield_of(x).len() as int;
    let yp = yield_of(p);
    assert(yp == seq![(op, Seq::<char>::empty())] + yield_of(x));
    assert forall|i: int| 0 <= i < n implies up0[i] == yield_of(x)[i] by {
        assert(all.subrange(0, yp.len() as int)[i + 1] == all[i + 1]);
        assert(yp[i + 1] == yield_of(x)[i]);
    }
    assert(up0.subrange(0, n) =~= yield_of(x));
    if n < up0.len() {
        assert(all[n + 1] == up0[n]);
    }
}

/// The bottom of the left edge of a fitting tree fits at the unary level.
proof fn lemma_spine_start(e: Expression, min: nat, toks: Seq<(TokenKind, Seq<char>)>)
    requires
        fits(e, min, toks),
        min <= 8,
    ensures
        fits(strip(e, spine(e)), 8, toks),
{
    let j = spine(e);
    let p = strip(e, j);
    lemma_spine(e, j);
    lemma_well_formed_basics(e);
    let n = yield_of(p).len();
    let m = yield_of(e).len();
    assert(toks.subrange(0, m as int) == yield_of(p) + tail(e, j));
    assert(toks.subrange(0, n as int) =~= yield_of(p)) by {
        assert forall|i: int| 0 <= i < n implies toks[i] == yield_of(p)[i] by {
            assert(toks.subrange(0, m as int)[i] == toks[i]);
        }
    }
    if j > 0 {
        lemma_spine(e, (j - 1) as nat);
        let up = strip(e, (j - 1) as nat);
        assert(toks[n as int] == toks.subrange(0, m as int)[n as int]);
        assert(tail(e, j)[0] == (up->Binary_1, Seq::<char>::empty()));
    }
    match p {
        Expression::Binary(_, _, _) => {},
        _ => {},
    }
}

/// While a fitting tree's left edge is being rebuilt, the token after the
/// part built so far is the operator of the next node up, whose right
/// operand fits at one level tighter than that operator.
proof fn lemma_spine_step(
    e: Expression,
    j: nat,
    min: nat,
    toks: Seq<(TokenKind, Seq<char>)>,
    done: Expression,
)
    requires
        fits(e, min, toks),
        1 <= min,
        j <= spine(e),
        same_tree(done, strip(e, j)),
        yield_of(done).len() < toks.len(),
        kind_rank(toks[yield_of(done).len() as int].0) >= min,
    ensures
        j >= 1,
        toks[yield_of(done).len() as int] == (strip(e, (j - 1) as nat)->Binary_1, Seq::<char>::empty()),
        is_arithmetic_operator(strip(e, (j - 1) as nat)->Binary_1),
        fits(
            *strip(e, (j - 1) as nat)->Binary_2,
            kind_rank(strip(e, (j - 1) as nat)->Binary_1) + 1,
            toks.subrange(yield_of(done).len() + 1int, toks.len() as int),
        ),
{
    lemma_same_tree_alike(done, strip(e, j));
    lemma_spine(e, j);
    let a = yield_of(done).len() as int;
    let m = yield_of(e).len();
    if j == 0 {
        assert(a == m);
        assert(false);
    }
    lemma_spine(e, (j - 1) as nat);
    let node = strip(e, (j - 1) as nat);
    let o = node->Binary_1;
    let r = *node->Binary_2;
    let rest = toks.subrange(a + 1, toks.len() as int);
    let n = yield_of(r).len() as int;
    assert(toks.subrange(0, m as int) == yield_of(strip(e, j)) + tail(e, j));
    assert(tail(e, j) == seq![(o, Seq::<char>::empty())] + yield_of(r) + tail(e, (j - 1) as nat));
    assert(toks[a as int] == toks.subrange(0, m as int)[a as int]);
    assert(toks[a as int] == (o, Seq::<char>::empty()));
    assert(rest.subrange(0, n as int) =~= yield_of(r)) by {
        assert forall|i: int| 0 <= i < n implies rest[i] == yield_of(r)[i] by {
            assert(toks.subrange(0, m as int)[a + 1 + i] == toks[a + 1 + i]);
        }
    }
    if a + 1 + n < toks.len() {
        if j >= 2 {
            lemma_spine(e, (j - 2) as nat);
            let above = strip(e, (j - 2) as nat);
            assert(tail(e, (j - 1) as nat)[0] == (above->Binary_1, Seq::<char>::empty()));
            assert(toks.subrange(0, m as int)[a + 1 + n] == toks[a + 1 + n]);
            assert(rest[n as int] == (above->Binary_1, Seq::<char>::empty()));
        } else {
            assert(a + 1 + n == m);
        }
    }
}

/// When the token after the part built so far binds more loosely than
/// `min`, the whole left edge has been rebuilt.
proof fn lemma_spine_exit(
    e: Expression,
    j: nat,
    min: nat,
    toks: Seq<(TokenKind, Seq<char>)>,
    done: Expression,
)
    requires
        fits(e, min, toks),
        j <= spine(e),
        same_tree(done, strip(e, j)),
        yield_of(done).len() == toks.len() || kind_rank(toks[yield_of(done).len() as int].0) < min,
    ensures
        j == 0,
{
    lemma_same_tree_alike(done, strip(e, j));
    lemma_spine(e, j);
    if j > 0 {
        lemma_spine(e, (j - 1) as nat);
        let a = yield_of(done).len();
        let m = yield_of(e).len();
        let node = strip(e, (j - 1) as nat);
        assert(toks.subrange(0, m as int) == yield_of(strip(e, j)) + tail(e, j));
        assert(toks[a as int] == toks.subrange(0, m as int)[a as int]);
        assert(toks[a as int] == (node->Binary_1, Seq::<char>::empty()));
    }
}

/// A tree written with exactly the tokens fits them.
pub proof fn lemma_whole_fits(e: Expression, toks: Seq<(TokenKind, Seq<char>)>)
    requires
        whole(e, toks),
    ensures
        fits(e, 1, toks),
{
    lemma_well_formed_basics(e);
    assert(toks.subrange(0, yield_of(e).len() as int) =~= yield_of(e));
}

/// The tokens determine the tree: two trees that fit the same tokens at the
/// same level are the same tree.
pub proof fn lemma_fits_unique(
    e1: Expression,
    e2: Expression,
    m: nat,
    toks: Seq<(TokenKind, Seq<char>)>,
)
    requires
        fits(e1, m, toks),
        fits(e2, m, toks),
        1 <= m <= 8,
    ensures
        same_tree(e1, e2),
    decreases toks.len(), 1nat, 0nat,
{
    lemma_spine_start(e1, m, toks);
    lemma_spine_start(e2, m, toks);
    let p1 = strip(e1, spine(e1));
    let p2 = strip(e2, spine(e2));
    lemma_first_token(p1, toks);
    lemma_first_token(p2, toks);
    assert(toks =~= seq![toks[0]] + toks.drop_first());
    match p1 {
        Expression::Grouping(x1) => {
            lemma_grouping_inner(p1, toks.drop_first());
            lemma_grouping_inner(p2, toks.drop_first());
            lemma_fits_unique(*x1, *p2->Grouping_0, 1, toks.drop_first());
        },
        Expression::Unary(o, x1) => {
            lemma_unary_operand(p1, o, toks.drop_first());
            lemma_unary_operand(p2, o, toks.drop_first());
            lemma_fits_unique(*x1, *p2->Unary_1, 8, toks.drop_first());
        },
        _ => {},
    }
    assert(same_tree(p1, p2));
    lemma_climb(e1, e2, m, toks, spine(e1), spine(e2));
}

/// Rebuilding both left edges from equal bottoms gives equal trees.
proof fn lemma_climb(
    e1: Expression,
    e2: Expression,
    m: nat,
    toks: Seq<(TokenKind, Seq<char>)>,
    j1: nat,
    j2: nat,
)
    requires
        fits(e1, m, toks),
        fits(e2, m, toks),
        1 <= m <= 8,
        j1 <= spine(e1),
        j2 <= spine(e2),
        same_tree(strip(e1, j1), strip(e2, j2)),
    ensures
        same_tree(e1, e2),
    decreases toks.len(), 0nat, j1,
{
    let d1 = strip(e1, j1);
    let d2 = strip(e2, j2);
    lemma_spine(e1, j1);
    lemma_spine(e2, j2);
    lemma_same_tree_alike(d1, d2);
    let a = yield_of(d1).len();
    if j1 == 0 && j2 == 0 {
        return;
    }
    if j1 > 0 {
        lemma_spine(e1, (j1 - 1) as nat);
        lemma_well_formed_basics(e1);
        assert(toks.subrange(0, yield_of(e1).len() as int) == yield_of(d1) + tail(e1, j1));
        assert(toks[a as int] == toks.subrange(0, yield_of(e1).len() as int)[a as int]);
    }
    if j2 > 0 {
        lemma_spine(e2, (j2 - 1) as nat);
        lemma_well_formed_basics(e2);
        assert(toks.subrange(0, yield_of(e2).len() as int) == yield_of(d2) + tail(e2, j2));
        assert(toks[a as int] == toks.subrange(0, yield_of(e2).len() as int)[a as int]);
    }
    if j1 == 0 {
        lemma_spine_exit(e1, 0, m, toks, d1);
        lemma_same_tree_refl(d2);
        lemma_spine_step(e2, j2, m, toks, d2);
        assert(false);
    }
    if j2 == 0 {
        lemma_spine_exit(e2, 0, m, toks, d2);
        lemma_same_tree_refl(d1);
        lemma_spine_step(e1, j1, m, toks, d1);
        assert(false);
    }
    lemma_same_tree_refl(d1);
    lemma_same_tree_refl(d2);
    lemma_spine_step(e1, j1, m, toks, d1);
    lemma_spine_step(e2, j2, m, toks, d2);
    let n1 = strip(e1, (j1 - 1) as nat);
    let n2 = strip(e2, (j2 - 1) as nat);
    let rest = toks.subrange(a + 1int, toks.len() as int);
    lemma_fits_unique(*n1->Binary_2, *n2->Binary_2, kind_rank(n1->Binary_1) + 1, rest);
    assert(n1 == Expression::Binary(n1->Binary_0, n1->Binary_1, n1->Binary_2));
    assert(n2 == Expression::Binary(n2->Binary_0, n2->Binary_1, n2->Binary_2));
    assert(same_tree(n1, n2));
    lemma_climb(e1, e2, m, toks, (j1 - 1) as nat, (j2 - 1) as nat);
}

/// A precedence-climbing parser over the tokens of one source text. It
/// holds two tokens: the one just consumed (`previous`) and the next one
/// (`current`); error tokens from the scanner are set aside in `errors`.
pub struct Parser {
    previous: Token,
    current: Token,
    lexer: Lexer,
    errors: Vec<Token>,
    consumed: Ghost<Seq<(TokenKind, Seq<char>)>>,
}

impl Parser {
    /// The source text.
    pub closed spec fn source(&self) -> Seq<char> {
        self.lexer.source()
    }

    /// The tokens consumed so far.
    pub closed spec fn read(&self) -> Seq<(TokenKind, Seq<char>)> {
        self.consumed@
    }

    /// The token waiting in `current`, unless it is `Eof`.
    closed spec fn pending(&self) -> Seq<(TokenKind, Seq<char>)> {
        if self.current.kind == TokenKind::Eof {
            Seq::empty()
        } else {
            seq![view_of(self.current)]
        }
    }

    /// The tokens not consumed yet.
    pub closed spec fn upcoming(&self) -> Seq<(TokenKind, Seq<char>)> {
        self.pending() + tokens_from(self.lexer.source(), self.lexer.position())
    }

    pub closed spec fn wf(&self) -> bool {
        &&& self.lexer.wf()
        &&& self.current.kind != TokenKind::Error
        &&& self.current.kind == TokenKind::Eof ==> tokens_from(
            self.lexer.source(),
            self.lexer.position(),
        ) == Seq::<(TokenKind, Seq<char>)>::empty()
        &&& self.consumed@ + self.upcoming() == tokens_of(self.lexer.source())
        &&& self.current.kind == TokenKind::Eof ==> error_free(
            self.lexer.source(),
            self.lexer.position(),
        )
        &&& error_free(self.lexer.source(), 0) == (self.errors@.len() == 0 && error_free(
            self.lexer.source(),
            self.lexer.position(),
        ))
    }

    /// Work left: the unread characters, and one for a pending token.
    closed spec fn measure(&self) -> nat {
        self.lexer.remaining() + if self.current.kind == TokenKind::Eof {
            0nat
        } else {
            1nat
        }
    }

    /// The measure of a rule applied to `previous`: zero for `Eof`, for
    /// which no rule recurses.
    closed spec fn budget(&self) -> nat {
        if self.previous.kind == TokenKind::Eof {
            0
        } else {
            self.measure() + 1
        }
    }

    /// The error tokens the scanner produced so far.
    pub closed spec fn diagnostics(&self) -> Seq<Token> {
        self.errors@
    }

    /// The upcoming tokens start with `current`, unless it is `Eof`.
    proof fn lemma_current(&self)
        requires
            self.wf(),
        ensures
            (self.upcoming().len() > 0) == (self.current.kind != TokenKind::Eof),
            self.current.kind != TokenKind::Eof ==> self.upcoming()[0] == view_of(self.current),
    {
    }

    pub fn new(src: &str) -> (r: Parser)
        ensures
            r.wf(),
            r.source() == src@,
            r.read() == Seq::<(TokenKind, Seq<char>)>::empty(),
            r.upcoming() == tokens_of(src@),
    {
        let lexer = Lexer::new(src);
        let mut p = Parser {
            previous: Token { kind: TokenKind::Eof, lexeme: String::new(), line: 1 },
            current: Token { kind: TokenKind::Eof, lexeme: String::new(), line: 1 },
            lexer,
            errors: Vec::new(),
            consumed: Ghost(Seq::empty()),
        };
        proof {
            assert(p.pending() =~= Seq::<(TokenKind, Seq<char>)>::empty());
        }
        p.advance();
        p.consumed = Ghost(Seq::empty());
        proof {
            assert(Seq::<(TokenKind, Seq<char>)>::empty() + p.upcoming() =~= p.upcoming());
        }
        p
    }

    /// The error tokens met so far, in order.
    pub fn errors(&self) -> (r: &Vec<Token>)
        ensures
            r@ == self.diagnostics(),
    {
        &self.errors
    }

    /// Moves `current` into `previous` and reads the next token, setting
    /// error tokens aside.
    fn advance(&mut self)
        requires
            old(self).lexer.wf(),
            error_free(old(self).lexer.source(), 0) == (old(self).errors@.len() == 0 && error_free(
                old(self).lexer.source(),
                old(self).lexer.position(),
            )),
        ensures
            error_free(final(self).lexer.source(), 0) == (final(self).errors@.len() == 0
                && error_free(final(self).lexer.source(), final(self).lexer.position())),
            final(self).current.kind == TokenKind::Eof ==> error_free(
                final(self).lexer.source(),
                final(self).lexer.position(),
            ),
            final(self).lexer.wf(),
            final(self).current.kind != TokenKind::Error,
            final(self).current.kind == TokenKind::Eof ==> tokens_from(
                final(self).lexer.source(),
                final(self).lexer.position(),
            ) == Seq::<(TokenKind, Seq<char>)>::empty(),
            final(self).lexer.source() == old(self).lexer.source(),
            final(self).consumed@ == old(self).consumed@ + old(self).pending(),
            final(self).upcoming() == tokens_from(
                old(self).lexer.source(),
                old(self).lexer.position(),
            ),
            final(self).previous == old(self).current,
            final(self).measure() <= old(self).measure(),
            old(self).current.kind != TokenKind::Eof ==> final(self).measure() < old(self).measure(),
            old(self).errors@.len() <= final(self).errors@.len(),
    {
        let ghost s = self.lexer.source();
        let ghost p0 = self.lexer.position();
        let ghost r0 = self.lexer.remaining();
        let mut tok = self.lexer.next_token();
        while tok.kind == TokenKind::Error
            invariant
                self.lexer.wf(),
                self.lexer.source() == s,
                self.previous == old(self).previous,
                self.current == old(self).current,
                self.consumed == old(self).consumed,
                self.lexer.remaining() <= r0,
                tok.kind != TokenKind::Eof ==> self.lexer.remaining() < r0,
                old(self).errors@.len() <= self.errors@.len(),
                error_free(s, 0) == (self.errors@.len() == 0 && tok.kind != TokenKind::Error
                    && error_free(s, self.lexer.position())),
                tok.kind == TokenKind::Eof ==> error_free(s, self.lexer.position()),
                tokens_from(s, p0) == if tok.kind == TokenKind::Eof {
                    Seq::empty()
                } else if tok.kind == TokenKind::Error {
                    tokens_from(s, self.lexer.position())
                } else {
                    seq![view_of(tok)] + tokens_from(s, self.lexer.position())
                },
                tok.kind == TokenKind::Eof ==> tokens_from(s, self.lexer.position()) == Seq::<
                    (TokenKind, Seq<char>),
                >::empty(),
            decreases self.lexer.remaining() + if tok.kind == TokenKind::Eof {
                0nat
            } else {
                1nat
            },
        {
            self.errors.push(tok);
            tok = self.lexer.next_token();
        }
        let ghost pending = self.pending();
        core::mem::swap(&mut self.current, &mut tok);
        self.previous = tok;
        self.consumed = Ghost(self.consumed@ + pending);
        proof {
            if self.current.kind == TokenKind::Eof {
                assert(self.upcoming() =~= Seq::<(TokenKind, Seq<char>)>::empty());
            }
        }
    }

    /// Consumes `current` when it has the expected kind.
    fn expect_and_consume(&mut self, expected: TokenKind) -> (r: Result<(), ParseError>)
        requires
            old(self).wf(),
        ensures
            final(self).wf(),
            final(self).source() == old(self).source(),
            final(self).measure() <= old(self).measure(),
            old(self).errors@.len() <= final(self).errors@.len(),
            r is Ok <==> old(self).current.kind == expected,
            r is Ok ==> final(self).read() == old(self).read() + old(self).pending(),
            r is Ok ==> final(self).previous == old(self).current,
            r is Err ==> *final(self) == *old(self) && r->Err_0 == ParseError::Mismatch,
    {
        if self.current.kind == expected {
            self.advance();
            proof {
                assert(self.consumed@ + self.upcoming() =~= tokens_of(self.lexer.source()));
            }
            Ok(())
        } else {
            Err(ParseError::Mismatch)
        }
    }

    fn parse_number(&mut self) -> (r: ParseResult)
        ensures
            *final(self) == *old(self),
            old(self).previous.kind == TokenKind::Number <==> r is Ok,
            r is Ok ==> r->Ok_0 == Expression::Number(old(self).previous.lexeme),
            r is Err ==> r->Err_0 == ParseError::MalformedNumber,
    {
        match self.previous.kind {
            TokenKind::Number => Ok(Expression::Number(self.previous.lexeme.clone())),
            _ => Err(ParseError::MalformedNumber),
        }
    }

    /// `previous` followed by the tokens not consumed yet.
    closed spec fn from_previous(&self) -> Seq<(TokenKind, Seq<char>)> {
        seq![view_of(self.previous)] + self.upcoming()
    }

    fn parse_expression(&mut self) -> (r: ParseResult)
        requires
            old(self).wf(),
        ensures
            final(self).wf(),
            final(self).source() == old(self).source(),
            final(self).measure() <= old(self).measure(),
            old(self).errors@.len() <= final(self).errors@.len(),
            r is Ok ==> well_formed(r->Ok_0) && kind_rank(final(self).current.kind) == 0
                && final(self).read() == old(self).read() + yield_of(r->Ok_0),
            r is Err ==> r->Err_0 != ParseError::InvalidToken,
            forall|e: Expression| #[trigger]
                fits(e, 1, old(self).upcoming()) ==> r is Ok && same_tree(r->Ok_0, e),
            no_start(old(self).upcoming()) ==> r == Err::<Expression, ParseError>(
                ParseError::UnexpectedPrefix,
            ),
            forall|x: Expression| #[trigger] unclosed(x, old(self).upcoming()) ==> r == Err::<Expression, ParseError>(
                    ParseError::Mismatch,
                ),
        decreases old(self).measure() + 1, 0nat,
    {
        proof {
            assert(rank(Precedence::Assignment) == 1);
        }
        self.parse_precedence(Precedence::Assignment)
    }

    fn parse_grouping(&mut self) -> (r: ParseResult)
        requires
            old(self).wf(),
            old(self).previous.kind == TokenKind::LPar,
        ensures
            final(self).wf(),
            final(self).source() == old(self).source(),
            final(self).measure() <= old(self).measure(),
            old(self).errors@.len() <= final(self).errors@.len(),
            r is Ok ==> well_formed(r->Ok_0) && binding(r->Ok_0) >= 8 && yield_of(r->Ok_0).len()
                > 0 && yield_of(r->Ok_0)[0] == view_of(old(self).previous) && final(self).read()
                == old(self).read() + yield_of(r->Ok_0).drop_first(),
            r is Err ==> r->Err_0 != ParseError::InvalidToken,
            forall|p: Expression| #[trigger]
                fits(p, 8, old(self).from_previous()) ==> r is Ok && same_tree(r->Ok_0, p),
            forall|x: Expression| #[trigger]
                unclosed_after(x, old(self).upcoming()) ==> r == Err::<Expression, ParseError>(
                    ParseError::Mismatch,
                ),
        decreases old(self).budget(), 1nat,
    {
        let ghost up0 = self.upcoming();
        let ghost read0 = self.consumed@;
        proof {
            assert forall|p: Expression| #[trigger] fits(p, 8, self.from_previous()) implies fits(
                *p->Grouping_0,
                1,
                up0,
            ) by {
                lemma_grouping_inner(p, up0);
            }
        }
        let expression = match self.parse_expression() {
            Ok(e) => e,
            Err(e) => return Err(e),
        };
        let ghost up1 = self.upcoming();
        proof {
            lemma_moved(read0, up0, yield_of(expression), up1);
            self.lemma_current();
        }
        if self.expect_and_consume(TokenKind::Rpar).is_ok() {
            let r = Expression::Grouping(Box::new(expression));
            proof {
                assert(yield_of(r).drop_first() =~= yield_of(expression) + seq![
                    (TokenKind::Rpar, Seq::<char>::empty()),
                ]);
                assert(self.consumed@ + self.upcoming() =~= tokens_of(self.lexer.source()));
                assert forall|p: Expression| #[trigger]
                    fits(p, 8, old(self).from_previous()) implies same_tree(r, p) by {
                    lemma_grouping_inner(p, up0);
                }
                assert forall|x: Expression| #[trigger] unclosed_after(x, up0) implies false by {
                    lemma_same_tree_alike(expression, x);
                    assert(up1[0] == up0[yield_of(x).len() as int]);
                }
            }
            Ok(r)
        } else {
            proof {
                assert forall|p: Expression| #[trigger]
                    fits(p, 8, old(self).from_previous()) implies false by {
                    lemma_grouping_inner(p, up0);
                    lemma_same_tree_alike(expression, *p->Grouping_0);
                }
            }
            Err(ParseError::Mismatch)
        }
    }

    fn parse_unary(&mut self) -> (r: ParseResult)
        requires
            old(self).wf(),
            old(self).previous.kind == TokenKind::Minus || old(self).previous.kind
                == TokenKind::Bang,
        ensures
            final(self).wf(),
            final(self).source() == old(self).source(),
            final(self).measure() <= old(self).measure(),
            old(self).errors@.len() <= final(self).errors@.len(),
            r is Ok ==> well_formed(r->Ok_0) && binding(r->Ok_0) >= 8 && yield_of(r->Ok_0).len()
                > 0 && yield_of(r->Ok_0)[0] == view_of(old(self).previous) && final(self).read()
                == old(self).read() + yield_of(r->Ok_0).drop_first(),
            r is Err ==> r->Err_0 != ParseError::InvalidToken,
            forall|p: Expression| #[trigger]
                fits(p, 8, old(self).from_previous()) ==> r is Ok && same_tree(r->Ok_0, p),
        decreases old(self).budget(), 1nat,
    {
        let ghost up0 = self.upcoming();
        let operator = self.previous.kind;
        proof {
            assert forall|p: Expression| #[trigger] fits(p, 8, self.from_previous()) implies fits(
                *p->Unary_1,
                8,
                up0,
            ) && p->Unary_0 == operator by {
                lemma_unary_operand(p, operator, up0);
            }
        }
        match self.parse_precedence(Precedence::Unary) {
            Ok(e) => {
                let r = Expression::Unary(operator, Box::new(e));
                proof {
                    assert(yield_of(r).drop_first() =~= yield_of(e));
                    assert forall|p: Expression| #[trigger]
                        fits(p, 8, old(self).from_previous()) implies same_tree(r, p) by {
                        lemma_unary_operand(p, operator, up0);
                        assert(p == Expression::Unary(p->Unary_0, p->Unary_1));
                    }
                }
                Ok(r)
            },
            Err(e) => {
                proof {
                    assert forall|p: Expression| #[trigger]
                        fits(p, 8, old(self).from_previous()) implies false by {
                        lemma_unary_operand(p, operator, up0);
                        assert(rank(Precedence::Unary) == 8);
                        assert(fits(*p->Unary_1, rank(Precedence::Unary), up0));
                    }
                }
                Err(e)
            },
        }
    }

    fn parse_binary(&mut self, left: Expression) -> (r: ParseResult)
        requires
            old(self).wf(),
            is_arithmetic_operator(old(self).previous.kind),
            well_formed(left),
            binding(left) >= operator_rank(old(self).previous.kind),
        ensures
            final(self).wf(),
            final(self).source() == old(self).source(),
            final(self).measure() <= old(self).measure(),
            old(self).errors@.len() <= final(self).errors@.len(),
            r is Ok ==> well_formed(r->Ok_0) && binding(r->Ok_0) == operator_rank(
                old(self).previous.kind,
            ) && kind_rank(final(self).current.kind) <= operator_rank(old(self).previous.kind),
            r is Ok ==> r->Ok_0 is Binary && *r->Ok_0->Binary_0 == left && r->Ok_0->Binary_1
                == old(self).previous.kind && final(self).read() == old(self).read() + yield_of(
                *r->Ok_0->Binary_2,
            ),
            r is Err ==> r->Err_0 != ParseError::InvalidToken,
            forall|x: Expression| #[trigger]
                fits(x, operator_rank(old(self).previous.kind) + 1, old(self).upcoming()) ==> r is Ok
                    && same_tree(*r->Ok_0->Binary_2, x),
        decreases old(self).budget(), 1nat,
    {
        let operator = self.previous.kind;
        let next = Precedence::of_kind(operator).next();
        match self.parse_precedence(next) {
            Ok(right) => Ok(Expression::Binary(Box::new(left), operator, Box::new(right))),
            Err(e) => Err(e),
        }
    }

    /// Parses an expression whose operators bind at least as tightly as
    /// `precedence`; it stops before the first token that binds more loosely.
    #[verifier::spinoff_prover]
    #[verifier::rlimit(60)]
    fn parse_precedence(&mut self, precedence: Precedence) -> (r: ParseResult)
        requires
            old(self).wf(),
            1 <= rank(precedence) <= 8,
        ensures
            final(self).wf(),
            final(self).source() == old(self).source(),
            final(self).measure() <= old(self).measure(),
            old(self).errors@.len() <= final(self).errors@.len(),
            r is Ok ==> well_formed(r->Ok_0) && binding(r->Ok_0) >= rank(precedence) && kind_rank(
                final(self).current.kind,
            ) < rank(precedence) && final(self).read() == old(self).read() + yield_of(r->Ok_0),
            r is Err ==> r->Err_0 != ParseError::InvalidToken,
            forall|e: Expression| #[trigger]
                fits(e, rank(precedence), old(self).upcoming()) ==> r is Ok && same_tree(
                    r->Ok_0,
                    e,
                ),
            no_start(old(self).upcoming()) ==> r == Err::<Expression, ParseError>(
                ParseError::UnexpectedPrefix,
            ),
            forall|x: Expression| #[trigger] unclosed(x, old(self).upcoming()) ==> r == Err::<Expression, ParseError>(
                    ParseError::Mismatch,
                ),
        decreases old(self).measure(), 3nat,
    {
        let ghost m0 = self.measure();
        let ghost read0 = self.consumed@;
        let ghost toks0 = self.upcoming();
        let ghost min_rank = rank(precedence);
        proof {
            self.lemma_current();
        }
        self.advance();
        proof {
            assert(self.consumed@ + self.upcoming() =~= tokens_of(self.lexer.source()));
            if no_start(toks0) {
                assert(!starts_expression(self.previous.kind));
            }
            if toks0.len() > 0 {
                assert(toks0 =~= seq![view_of(self.previous)] + self.upcoming());
                assert(self.upcoming() =~= toks0.drop_first());
            }
            assert forall|e: Expression| #[trigger] fits(e, min_rank, toks0) implies fits(
                strip(e, spine(e)),
                8,
                self.from_previous(),
            ) by {
                lemma_well_formed_basics(e);
                lemma_spine_start(e, min_rank, toks0);
                assert(self.from_previous() =~= toks0);
            }
        }
        let mut expr = match self.parse_prefix() {
            Ok(e) => e,
            Err(e) => return Err(e),
        };
        proof {
            assert(toks0.len() > 0 ==> toks0 =~= seq![toks0[0]] + toks0.drop_first());
            assert(yield_of(expr) =~= seq![yield_of(expr)[0]] + yield_of(expr).drop_first());
            assert(self.consumed@ =~= read0 + yield_of(expr));
            assert forall|e: Expression| #[trigger] fits(e, min_rank, toks0) implies exists|j: nat|
                j <= spine(e) && same_tree(expr, #[trigger] strip(e, j)) by {
                assert(same_tree(expr, strip(e, spine(e))));
            }
        }
        let min = precedence.order();
        loop
            invariant
                self.wf(),
                self.lexer.source() == old(self).lexer.source(),
                self.measure() <= m0,
                old(self).errors@.len() <= self.errors@.len(),
                well_formed(expr),
                binding(expr) >= rank(precedence),
                min == rank(precedence),
                min_rank == rank(precedence),
                1 <= rank(precedence) <= 8,
                m0 == old(self).measure(),
                read0 == old(self).consumed@,
                toks0 == old(self).upcoming(),
                !no_start(toks0),
                forall|x: Expression| !#[trigger] unclosed(x, toks0),
                read0 + toks0 == tokens_of(self.lexer.source()),
                self.consumed@ == read0 + yield_of(expr),
                kind_rank(self.current.kind) <= 7 ==> kind_rank(self.current.kind) <= binding(expr),
                forall|e: Expression| #[trigger]
                    fits(e, min_rank, toks0) ==> exists|j: nat|
                        j <= spine(e) && same_tree(expr, #[trigger] strip(e, j)),
            ensures
                self.wf(),
                self.lexer.source() == old(self).lexer.source(),
                self.measure() <= m0,
                old(self).errors@.len() <= self.errors@.len(),
                well_formed(expr),
                binding(expr) >= rank(precedence),
                kind_rank(self.current.kind) < rank(precedence),
                self.consumed@ == read0 + yield_of(expr),
                read0 + toks0 == tokens_of(self.lexer.source()),
                forall|e: Expression| #[trigger]
                    fits(e, min_rank, toks0) ==> exists|j: nat|
                        j <= spine(e) && same_tree(expr, #[trigger] strip(e, j)),
            decreases self.measure(),
        {
            let level = Precedence::of_kind(self.current.kind).order();
            if level < min {
                break ;
            }
            let ghost before = yield_of(expr);
            let ghost pend = self.pending();
            let ghost up1 = self.upcoming();
            let ghost left = expr;
            proof {
                self.lemma_current();
                lemma_moved(read0, toks0, yield_of(expr), up1);
            }
            self.advance();
            proof {
                assert(self.consumed@ + self.upcoming() =~= tokens_of(self.lexer.source()));
            }
            let ghost prev = self.previous;
            let ghost mid = self.consumed@;
            let ghost up2 = self.upcoming();
            proof {
                assert(kind_rank(prev.kind) >= 1);
                assert(pend == seq![view_of(prev)]);
                assert(up1 == pend + up2);
                assert(up2 =~= up1.subrange(1, up1.len() as int));
                assert(up2 =~= toks0.subrange(before.len() + 1int, toks0.len() as int));
                assert forall|e: Expression| #[trigger] fits(e, min_rank, toks0) implies ({
                    let j = choose|j: nat| j <= spine(e) && same_tree(left, #[trigger] strip(e, j));
                    &&& j >= 1
                    &&& prev.kind == strip(e, (j - 1) as nat)->Binary_1
                    &&& is_arithmetic_operator(prev.kind)
                    &&& fits(*strip(e, (j - 1) as nat)->Binary_2, kind_rank(prev.kind) + 1, up2)
                }) by {
                    let j = choose|j: nat| j <= spine(e) && same_tree(left, #[trigger] strip(e, j));
                    lemma_spine_step(e, j, min_rank, toks0, left);
                }
            }
            expr = match self.parse_infix(expr) {
                Ok(e) => e,
                Err(e) => return Err(e),
            };
            proof {
                let rest = self.consumed@.subrange(mid.len() as int, self.consumed@.len() as int);
                assert(pend == seq![view_of(prev)]);
                assert(self.consumed@ =~= mid + rest);
                assert(self.consumed@ =~= read0 + yield_of(expr));
                assert forall|e: Expression| #[trigger] fits(e, min_rank, toks0) implies exists|
                    j: nat,
                | j <= spine(e) && same_tree(expr, #[trigger] strip(e, j)) by {
                    let j = choose|j: nat| j <= spine(e) && same_tree(left, #[trigger] strip(e, j));
                    lemma_spine_step(e, j, min_rank, toks0, left);
                    lemma_spine(e, j);
                    let node = strip(e, (j - 1) as nat);
                    assert(node == Expression::Binary(
                        node->Binary_0,
                        node->Binary_1,
                        node->Binary_2,
                    ));
                    assert(same_tree(expr, node));
                }
            }
        }
        proof {
            let y = yield_of(expr);
            lemma_moved(read0, toks0, y, self.upcoming());
            self.lemma_current();
            assert forall|e: Expression| #[trigger] fits(e, min_rank, toks0) implies same_tree(
                expr,
                e,
            ) by {
                let j = choose|j: nat| j <= spine(e) && same_tree(expr, #[trigger] strip(e, j));
                if y.len() < toks0.len() {
                    assert(toks0[y.len() as int] == self.upcoming()[0]);
                }
                lemma_spine_exit(e, j, min_rank, toks0, expr);
            }
        }
        Ok(expr)
    }

    fn parse_prefix(&mut self) -> (r: ParseResult)
        requires
            old(self).wf(),
        ensures
            final(self).wf(),
            final(self).source() == old(self).source(),
            final(self).measure() <= old(self).measure(),
            old(self).errors@.len() <= final(self).errors@.len(),
            r is Ok ==> well_formed(r->Ok_0) && binding(r->Ok_0) >= 8,
            r is Ok ==> old(self).previous.kind != TokenKind::Eof,
            r is Ok ==> yield_of(r->Ok_0).len() > 0 && yield_of(r->Ok_0)[0] == view_of(
                old(self).previous,
            ) && final(self).read() == old(self).read() + yield_of(r->Ok_0).drop_first(),
            r is Err && old(self).previous.kind != TokenKind::Number && old(self).previous.kind
                != TokenKind::LPar && old(self).previous.kind != TokenKind::Bang
                && old(self).previous.kind != TokenKind::Minus && old(self).previous.kind
                != TokenKind::True && old(self).previous.kind != TokenKind::False
                && old(self).previous.kind != TokenKind::Nil ==> r->Err_0
                == ParseError::UnexpectedPrefix,
            r is Err ==> r->Err_0 != ParseError::InvalidToken,
            !starts_expression(old(self).previous.kind) ==> r == Err::<Expression, ParseError>(
                ParseError::UnexpectedPrefix,
            ),
            forall|p: Expression| #[trigger]
                fits(p, 8, old(self).from_previous()) ==> r is Ok && same_tree(r->Ok_0, p),
            forall|x: Expression| #[trigger]
                unclosed_after(x, old(self).upcoming()) && old(self).previous.kind == TokenKind::LPar
                    ==> r == Err::<Expression, ParseError>(
                    ParseError::Mismatch,
                ),
        decreases old(self).budget(), 2nat,
    {
        proof {
            assert forall|p: Expression| #[trigger] fits(p, 8, self.from_previous()) implies match p {
                Expression::Number(t) => view_of(self.previous) == (TokenKind::Number, t@),
                Expression::Bool(b) => view_of(self.previous) == (if b {
                    TokenKind::True
                } else {
                    TokenKind::False
                }, Seq::<char>::empty()),
                Expression::Nil => view_of(self.previous) == (TokenKind::Nil, Seq::<char>::empty()),
                Expression::Grouping(x) => self.previous.kind == TokenKind::LPar,
                Expression::Unary(o, x) => self.previous.kind == o && (o == TokenKind::Minus || o
                    == TokenKind::Bang),
                _ => false,
            } by {
                lemma_first_token(p, self.from_previous());
            }
        }
        match self.previous.kind {
            TokenKind::Number => {
                let r = self.parse_number();
                proof {
                    if r is Ok {
                        assert(yield_of(r->Ok_0).drop_first() =~= Seq::<
                            (TokenKind, Seq<char>),
                        >::empty());
                        assert(self.consumed@ =~= self.consumed@ + Seq::<
                            (TokenKind, Seq<char>),
                        >::empty());
                    }
                }
                r
            },
            TokenKind::LPar => self.parse_grouping(),
            TokenKind::Bang | TokenKind::Minus => self.parse_unary(),
            TokenKind::True | TokenKind::False | TokenKind::Nil => {
                let r = if self.previous.kind == TokenKind::Nil {
                    Expression::Nil
                } else {
                    Expression::Bool(self.previous.kind == TokenKind::True)
                };
                proof {
                    assert(yield_of(r).drop_first() =~= Seq::<(TokenKind, Seq<char>)>::empty());
                    assert(self.consumed@ =~= self.consumed@ + Seq::<
                        (TokenKind, Seq<char>),
                    >::empty());
                }
                Ok(r)
            },
            _ => Err(ParseError::UnexpectedPrefix),
        }
    }

    fn parse_infix(&mut self, left: Expression) -> (r: ParseResult)
        requires
            old(self).wf(),
            old(self).previous.kind != TokenKind::Eof,
            well_formed(left),
            kind_rank(old(self).previous.kind) <= 7 ==> kind_rank(old(self).previous.kind)
                <= binding(left),
        ensures
            final(self).wf(),
            final(self).source() == old(self).source(),
            final(self).measure() <= old(self).measure(),
            old(self).errors@.len() <= final(self).errors@.len(),
            r is Ok ==> well_formed(r->Ok_0) && binding(r->Ok_0) == kind_rank(
                old(self).previous.kind,
            ) && kind_rank(final(self).current.kind) <= kind_rank(old(self).previous.kind),
            r is Ok ==> yield_of(r->Ok_0) == yield_of(left) + seq![view_of(old(self).previous)]
                + (final(self).read().subrange(
                old(self).read().len() as int,
                final(self).read().len() as int,
            )),
            r is Ok ==> old(self).read().len() <= final(self).read().len() && final(self).read().subrange(
                0,
                old(self).read().len() as int,
            ) == old(self).read(),
            r is Ok ==> r->Ok_0 is Binary && *r->Ok_0->Binary_0 == left && r->Ok_0->Binary_1
                == old(self).previous.kind,
            r is Err && !is_arithmetic_operator(old(self).previous.kind) ==> r->Err_0
                == ParseError::UnexpectedInfix,
            r is Err ==> r->Err_0 != ParseError::InvalidToken,
            forall|x: Expression| #[trigger]
                fits(x, kind_rank(old(self).previous.kind) + 1, old(self).upcoming())
                    && is_arithmetic_operator(old(self).previous.kind) ==> r is Ok && same_tree(
                    *r->Ok_0->Binary_2,
                    x,
                ),
        decreases old(self).budget(), 2nat,
    {
        match self.previous.kind {
            TokenKind::Minus | TokenKind::Plus | TokenKind::Star | TokenKind::Slash => {
                let ghost read0 = self.consumed@;
                proof {
                    assert(operator_rank(self.previous.kind) == kind_rank(self.previous.kind));
                }
                let r = self.parse_binary(left);
                proof {
                    if r is Ok {
                        let right = *r->Ok_0->Binary_2;
                        assert(self.consumed@.subrange(0, read0.len() as int) =~= read0);
                        assert(self.consumed@.subrange(
                            read0.len() as int,
                            self.consumed@.len() as int,
                        ) =~= yield_of(right));
                    }
                }
                r
            },
            _ => Err(ParseError::UnexpectedInfix),
        }
    }

    /// Parses the tokens not yet consumed as one expression, optionally
    /// followed by `;`. It succeeds exactly when some well-formed tree is
    /// written with those tokens and the source holds no token the scanner
    /// rejects, and then returns that tree: its operators respect precedence
    /// and group to the left.
    pub fn parse(&mut self) -> (r: ParseResult)
        requires
            old(self).wf(),
        ensures
            final(self).wf(),
            final(self).source() == old(self).source(),
            r is Ok ==> whole(r->Ok_0, old(self).upcoming()) && error_free(old(self).source(), 0),
            forall|e: Expression| #[trigger]
                whole(e, old(self).upcoming()) && error_free(old(self).source(), 0) ==> r is Ok
                    && same_tree(r->Ok_0, e),
            (r == Err::<Expression, ParseError>(ParseError::InvalidToken)) == (final(self).diagnostics().len() > 0),
            error_free(old(self).source(), 0) ==> final(self).diagnostics().len() == 0,
            !error_free(old(self).source(), 0) ==> r is Err,
            no_start(old(self).upcoming()) && final(self).diagnostics().len() == 0 ==> r == Err::<
                Expression,
                ParseError,
            >(ParseError::UnexpectedPrefix),
            forall|x: Expression| #[trigger]
                unclosed(x, old(self).upcoming()) && final(self).diagnostics().len() == 0
                    ==> r == Err::<Expression, ParseError>(
                    ParseError::Mismatch,
                ),
            forall|e: Expression| #[trigger]
                fits(e, 1, old(self).upcoming()) && !whole(e, old(self).upcoming())
                    && final(self).diagnostics().len() == 0 ==> r == Err::<Expression, ParseError>(
                    ParseError::TrailingToken,
                ),
    {
        let ghost read0 = self.consumed@;
        let ghost up0 = self.upcoming();
        proof {
            assert forall|t: Expression| #[trigger] whole(t, up0) implies fits(t, 1, up0) by {
                lemma_well_formed_basics(t);
                assert(up0.subrange(0, yield_of(t).len() as int) =~= yield_of(t));
            }
        }
        let r = match self.parse_expression() {
            Ok(e) => {
                let ghost up1 = self.upcoming();
                proof {
                    lemma_well_formed_basics(e);
                    lemma_moved(read0, up0, yield_of(e), up1);
                    self.lemma_current();
                }
                if self.current.kind == TokenKind::Semicolon {
                    self.advance();
                    proof {
                        assert(self.consumed@ + self.upcoming() =~= tokens_of(self.lexer.source()));
                        assert(up1 == seq![view_of(self.previous)] + self.upcoming());
                    }
                }
                proof {
                    self.lemma_current();
                }
                if self.current.kind == TokenKind::Eof {
                    proof {
                        assert(up0 =~= yield_of(e) + up1);
                        if up1.len() > 0 {
                            assert(up1 =~= seq![(TokenKind::Semicolon, Seq::<char>::empty())]);
                        } else {
                            assert(up0 =~= yield_of(e));
                        }
                        assert(whole(e, up0));
                        assert forall|t: Expression| #[trigger] fits(t, 1, up0) implies whole(t, up0) by {
                            lemma_same_tree_alike(e, t);
                        }
                    }
                    Ok(e)
                } else {
                    proof {
                        assert forall|t: Expression| #[trigger] whole(t, up0) implies false by {
                            lemma_same_tree_alike(e, t);
                            assert(up0 =~= yield_of(e) + up1);
                        }
                    }
                    Err(ParseError::TrailingToken)
                }
            },
            Err(err) => Err(err),
        };
        if self.errors.len() > 0 {
            return Err(ParseError::InvalidToken);
        }
        r
    }
}

} // verus!
