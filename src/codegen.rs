use vstd::prelude::*;

use crate::ast::{Expression, is_arithmetic_operator, same_tree};
use crate::compiler::{code_for, lemma_compiled_chunk_evaluates, opcode_for, supported, value_of};
use crate::lexer::{TokenKind, tokens_of};
use crate::parser::{lemma_fits_unique, lemma_whole_fits, whole};
use crate::vm::bytecode::Opcode;
use crate::vm::{Value, combine, run};

verus! {

/// One instruction of a straight-line native function body. Instruction
/// `i` defines value `i`; operands name earlier values.
#[derive(Debug, PartialEq)]
pub enum NativeOp {
    /// A floating-point immediate read from a number literal.
    Const(String),
    /// The negation of a number literal, folded into an immediate.
    NegConst(String),
    Add(usize, usize),
    Sub(usize, usize),
    Mul(usize, usize),
    Div(usize, usize),
}

#[derive(Debug, Clone, Copy, PartialEq, Eq, Structural)]
pub enum LoweringError {
    /// A construct the native backend does not lower.
    Unsupported,
}

/// The expressions the native backend lowers: like the bytecode
/// backend, except that `-` applies to number literals only.
pub open spec fn native_supported(e: Expression) -> bool
    decreases e,
{
    match e {
        Expression::Number(_) => true,
        Expression::Grouping(x) => native_supported(*x),
        Expression::Unary(op, x) => op == TokenKind::Minus && (*x) is Number,
        Expression::Binary(l, op, r) => is_arithmetic_operator(op) && native_supported(*l)
            && native_supported(*r),
        _ => false,
    }
}

/// The instruction for an arithmetic operator applied to values `a` and `b`.
pub open spec fn native_op(op: TokenKind, a: usize, b: usize) -> NativeOp {
    if op == TokenKind::Plus {
        NativeOp::Add(a, b)
    } else if op == TokenKind::Minus {
        NativeOp::Sub(a, b)
    } else if op == TokenKind::Star {
        NativeOp::Mul(a, b)
    } else {
        NativeOp::Div(a, b)
    }
}

/// The instructions for `e` when the plan already holds `base` of them:
/// operands first, left before right, then the operator on their values.
pub open spec fn plan_for(e: Expression, base: nat) -> Seq<NativeOp>
    decreases e,
{
    match e {
        Expression::Number(t) => seq![NativeOp::Const(t)],
        Expression::Grouping(x) => plan_for(*x, base),
        Expression::Unary(_, x) => match *x {
            Expression::Number(t) => seq![NativeOp::NegConst(t)],
            _ => Seq::empty(),
        },
        Expression::Binary(l, op, r) => {
            let pl = plan_for(*l, base);
            let pr = plan_for(*r, base + pl.len());
            pl + pr + seq![
                native_op(
                    op,
                    (base + pl.len() - 1) as usize,
                    (base + pl.len() + pr.len() - 1) as usize,
                ),
            ]
        },
        _ => Seq::empty(),
    }
}

/// Every operand names a value defined before it.
pub open spec fn plan_wf(plan: Seq<NativeOp>) -> bool {
    forall|i: int|
        0 <= i < plan.len() ==> match #[trigger] plan[i] {
            NativeOp::Add(a, b) => a < i && b < i,
            NativeOp::Sub(a, b) => a < i && b < i,
            NativeOp::Mul(a, b) => a < i && b < i,
            NativeOp::Div(a, b) => a < i && b < i,
            _ => true,
        }
}

/// The value that instruction `i` of a plan defines.
pub open spec fn plan_value(plan: Seq<NativeOp>, i: int) -> Value
    decreases i,
{
    if 0 <= i < plan.len() {
        match plan[i] {
            NativeOp::Const(t) => Value::Number(t),
            NativeOp::NegConst(t) => Value::Negate(Box::new(Value::Number(t))),
            NativeOp::Add(a, b) => if a < i && b < i {
                Value::Add(Box::new(plan_value(plan, a as int)), Box::new(plan_value(plan, b as int)))
            } else {
                arbitrary()
            },
            NativeOp::Sub(a, b) => if a < i && b < i {
                Value::Subtract(
                    Box::new(plan_value(plan, a as int)),
                    Box::new(plan_value(plan, b as int)),
                )
            } else {
                arbitrary()
            },
            NativeOp::Mul(a, b) => if a < i && b < i {
                Value::Multiply(
                    Box::new(plan_value(plan, a as int)),
                    Box::new(plan_value(plan, b as int)),
                )
            } else {
                arbitrary()
            },
            NativeOp::Div(a, b) => if a < i && b < i {
                Value::Divide(
                    Box::new(plan_value(plan, a as int)),
                    Box::new(plan_value(plan, b as int)),
                )
            } else {
                arbitrary()
            },
        }
    } else {
        arbitrary()
    }
}

proof fn lemma_push_wf(p: Seq<NativeOp>, op: NativeOp)
    requires
        plan_wf(p),
        match op {
            NativeOp::Add(a, b) => a < p.len() && b < p.len(),
            NativeOp::Sub(a, b) => a < p.len() && b < p.len(),
            NativeOp::Mul(a, b) => a < p.len() && b < p.len(),
            NativeOp::Div(a, b) => a < p.len() && b < p.len(),
            _ => true,
        },
    ensures
        plan_wf(p.push(op)),
{
    assert forall|k: int| 0 <= k < p.push(op).len() implies match #[trigger] p.push(op)[k] {
        NativeOp::Add(x, y) => x < k && y < k,
        NativeOp::Sub(x, y) => x < k && y < k,
        NativeOp::Mul(x, y) => x < k && y < k,
        NativeOp::Div(x, y) => x < k && y < k,
        _ => true,
    } by {
        if k < p.len() {
            assert(p.push(op)[k] == p[k]);
        }
    }
}

/// Appending instructions leaves the values already defined unchanged.
proof fn lemma_plan_prefix(p: Seq<NativeOp>, q: Seq<NativeOp>, i: int)
    requires
        p.len() <= q.len(),
        q.subrange(0, p.len() as int) == p,
        0 <= i < p.len(),
    ensures
        plan_value(p, i) == plan_value(q, i),
    decreases i,
{
    assert(q[i] == q.subrange(0, p.len() as int)[i]);
    match p[i] {
        NativeOp::Add(a, b) | NativeOp::Sub(a, b) | NativeOp::Mul(a, b) | NativeOp::Div(a, b) => {
            if a < i && b < i {
                lemma_plan_prefix(p, q, a as int);
                lemma_plan_prefix(p, q, b as int);
            }
        },
        _ => {},
    }
}

/// Appends the instructions for `e` to `plan` and returns the value that
/// holds its result; fails on what the native backend does not lower.
pub fn lower_into(plan: &mut Vec<NativeOp>, e: &Expression) -> (r: Result<usize, LoweringError>)
    requires
        plan_wf(old(plan)@),
    ensures
        r is Ok <==> native_supported(*e),
        r is Ok ==> {
            &&& plan_wf(final(plan)@)
            &&& old(plan)@.len() <= r->Ok_0
            &&& r->Ok_0 + 1 == final(plan)@.len()
            &&& final(plan)@ == old(plan)@ + plan_for(*e, old(plan)@.len())
            &&& final(plan)@.subrange(0, old(plan)@.len() as int) == old(plan)@
            &&& plan_value(final(plan)@, r->Ok_0 as int) == value_of(*e)
        },
    decreases e,
{
    match e {
        Expression::Number(text) => {
            proof {
                lemma_push_wf(plan@, NativeOp::Const(*text));
            }
            plan.push(NativeOp::Const(text.clone()));
            proof {
                assert(plan@.subrange(0, old(plan)@.len() as int) =~= old(plan)@);
                assert(plan@ =~= old(plan)@ + plan_for(*e, old(plan)@.len()));
            }
            Ok(plan.len() - 1)
        },
        Expression::Grouping(x) => lower_into(plan, x),
        Expression::Unary(op, x) => {
            match op {
                TokenKind::Minus => {},
                _ => return Err(LoweringError::Unsupported),
            }
            match &**x {
                Expression::Number(text) => {
                    proof {
                        lemma_push_wf(plan@, NativeOp::NegConst(*text));
                    }
                    plan.push(NativeOp::NegConst(text.clone()));
                    proof {
                        assert(plan@ =~= old(plan)@ + plan_for(*e, old(plan)@.len()));
                        assert(value_of(**x) == Value::Number(*text));
                        assert(plan@.subrange(0, old(plan)@.len() as int) =~= old(plan)@);
                    }
                    Ok(plan.len() - 1)
                },
                _ => Err(LoweringError::Unsupported),
            }
        },
        Expression::Binary(l, op, r) => {
            match op {
                TokenKind::Plus | TokenKind::Minus | TokenKind::Star | TokenKind::Slash => {},
                _ => return Err(LoweringError::Unsupported),
            }
            let ghost p0 = plan@;
            let a = match lower_into(plan, l) {
                Ok(a) => a,
                Err(err) => return Err(err),
            };
            let ghost p1 = plan@;
            let b = match lower_into(plan, r) {
                Ok(b) => b,
                Err(err) => return Err(err),
            };
            let ghost p2 = plan@;
            let instruction = match op {
                TokenKind::Plus => NativeOp::Add(a, b),
                TokenKind::Minus => NativeOp::Sub(a, b),
                TokenKind::Star => NativeOp::Mul(a, b),
                _ => NativeOp::Div(a, b),
            };
            proof {
                lemma_push_wf(plan@, instruction);
            }
            plan.push(instruction);
            proof {
                let p3 = plan@;
                let i = p2.len() as int;
                assert(p3.subrange(0, p2.len() as int) =~= p2);
                assert(p2.subrange(0, p1.len() as int) == p1);
                lemma_plan_prefix(p1, p2, a as int);
                lemma_plan_prefix(p2, p3, a as int);
                lemma_plan_prefix(p2, p3, b as int);
                assert(p3.subrange(0, p0.len() as int) =~= p0) by {
                    assert(p1.subrange(0, p0.len() as int) == p0);
                    assert forall|k: int| 0 <= k < p0.len() implies p3[k] == p0[k] by {
                        assert(p3.subrange(0, p2.len() as int)[k] == p3[k]);
                        assert(p2.subrange(0, p1.len() as int)[k] == p2[k]);
                        assert(p1.subrange(0, p0.len() as int)[k] == p1[k]);
                    }
                }
                assert(p3 =~= p0 + plan_for(*e, p0.len()));
                assert(plan_value(p3, i) == combine(opcode_for(*op), value_of(**l), value_of(**r)));
            }
            Ok(plan.len() - 1)
        },
        _ => Err(LoweringError::Unsupported),
    }
}

/// The straight-line native body for `e`: its last instruction defines the
/// value of `e`.
pub fn lower(e: &Expression) -> (r: Result<Vec<NativeOp>, LoweringError>)
    ensures
        r is Ok <==> native_supported(*e),
        r is Ok ==> r->Ok_0@ == plan_for(*e, 0),
        r is Ok ==> plan_wf(r->Ok_0@) && r->Ok_0@.len() > 0 && plan_value(
            r->Ok_0@,
            r->Ok_0@.len() - 1,
        ) == value_of(*e),
{
    let mut plan: Vec<NativeOp> = Vec::new();
    match lower_into(&mut plan, e) {
        Ok(_) => {
            proof {
                assert(plan@ =~= plan_for(*e, 0));
            }
            Ok(plan)
        },
        Err(err) => Err(err),
    }
}

/// Two values that are equal up to how their number texts are stored.
pub open spec fn same_value(a: Value, b: Value) -> bool
    decreases a,
{
    match a {
        Value::Number(x) => match b {
            Value::Number(y) => x@ == y@,
            _ => false,
        },
        Value::Negate(x) => match b {
            Value::Negate(y) => same_value(*x, *y),
            _ => false,
        },
        Value::Add(x1, x2) => match b {
            Value::Add(y1, y2) => same_value(*x1, *y1) && same_value(*x2, *y2),
            _ => false,
        },
        Value::Subtract(x1, x2) => match b {
            Value::Subtract(y1, y2) => same_value(*x1, *y1) && same_value(*x2, *y2),
            _ => false,
        },
        Value::Multiply(x1, x2) => match b {
            Value::Multiply(y1, y2) => same_value(*x1, *y1) && same_value(*x2, *y2),
            _ => false,
        },
        Value::Divide(x1, x2) => match b {
            Value::Divide(y1, y2) => same_value(*x1, *y1) && same_value(*x2, *y2),
            _ => false,
        },
    }
}

proof fn lemma_same_tree_value(a: Expression, b: Expression)
    requires
        same_tree(a, b),
        supported(a),
    ensures
        same_value(value_of(a), value_of(b)),
    decreases a,
{
    match a {
        Expression::Grouping(x) => lemma_same_tree_value(*x, *b->Grouping_0),
        Expression::Unary(_, x) => lemma_same_tree_value(*x, *b->Unary_1),
        Expression::Binary(l, _, r) => {
            lemma_same_tree_value(*l, *b->Binary_0);
            lemma_same_tree_value(*r, *b->Binary_2);
        },
        _ => {},
    }
}

/// The two backends agree on every source text. When the bytecode compiler
/// reads a whole expression `e1` from it (as `compile_to_chunk` does) and
/// the parser reads `e2` (as `Parser::parse` does), whose native plan ends
/// with the value of `e2` (as `lower` guarantees), then running the chunk
/// leaves exactly one value on the stack, and it is the value the plan's
/// last instruction defines, up to how number texts are stored.
pub proof fn lemma_backends_agree_on_source(
    src: Seq<char>,
    e1: Expression,
    e2: Expression,
    plan: Seq<NativeOp>,
)
    requires
        whole(e1, tokens_of(src)),
        supported(e1),
        whole(e2, tokens_of(src)),
        native_supported(e2),
        plan.len() > 0,
        plan_value(plan, plan.len() - 1) == value_of(e2),
    ensures
        run(code_for(e1).push(Opcode::Return), Seq::empty()) == Some(seq![value_of(e1)]),
        same_value(value_of(e1), plan_value(plan, plan.len() - 1)),
{
    lemma_whole_fits(e1, tokens_of(src));
    lemma_whole_fits(e2, tokens_of(src));
    lemma_fits_unique(e1, e2, 1, tokens_of(src));
    lemma_same_tree_value(e1, e2);
    lemma_compiled_chunk_evaluates(e1);
}

} // verus!
