use blox::ast::Expression;
use blox::codegen::{lower, LoweringError, NativeOp};
use blox::compiler::{compile_to_chunk, Compiler};
use blox::lexer::TokenKind;
use blox::parser::Parser;
use blox::vm::bytecode::{Chunk, Opcode};
use blox::vm::{Error, Value, VM};

fn read(v: &Value) -> f64 {
    match v {
        Value::Number(t) => t.parse().unwrap(),
        Value::Negate(x) => -read(x),
        Value::Add(a, b) => read(a) + read(b),
        Value::Subtract(a, b) => read(a) - read(b),
        Value::Multiply(a, b) => read(a) * read(b),
        Value::Divide(a, b) => read(a) / read(b),
    }
}

fn tree(e: &Expression) -> f64 {
    match e {
        Expression::Number(t) => t.parse().unwrap(),
        Expression::Grouping(x) => tree(x),
        Expression::Unary(_, x) => -tree(x),
        Expression::Binary(l, op, r) => match op {
            TokenKind::Plus => tree(l) + tree(r),
            TokenKind::Minus => tree(l) - tree(r),
            TokenKind::Star => tree(l) * tree(r),
            _ => tree(l) / tree(r),
        },
        _ => panic!("not arithmetic"),
    }
}

fn evaluate(src: &str) -> f64 {
    let chunk = compile_to_chunk(src).unwrap();
    let mut vm = VM::new();
    vm.interpret(chunk).unwrap();
    assert_eq!(vm.stack().len(), 1);
    read(&vm.stack()[0])
}

#[test]
fn left_associative_subtraction_evaluates_to_two() {
    assert_eq!(evaluate("8 - 4 - 2"), 2.0);
}

#[test]
fn grouping_evaluates_to_nine() {
    assert_eq!(evaluate("(1 + 2) * 3"), 9.0);
}

#[test]
fn negation_times_three() {
    assert_eq!(evaluate("-2 * 3"), -6.0);
}

#[test]
fn precedence_evaluates_to_seven() {
    assert_eq!(evaluate("1 + 2 * 3"), 7.0);
}

#[test]
fn division_by_zero_follows_ieee() {
    assert_eq!(evaluate("1 / 0"), f64::INFINITY);
    assert_eq!(evaluate("-1 / 0"), f64::NEG_INFINITY);
    let nan = evaluate("0 / 0");
    assert!(nan.is_nan());
    assert!(nan != nan);
}

#[test]
fn vm_matches_tree_evaluation() {
    let corpus = [
        "1 + 2 * 3",
        "8 - 4 - 2",
        "(1 + 2) * 3",
        "-2 * 3",
        "10 / 4 - 0.5",
        "-(3 - 5) / 7",
        "0.1 + 0.2",
        "1 / 3 * 3",
        "((2.5))",
        "-1 / 0",
        "2 * (3 + 4) * -5",
    ];
    for src in corpus {
        let e = Parser::new(src).parse().unwrap();
        assert_eq!(evaluate(src).to_bits(), tree(&e).to_bits(), "{}", src);
    }
}

#[test]
fn compiled_code_is_post_order() {
    let chunk = compile_to_chunk("1 - (2 + 3) * -4").unwrap();
    assert_eq!(
        chunk.code,
        vec![
            Opcode::Constant("1".to_string()),
            Opcode::Constant("2".to_string()),
            Opcode::Constant("3".to_string()),
            Opcode::Add,
            Opcode::Constant("4".to_string()),
            Opcode::Negate,
            Opcode::Multiply,
            Opcode::Subtract,
            Opcode::Return,
        ]
    );
}

#[test]
fn unsupported_constructs_fail_to_compile() {
    assert_eq!(compile_to_chunk("!1").unwrap_err(), Error::CompileError);
    assert_eq!(compile_to_chunk("true").unwrap_err(), Error::CompileError);
    assert_eq!(compile_to_chunk("(1 + 2").unwrap_err(), Error::CompileError);
}

#[test]
fn failed_compile_leaves_chunk_alone() {
    let mut c = Compiler::from_source("1 + nil");
    assert_eq!(c.compile(), Err(Error::CompileError));
    assert!(c.chunk.code.is_empty());
    let mut c = Compiler::from_source("4");
    assert_eq!(c.compile(), Ok(()));
    assert_eq!(c.chunk.code, vec![Opcode::Constant("4".to_string()), Opcode::Return]);
}

#[test]
fn chunk_appends() {
    let mut chunk = Chunk::new();
    chunk.write_chunk(Opcode::Add);
    chunk.write_chunk(Opcode::Return);
    chunk.add_constant("1.5".to_string());
    assert_eq!(chunk.code, vec![Opcode::Add, Opcode::Return]);
    assert_eq!(chunk.constants, vec!["1.5".to_string()]);
}

#[test]
fn malformed_chunks_are_runtime_errors() {
    let mut vm = VM::new();
    let mut chunk = Chunk::new();
    chunk.write_chunk(Opcode::Constant("1".to_string()));
    assert_eq!(vm.interpret(chunk), Err(Error::RuntimeError));

    let mut chunk = Chunk::new();
    chunk.write_chunk(Opcode::Constant("1".to_string()));
    chunk.write_chunk(Opcode::Add);
    chunk.write_chunk(Opcode::Return);
    assert_eq!(vm.interpret(chunk), Err(Error::RuntimeError));

    let mut chunk = Chunk::new();
    chunk.write_chunk(Opcode::Negate);
    chunk.write_chunk(Opcode::Return);
    assert_eq!(vm.interpret(chunk), Err(Error::RuntimeError));
}

#[test]
fn return_stops_the_run() {
    let mut vm = VM::new();
    let mut chunk = Chunk::new();
    chunk.write_chunk(Opcode::Constant("5".to_string()));
    chunk.write_chunk(Opcode::Return);
    chunk.write_chunk(Opcode::Add);
    assert_eq!(vm.interpret(chunk), Ok(()));
    assert_eq!(vm.stack(), &vec![Value::Number("5".to_string())]);
}

fn read_plan(plan: &[NativeOp]) -> f64 {
    let mut values: Vec<f64> = Vec::new();
    for op in plan {
        let v = match op {
            NativeOp::Const(t) => t.parse::<f64>().unwrap(),
            NativeOp::NegConst(t) => -t.parse::<f64>().unwrap(),
            NativeOp::Add(a, b) => values[*a] + values[*b],
            NativeOp::Sub(a, b) => values[*a] - values[*b],
            NativeOp::Mul(a, b) => values[*a] * values[*b],
            NativeOp::Div(a, b) => values[*a] / values[*b],
        };
        values.push(v);
    }
    *values.last().unwrap()
}

fn native(src: &str) -> f64 {
    let e = Parser::new(src).parse().unwrap();
    read_plan(&lower(&e).unwrap())
}

#[test]
fn lowered_plan_is_straight_line() {
    let e = Parser::new("1 + 2 * -3").parse().unwrap();
    assert_eq!(
        lower(&e).unwrap(),
        vec![
            NativeOp::Const("1".to_string()),
            NativeOp::Const("2".to_string()),
            NativeOp::NegConst("3".to_string()),
            NativeOp::Mul(1, 2),
            NativeOp::Add(0, 3),
        ]
    );
}

#[test]
fn native_negation_takes_literals_only() {
    let e = Parser::new("-(1 + 2)").parse().unwrap();
    assert_eq!(lower(&e), Err(LoweringError::Unsupported));
    let e = Parser::new("!1").parse().unwrap();
    assert_eq!(lower(&e), Err(LoweringError::Unsupported));
    let e = Parser::new("nil").parse().unwrap();
    assert_eq!(lower(&e), Err(LoweringError::Unsupported));
}

#[test]
fn backends_agree_bit_for_bit() {
    let corpus = [
        "1 + 2 * 3",
        "8 - 4 - 2",
        "(1 + 2) * 3",
        "-2 * 3",
        "10 / 4 - 0.5",
        "0.1 + 0.2",
        "1 / 3 * 3",
        "((2.5))",
        "1 / 0",
        "-1 / 0",
        "0 / 0 + 1",
        "2 * (3 + 4) * -5",
        "123456789.123 * 987654321.987",
    ];
    for src in corpus {
        assert_eq!(evaluate(src).to_bits(), native(src).to_bits(), "{}", src);
    }
}

#[test]
fn native_division_semantics() {
    assert_eq!(native("1 / 0"), f64::INFINITY);
    assert_eq!(native("-1 / 0"), f64::NEG_INFINITY);
    assert!(native("0 / 0").is_nan());
    assert_eq!(native("8 - 4 - 2"), 2.0);
    assert_eq!(native("(1 + 2) * 3"), 9.0);
    assert_eq!(native("-2 * 3"), -6.0);
}

#[test]
fn scanner_errors_fail_compilation() {
    assert_eq!(compile_to_chunk("1 + 2 @").unwrap_err(), Error::CompileError);
    assert_eq!(compile_to_chunk("\"text").unwrap_err(), Error::CompileError);
}

#[test]
fn malformed_input_fails_compilation() {
    assert_eq!(compile_to_chunk("1 2").unwrap_err(), Error::CompileError);
    assert_eq!(compile_to_chunk("1 )").unwrap_err(), Error::CompileError);
    assert_eq!(compile_to_chunk("* 2").unwrap_err(), Error::CompileError);
    let mut c = Compiler::from_source("1 2");
    assert_eq!(c.compile(), Err(Error::CompileError));
    assert!(c.chunk.code.is_empty());
    assert_eq!(compile_to_chunk("1 + 2;").unwrap().code.len(), 4);
}
