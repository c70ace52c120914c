use aic::codegen::CodeGen;
use aic::ir::{BinaryOp, Instr, IrType, Operand, Predicate, Unit, Value};
use aic::parser::parse;
use std::collections::HashMap;

/// What running a compiled program gave.
pub struct RunResult {
    /// The value that `main` returned, as the 32-bit integer that it is
    pub code: i32,
}

fn wrap(ty: IrType, value: i64) -> i64 {
    match ty {
        IrType::I1 => -(value & 1),
        IrType::I32 => value as i32 as i64,
        IrType::I64 => value,
    }
}

/// Runs function `f` of the unit on `args` and gives what it returns.
fn run_function(unit: &Unit, f: usize, args: &[i64], depth: usize) -> Option<i64> {
    assert!(depth < 64, "the program recurses too deep");
    let function = &unit.functions[f];
    let mut results: HashMap<(usize, usize), i64> = HashMap::new();
    let mut slots: HashMap<(usize, usize), i64> = HashMap::new();
    let mut block = 0;
    let mut index = 0;
    let mut steps = 0;
    loop {
        steps += 1;
        assert!(steps < 100_000, "the program does not end");
        assert!(!function.blocks[block].pruned, "control reached a pruned block");
        let instr = function.blocks[block]
            .instrs
            .get(index)
            .expect("control ran off the end of a block");
        let value_of = |v: &Value, results: &HashMap<(usize, usize), i64>| -> i64 {
            match v.source {
                Operand::Const(n) => wrap(v.ty, n),
                Operand::Param(i) => wrap(v.ty, args[i]),
                Operand::Inst { block, index } => results[&(block, index)],
            }
        };
        match instr {
            Instr::Alloca { .. } => {}
            Instr::Store { slot, value } => {
                let v = value_of(value, &results);
                slots.insert((slot.block, slot.index), v);
            }
            Instr::Load { ty, slot } => {
                let v = slots[&(slot.block, slot.index)];
                results.insert((block, index), wrap(*ty, v));
            }
            Instr::Binary { op, lhs, rhs } => {
                let a = value_of(lhs, &results);
                let b = value_of(rhs, &results);
                let v = match op {
                    BinaryOp::Add => a.wrapping_add(b),
                    BinaryOp::Sub => a.wrapping_sub(b),
                    BinaryOp::Mul => a.wrapping_mul(b),
                    BinaryOp::SDiv => a.wrapping_div(b),
                    BinaryOp::And => a & b,
                    BinaryOp::Or => a | b,
                };
                results.insert((block, index), wrap(lhs.ty, v));
            }
            Instr::Compare { pred, lhs, rhs } => {
                let a = value_of(lhs, &results);
                let b = value_of(rhs, &results);
                let v = match pred {
                    Predicate::Eq => a == b,
                    Predicate::Ne => a != b,
                    Predicate::Slt => a < b,
                    Predicate::Sle => a <= b,
                    Predicate::Sgt => a > b,
                    Predicate::Sge => a >= b,
                };
                results.insert((block, index), wrap(IrType::I1, v as i64));
            }
            Instr::Not { operand } => {
                let a = value_of(operand, &results);
                results.insert((block, index), wrap(operand.ty, !a));
            }
            Instr::Call { callee, args: call_args } => {
                let values: Vec<i64> = call_args.iter().map(|a| value_of(a, &results)).collect();
                let v = run_function(unit, *callee, &values, depth + 1)
                    .expect("the callee returned nothing");
                results.insert((block, index), v);
            }
            Instr::Return { value } => {
                return value.as_ref().map(|v| value_of(v, &results));
            }
            Instr::Jump { target } => {
                block = *target;
                index = 0;
                continue;
            }
            Instr::Branch { cond, then_target, else_target } => {
                block = if value_of(cond, &results) != 0 { *then_target } else { *else_target };
                index = 0;
                continue;
            }
        }
        index += 1;
    }
}

/// Parses, compiles and runs a program, and gives what its `main` returns.
fn compile_and_run_aic(src: &str) -> RunResult {
    let program = parse(src).expect("the text is a program");
    let mut generator = CodeGen::new("test");
    generator.compile(&program).expect("the program can be lowered");
    let unit = generator.into_unit();
    let main = unit.find_function("main").expect("the unit has a main");
    let value = run_function(&unit, main, &[], 0).expect("main returns a value");
    RunResult { code: value as i32 }
}

#[test]
fn test_simple_aic() {
    let result = compile_and_run_aic("42 + 42");
    assert_eq!(result.code, 84, "exit code was {}, expected 84", result.code);
}

#[test]
fn test_zero_aic() {
    let result = compile_and_run_aic("0");
    assert_eq!(result.code, 0, "exit code was {}, expected 0", result.code);
}

#[test]
fn test_negative_aic() {
    let result = compile_and_run_aic("-(1)");
    // What the process exits with is what the platform makes of a negative
    // value returned from main.
    assert_eq!(result.code, -1, "main returned {}, expected -1", result.code);
}

#[test]
fn test_function_call_aic() {
    let actual = compile_and_run_aic("fn zero() -> i32 {\n    0\n}\n\nzero()\n").code;
    let expected = 0;
    assert_eq!(actual, expected, "exit code was {actual}, expected {expected}");
}

#[test]
fn test_let_and_var_aic() {
    let actual = compile_and_run_aic("let a: i32 = 10;\nvar b: i32 = 20;\na + b\n").code;
    let expected = 30;
    assert_eq!(actual, expected, "exit code was {actual}, expected {expected}");
}

#[test]
fn test_if_statement_aic() {
    let actual = compile_and_run_aic("if true {\n    1\n} else {\n    0\n}\n").code;
    let expected = 1;
    assert_eq!(actual, expected, "exit code was {actual}, expected {expected}");
}

#[test]
fn test_if_statement_else_aic() {
    let actual = compile_and_run_aic("if false {\n    0\n} else {\n    1\n}\n").code;
    let expected = 1;
    assert_eq!(actual, expected, "exit code was {actual}, expected {expected}");
}

#[test]
fn test_if_statement_nested_aic() {
    let actual = compile_and_run_aic(
        "if true {\n    if false {\n        0\n    } else {\n        1\n    }\n} else {\n    2\n}\n",
    )
    .code;
    let expected = 1;
    assert_eq!(actual, expected, "exit code was {actual}, expected {expected}");
}

#[test]
fn test_if_statement_else_if_chain_aic() {
    let actual = compile_and_run_aic(
        "if false {\n    1\n} else if true {\n    2\n} else if true {\n    3\n} else {\n    4\n}\n",
    )
    .code;
    let expected = 2;
    assert_eq!(actual, expected, "exit code was {actual}, expected {expected}");
}

#[test]
fn test_if_statement_else_if_no_else_aic() {
    let actual = compile_and_run_aic(
        "if false {\n    return 1;\n} else if false {\n    return 2;\n} else if false {\n    return 4;\n}\n3\n",
    )
    .code;
    let expected = 3;
    assert_eq!(actual, expected, "exit code was {actual}, expected {expected}");
}

#[test]
fn test_boolean_and_comparison_aic() {
    let actual = compile_and_run_aic(
        "let a: i32 = 3;\nlet b: i32 = 4;\nif a < b && !(a == b) || false {\n    42\n} else {\n    0\n}\n",
    )
    .code;
    let expected = 42;
    assert_eq!(actual, expected, "exit code was {actual}, expected {expected}");
}

#[test]
fn test_comments_aic() {
    let actual = compile_and_run_aic(
        "// a program with comments\nlet a: i32 = 10; // ten\n// var c: i32 = 1;\nvar b: i32 = 20;\na + b // thirty\n",
    )
    .code;
    let expected = 30;
    assert_eq!(actual, expected, "exit code was {actual}, expected {expected}");
}

#[test]
fn test_mutable_var_aic() {
    let actual = compile_and_run_aic("var x: i32 = 10;\nx = 5;\nx + 10\n").code;
    let expected = 15;
    assert_eq!(actual, expected, "exit code was {actual}, expected {expected}");
}

#[test]
fn the_condition_decides_which_branch_runs() {
    assert_eq!(compile_and_run_aic("if true { 1 } else { 0 }").code, 1);
    assert_eq!(compile_and_run_aic("if false { 1 } else { 0 }").code, 0);
    assert_eq!(compile_and_run_aic("if false { 1 } else if false { 2 } 3").code, 3);
    assert_eq!(compile_and_run_aic("if true { return 1; } else if false { return 2; } 3").code, 1);
    assert_eq!(compile_and_run_aic("if false { return 1; } else if true { return 2; } 3").code, 2);
}

#[test]
fn a_function_computes_with_its_arguments() {
    let src = "fn fact(n: i32) -> i32 {\n    if n <= 1 { 1 } else { n * fact(n - 1) }\n}\nfact(5)";
    assert_eq!(compile_and_run_aic(src).code, 120);
    let src = "fn max(a: i32, b: i32) -> i32 { if a >= b { return a; } b } max(3, 9) - max(4, 2)";
    assert_eq!(compile_and_run_aic(src).code, 5);
}

#[test]
fn arithmetic_follows_precedence() {
    assert_eq!(compile_and_run_aic("2 + 3 * 4").code, 14);
    assert_eq!(compile_and_run_aic("-2 * 3").code, -6);
    assert_eq!(compile_and_run_aic("(2 + 3) * 4").code, 20);
    assert_eq!(compile_and_run_aic("20 / 3 / 2").code, 3);
    assert_eq!(compile_and_run_aic("10 - 4 - 3").code, 3);
    assert_eq!(compile_and_run_aic("0 - 7 / 2").code, -3);
}

#[test]
fn a_variable_keeps_what_was_stored_last() {
    let src = "var x = 1; if x == 1 { x = x + 10; } else { x = 0; } let y = x * 2; y + x";
    assert_eq!(compile_and_run_aic(src).code, 33);
    let src = "var x = 1; if true { var x = 5; x = 6; } x";
    assert_eq!(compile_and_run_aic(src).code, 1);
}
