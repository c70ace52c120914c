use aic::ast::{Expr, Program, Stmt, Type};
use aic::codegen::{get_default_value, map_ast_type, CodeGen};
use aic::error::CodegenError;
use aic::ir::{
    BinaryOp, Block, BlockLabel, Function, Instr, IrType, Operand, Predicate, Slot, Unit, Value,
};
use aic::parser::parse;

fn compile(src: &str) -> Result<Unit<'_>, CodegenError> {
    let program = parse(src).expect("the text is a program");
    let mut generator = CodeGen::new("test");
    generator.compile(&program)?;
    Ok(generator.into_unit())
}

fn error_of(src: &str) -> CodegenError {
    compile(src).expect_err("the program cannot be lowered")
}

fn const_i32(n: i64) -> Value {
    Value { ty: IrType::I32, source: Operand::Const(n) }
}

fn const_i1(n: i64) -> Value {
    Value { ty: IrType::I1, source: Operand::Const(n) }
}

fn at(ty: IrType, block: usize, index: usize) -> Value {
    Value { ty, source: Operand::Inst { block, index } }
}

fn slot(block: usize, index: usize) -> Slot {
    Slot { block, index }
}

fn ret(value: Value) -> Instr {
    Instr::Return { value: Some(value) }
}

fn block(label: BlockLabel, instrs: Vec<Instr>) -> Block {
    Block { label, instrs, pruned: false }
}

fn main_of(blocks: Vec<Block>) -> Function<'static> {
    Function { name: "main", params: vec![], ret: Some(IrType::I32), blocks }
}

#[test]
fn a_new_generator_has_an_empty_unit() {
    let generator = CodeGen::new("module");
    assert_eq!(generator.unit(), &Unit { name: "module", functions: vec![] });
}

#[test]
fn an_empty_program_is_a_main_that_returns_nothing() {
    assert_eq!(
        compile(""),
        Ok(Unit {
            name: "test",
            functions: vec![main_of(vec![block(
                BlockLabel::Entry,
                vec![Instr::Return { value: None }]
            )])],
        })
    );
}

#[test]
fn the_tail_expression_of_the_program_is_returned() {
    assert_eq!(
        compile("42 + 42"),
        Ok(Unit {
            name: "test",
            functions: vec![main_of(vec![block(
                BlockLabel::Entry,
                vec![
                    Instr::Binary { op: BinaryOp::Add, lhs: const_i32(42), rhs: const_i32(42) },
                    ret(at(IrType::I32, 0, 0)),
                ]
            )])],
        })
    );
    assert_eq!(
        compile("0").unwrap().functions[0].blocks[0].instrs,
        vec![ret(const_i32(0))]
    );
}

#[test]
fn an_expression_statement_is_evaluated_and_dropped() {
    assert_eq!(
        compile("1 + 2;").unwrap().functions[0].blocks[0].instrs,
        vec![
            Instr::Binary { op: BinaryOp::Add, lhs: const_i32(1), rhs: const_i32(2) },
            Instr::Return { value: None },
        ]
    );
}

#[test]
fn operands_are_evaluated_from_left_to_right() {
    assert_eq!(
        compile("(1 - 2) * (3 / 4)").unwrap().functions[0].blocks[0].instrs,
        vec![
            Instr::Binary { op: BinaryOp::Sub, lhs: const_i32(1), rhs: const_i32(2) },
            Instr::Binary { op: BinaryOp::SDiv, lhs: const_i32(3), rhs: const_i32(4) },
            Instr::Binary {
                op: BinaryOp::Mul,
                lhs: at(IrType::I32, 0, 0),
                rhs: at(IrType::I32, 0, 1),
            },
            ret(at(IrType::I32, 0, 2)),
        ]
    );
}

#[test]
fn comparisons_yield_a_single_bit() {
    let predicates = [
        ("==", Predicate::Eq),
        ("!=", Predicate::Ne),
        ("<", Predicate::Slt),
        ("<=", Predicate::Sle),
        (">", Predicate::Sgt),
        (">=", Predicate::Sge),
    ];
    for (text, pred) in predicates {
        let src = format!("1 {} 2", text);
        let unit = compile(&src).unwrap();
        assert_eq!(
            unit.functions[0].blocks[0].instrs,
            vec![
                Instr::Compare { pred, lhs: const_i32(1), rhs: const_i32(2) },
                ret(at(IrType::I1, 0, 0)),
            ]
        );
    }
}

#[test]
fn logical_operators_evaluate_both_sides() {
    assert_eq!(
        compile("true && 1 < 2 || false").unwrap().functions[0].blocks[0].instrs,
        vec![
            Instr::Compare { pred: Predicate::Slt, lhs: const_i32(1), rhs: const_i32(2) },
            Instr::Binary { op: BinaryOp::And, lhs: const_i1(1), rhs: at(IrType::I1, 0, 0) },
            Instr::Binary { op: BinaryOp::Or, lhs: at(IrType::I1, 0, 1), rhs: const_i1(0) },
            ret(at(IrType::I1, 0, 2)),
        ]
    );
}

#[test]
fn negation_subtracts_from_zero_and_not_complements() {
    assert_eq!(
        compile("-(1)").unwrap().functions[0].blocks[0].instrs,
        vec![
            Instr::Binary { op: BinaryOp::Sub, lhs: const_i32(0), rhs: const_i32(1) },
            ret(at(IrType::I32, 0, 0)),
        ]
    );
    assert_eq!(
        compile("!true").unwrap().functions[0].blocks[0].instrs,
        vec![Instr::Not { operand: const_i1(1) }, ret(at(IrType::I1, 0, 0))]
    );
    assert_eq!(
        compile("-true").unwrap().functions[0].blocks[0].instrs,
        vec![
            Instr::Binary { op: BinaryOp::Sub, lhs: const_i1(0), rhs: const_i1(1) },
            ret(at(IrType::I1, 0, 0)),
        ]
    );
}

#[test]
fn variables_live_in_slots() {
    assert_eq!(
        compile("let a: i32 = 10; var b: i32 = 20; a + b").unwrap().functions[0].blocks[0].instrs,
        vec![
            Instr::Alloca { ty: IrType::I32 },
            Instr::Store { slot: slot(0, 0), value: const_i32(10) },
            Instr::Alloca { ty: IrType::I32 },
            Instr::Store { slot: slot(0, 2), value: const_i32(20) },
            Instr::Load { ty: IrType::I32, slot: slot(0, 0) },
            Instr::Load { ty: IrType::I32, slot: slot(0, 2) },
            Instr::Binary {
                op: BinaryOp::Add,
                lhs: at(IrType::I32, 0, 4),
                rhs: at(IrType::I32, 0, 5),
            },
            ret(at(IrType::I32, 0, 6)),
        ]
    );
}

#[test]
fn a_var_without_initializer_starts_at_zero() {
    assert_eq!(
        compile("var a: i64; a").unwrap().functions[0].blocks[0].instrs,
        vec![
            Instr::Alloca { ty: IrType::I64 },
            Instr::Store {
                slot: slot(0, 0),
                value: Value { ty: IrType::I64, source: Operand::Const(0) },
            },
            Instr::Load { ty: IrType::I64, slot: slot(0, 0) },
            ret(at(IrType::I64, 0, 2)),
        ]
    );
}

#[test]
fn an_assignment_stores_into_the_slot_of_its_target() {
    assert_eq!(
        compile("var x: i32 = 10; x = 5; x + 10").unwrap().functions[0].blocks[0].instrs,
        vec![
            Instr::Alloca { ty: IrType::I32 },
            Instr::Store { slot: slot(0, 0), value: const_i32(10) },
            Instr::Store { slot: slot(0, 0), value: const_i32(5) },
            Instr::Load { ty: IrType::I32, slot: slot(0, 0) },
            Instr::Binary { op: BinaryOp::Add, lhs: at(IrType::I32, 0, 3), rhs: const_i32(10) },
            ret(at(IrType::I32, 0, 4)),
        ]
    );
}

#[test]
fn assigning_to_a_let_fails_and_to_a_var_succeeds() {
    assert_eq!(error_of("let a = 1; a = 2;"), CodegenError::ImmutableAssignment);
    assert_eq!(error_of("let a: i32 = 1; a = 2; a"), CodegenError::ImmutableAssignment);
    assert!(compile("var a = 1; a = 2;").is_ok());
    assert!(compile("var a: i32; a = 2; a = a + 1; a").is_ok());
    // the target is looked at before the value is
    assert_eq!(error_of("let a = 1; a = b;"), CodegenError::ImmutableAssignment);
    assert_eq!(error_of("let a = 1; a = true;"), CodegenError::ImmutableAssignment);
    // a parameter is immutable
    assert_eq!(
        error_of("fn f(a: i32) -> i32 { a = 1; a }"),
        CodegenError::ImmutableAssignment
    );
}

#[test]
fn a_variable_of_a_branch_is_out_of_sight_after_it() {
    assert_eq!(error_of("if true { var x: i32 = 1; } x"), CodegenError::UnboundName);
    assert_eq!(error_of("if true { } else { let y = 1; } y"), CodegenError::UnboundName);
    assert_eq!(error_of("fn f() -> i32 { let z = 1; z } z"), CodegenError::UnboundName);
    assert_eq!(error_of("fn f(p: i32) -> i32 { p } p"), CodegenError::UnboundName);
    // and can be declared again
    assert!(compile("if true { var x: i32 = 1; } var x: i32 = 2; x").is_ok());
}

#[test]
fn shadowing_across_scopes_is_allowed() {
    assert!(compile("let a = 1; if true { let a = true; } a + 1").is_ok());
    assert!(compile("let a = 1; fn f(a: i64) -> i64 { a } a").is_ok());
    assert_eq!(error_of("let a = 1; let a = 2;"), CodegenError::DuplicateBinding);
    assert_eq!(error_of("let a = 1; var a = 2;"), CodegenError::DuplicateBinding);
    assert_eq!(
        error_of("fn f(a: i32, a: i32) -> i32 { 0 }"),
        CodegenError::DuplicateBinding
    );
    // the body of a function is a scope inside that of its parameters
    assert!(compile("fn f(a: i32) -> i32 { let a = 2; a }").is_ok());
}

#[test]
fn unbound_names() {
    assert_eq!(error_of("x"), CodegenError::UnboundName);
    assert_eq!(error_of("x = 1;"), CodegenError::UnboundName);
    assert_eq!(error_of("f()"), CodegenError::UnboundName);
    assert_eq!(error_of("f(); fn f() -> i32 { 0 }"), CodegenError::UnboundName);
    assert_eq!(error_of("let a = a;"), CodegenError::UnboundName);
}

#[test]
fn type_mismatches() {
    assert_eq!(error_of("1 + true"), CodegenError::TypeMismatch);
    assert_eq!(error_of("1 == true"), CodegenError::TypeMismatch);
    assert_eq!(error_of("1 < false"), CodegenError::TypeMismatch);
    assert_eq!(error_of("1 && true"), CodegenError::TypeMismatch);
    assert_eq!(error_of("let a: i64 = 1;"), CodegenError::TypeMismatch);
    assert_eq!(error_of("var a: i64 = 1;"), CodegenError::TypeMismatch);
    assert_eq!(error_of("let a: i32 = true;"), CodegenError::TypeMismatch);
    assert_eq!(error_of("var a = 1; a = true;"), CodegenError::TypeMismatch);
    assert_eq!(error_of("var a: i64; a = 1;"), CodegenError::TypeMismatch);
    assert_eq!(error_of("if 1 { }"), CodegenError::TypeMismatch);
    assert_eq!(error_of("var a: i64; var b: i32; a + b"), CodegenError::TypeMismatch);
}

#[test]
fn unsupported_types() {
    assert_eq!(error_of("let a: void = 1;"), CodegenError::UnsupportedType);
    assert_eq!(error_of("let a: string = 1;"), CodegenError::UnsupportedType);
    assert_eq!(error_of("var a: string;"), CodegenError::UnsupportedType);
    assert_eq!(error_of("var a: void;"), CodegenError::UnsupportedType);
    assert_eq!(error_of("var a: f32;"), CodegenError::UnsupportedType);
    assert_eq!(error_of("var a: f64 = 1;"), CodegenError::UnsupportedType);
    assert_eq!(error_of("fn f(a: f64) -> i32 { 0 }"), CodegenError::UnsupportedType);
    assert_eq!(error_of("fn f(a: void) -> i32 { 0 }"), CodegenError::UnsupportedType);
    assert_eq!(error_of("fn f() -> string { 0 }"), CodegenError::UnsupportedType);
    assert_eq!(error_of("fn f() -> f32 { 0 }"), CodegenError::UnsupportedType);
    // the result of a function that returns nothing is no value
    assert_eq!(error_of("fn f() -> void { } f();"), CodegenError::UnsupportedType);
}

#[test]
fn declarations_that_the_grammar_excludes() {
    let mut generator = CodeGen::new("test");
    let program =
        Program { statements: vec![Stmt::LetDecl { name: "a", ty: Some(Type::I32), value: None }] };
    assert_eq!(generator.compile(&program), Err(CodegenError::MissingInitializer));
    let mut generator = CodeGen::new("test");
    let program = Program { statements: vec![Stmt::VarDecl { name: "a", ty: None, value: None }] };
    assert_eq!(generator.compile(&program), Err(CodegenError::MissingTypeAnnotation));
}

#[test]
fn the_first_error_ends_the_compilation() {
    assert_eq!(error_of("x; 1 + true"), CodegenError::UnboundName);
    assert_eq!(error_of("1 + true; x"), CodegenError::TypeMismatch);
    assert_eq!(error_of("(1 + true) + x"), CodegenError::TypeMismatch);
    assert_eq!(error_of("x + (1 + true)"), CodegenError::UnboundName);
    assert_eq!(error_of("f(x, 1 + true)"), CodegenError::UnboundName);
    assert_eq!(error_of("fn f() -> i32 { 0 } f(1 + true, x)"), CodegenError::TypeMismatch);
}

#[test]
fn a_conditional_in_tail_position_whose_branches_return_has_no_continuation() {
    assert_eq!(
        compile("if true { 1 } else { 0 }"),
        Ok(Unit {
            name: "test",
            functions: vec![main_of(vec![
                block(
                    BlockLabel::Entry,
                    vec![Instr::Branch { cond: const_i1(1), then_target: 1, else_target: 2 }]
                ),
                block(BlockLabel::Then, vec![ret(const_i32(1))]),
                block(BlockLabel::Else, vec![ret(const_i32(0))]),
                Block { label: BlockLabel::IfCont, instrs: vec![], pruned: true },
            ])],
        })
    );
}

#[test]
fn a_conditional_without_else_branches_to_its_continuation() {
    assert_eq!(
        compile("var x = 1; if x < 2 { x = 2; } x"),
        Ok(Unit {
            name: "test",
            functions: vec![main_of(vec![
                block(
                    BlockLabel::Entry,
                    vec![
                        Instr::Alloca { ty: IrType::I32 },
                        Instr::Store { slot: slot(0, 0), value: const_i32(1) },
                        Instr::Load { ty: IrType::I32, slot: slot(0, 0) },
                        Instr::Compare {
                            pred: Predicate::Slt,
                            lhs: at(IrType::I32, 0, 2),
                            rhs: const_i32(2),
                        },
                        Instr::Branch { cond: at(IrType::I1, 0, 3), then_target: 1, else_target: 2 },
                    ]
                ),
                block(
                    BlockLabel::Then,
                    vec![
                        Instr::Store { slot: slot(0, 0), value: const_i32(2) },
                        Instr::Jump { target: 2 },
                    ]
                ),
                block(
                    BlockLabel::IfCont,
                    vec![Instr::Load { ty: IrType::I32, slot: slot(0, 0) }, ret(at(IrType::I32, 2, 0))]
                ),
            ])],
        })
    );
}

#[test]
fn a_continuation_that_a_branch_falls_through_to_is_kept() {
    // in tail position, but the second branch does not return
    let unit = compile("if true { return 1; } else { 2; }").unwrap();
    let blocks = &unit.functions[0].blocks;
    assert_eq!(blocks.len(), 4);
    assert_eq!(blocks[1].instrs, vec![ret(const_i32(1))]);
    assert_eq!(blocks[2].instrs, vec![Instr::Jump { target: 3 }]);
    assert!(!blocks[3].pruned);
    assert_eq!(blocks[3].instrs, vec![Instr::Return { value: None }]);
    // in tail position, without an else branch
    let unit = compile("if true { 1 }").unwrap();
    let blocks = &unit.functions[0].blocks;
    assert_eq!(
        blocks[0].instrs,
        vec![Instr::Branch { cond: const_i1(1), then_target: 1, else_target: 2 }]
    );
    assert_eq!(blocks[1].instrs, vec![ret(const_i32(1))]);
    assert!(!blocks[2].pruned);
    assert_eq!(blocks[2].instrs, vec![Instr::Return { value: None }]);
    // not in tail position: both branches return, the continuation stays
    let unit = compile("if true { return 1; } else { return 2; } 3").unwrap();
    let blocks = &unit.functions[0].blocks;
    assert!(!blocks[3].pruned);
    assert_eq!(blocks[3].instrs, vec![ret(const_i32(3))]);
}

#[test]
fn a_bare_expression_that_is_not_in_tail_position_is_dropped() {
    let unit = compile("if false { 1 } else if false { 2 } 3").unwrap();
    let blocks = &unit.functions[0].blocks;
    // entry, then, else, continuation; in the else block: then, continuation
    assert_eq!(blocks.len(), 6);
    assert_eq!(
        blocks[0].instrs,
        vec![Instr::Branch { cond: const_i1(0), then_target: 1, else_target: 2 }]
    );
    assert_eq!(blocks[1].instrs, vec![Instr::Jump { target: 3 }]);
    assert_eq!(
        blocks[2].instrs,
        vec![Instr::Branch { cond: const_i1(0), then_target: 4, else_target: 5 }]
    );
    assert_eq!(blocks[4].instrs, vec![Instr::Jump { target: 5 }]);
    assert_eq!(blocks[5].instrs, vec![Instr::Jump { target: 3 }]);
    assert_eq!(blocks[3].instrs, vec![ret(const_i32(3))]);
    assert!(blocks.iter().all(|b| !b.pruned));
}

#[test]
fn nested_conditionals_in_tail_position_prune_every_continuation() {
    let unit = compile("if false { 1 } else if true { 2 } else { 3 }").unwrap();
    let blocks = &unit.functions[0].blocks;
    assert_eq!(blocks.len(), 7);
    let labels: Vec<BlockLabel> = blocks.iter().map(|b| b.label).collect();
    assert_eq!(
        labels,
        vec![
            BlockLabel::Entry,
            BlockLabel::Then,
            BlockLabel::Else,
            BlockLabel::IfCont,
            BlockLabel::Then,
            BlockLabel::Else,
            BlockLabel::IfCont,
        ]
    );
    let pruned: Vec<bool> = blocks.iter().map(|b| b.pruned).collect();
    assert_eq!(pruned, vec![false, false, false, true, false, false, true]);
    assert_eq!(blocks[1].instrs, vec![ret(const_i32(1))]);
    assert_eq!(
        blocks[2].instrs,
        vec![Instr::Branch { cond: const_i1(1), then_target: 4, else_target: 5 }]
    );
    assert_eq!(blocks[4].instrs, vec![ret(const_i32(2))]);
    assert_eq!(blocks[5].instrs, vec![ret(const_i32(3))]);
    assert!(blocks[3].instrs.is_empty());
    assert!(blocks[6].instrs.is_empty());
}

#[test]
fn a_function_returns_its_tail_value() {
    let unit = compile("fn seven() -> i32 { 7 } seven()").unwrap();
    assert_eq!(
        unit.functions,
        vec![
            main_of(vec![block(
                BlockLabel::Entry,
                vec![Instr::Call { callee: 1, args: vec![] }, ret(at(IrType::I32, 0, 0))]
            )]),
            Function {
                name: "seven",
                params: vec![],
                ret: Some(IrType::I32),
                blocks: vec![block(BlockLabel::Entry, vec![ret(const_i32(7))])],
            },
        ]
    );
}

#[test]
fn a_function_without_tail_value_returns_nothing() {
    let unit = compile("fn nothing() -> void { } fn one() -> void { 1; } fn early() -> i32 { return 1; }")
        .unwrap();
    assert_eq!(unit.functions[1].ret, None);
    assert_eq!(unit.functions[1].blocks[0].instrs, vec![Instr::Return { value: None }]);
    assert_eq!(unit.functions[2].blocks[0].instrs, vec![Instr::Return { value: None }]);
    assert_eq!(unit.functions[3].blocks[0].instrs, vec![ret(const_i32(1))]);
    assert_eq!(unit.functions[0].blocks[0].instrs, vec![Instr::Return { value: None }]);
}

#[test]
fn parameters_are_stored_in_slots() {
    let unit = compile("fn add(a: i32, b: i64) -> i32 { a } add(1, 2)").unwrap();
    assert_eq!(
        unit.functions[1],
        Function {
            name: "add",
            params: vec![IrType::I32, IrType::I64],
            ret: Some(IrType::I32),
            blocks: vec![block(
                BlockLabel::Entry,
                vec![
                    Instr::Alloca { ty: IrType::I32 },
                    Instr::Store {
                        slot: slot(0, 0),
                        value: Value { ty: IrType::I32, source: Operand::Param(0) },
                    },
                    Instr::Alloca { ty: IrType::I64 },
                    Instr::Store {
                        slot: slot(0, 2),
                        value: Value { ty: IrType::I64, source: Operand::Param(1) },
                    },
                    Instr::Load { ty: IrType::I32, slot: slot(0, 0) },
                    ret(at(IrType::I32, 0, 4)),
                ]
            )],
        }
    );
    // the arguments are not held against the parameters
    assert_eq!(
        unit.functions[0].blocks[0].instrs,
        vec![
            Instr::Call { callee: 1, args: vec![const_i32(1), const_i32(2)] },
            ret(at(IrType::I32, 0, 0)),
        ]
    );
}

#[test]
fn lowering_goes_on_where_it_stood_after_a_function() {
    let unit = compile("let a = 1; fn f() -> i32 { 2 } a").unwrap();
    assert_eq!(
        unit.functions[0].blocks[0].instrs,
        vec![
            Instr::Alloca { ty: IrType::I32 },
            Instr::Store { slot: slot(0, 0), value: const_i32(1) },
            Instr::Load { ty: IrType::I32, slot: slot(0, 0) },
            ret(at(IrType::I32, 0, 2)),
        ]
    );
    assert_eq!(unit.functions[1].blocks[0].instrs, vec![ret(const_i32(2))]);
}

#[test]
fn a_function_can_call_itself_and_the_first_of_a_name_is_called() {
    let unit = compile("fn f(n: i32) -> i32 { f(n) } fn f() -> i32 { 0 } f(1)").unwrap();
    assert_eq!(unit.functions.len(), 3);
    assert_eq!(
        unit.functions[1].blocks[0].instrs[3],
        Instr::Call { callee: 1, args: vec![at(IrType::I32, 0, 2)] }
    );
    assert_eq!(
        unit.functions[0].blocks[0].instrs[0],
        Instr::Call { callee: 1, args: vec![const_i32(1)] }
    );
    // the function of the program is the first that is called main
    let unit = compile("main()").unwrap();
    assert_eq!(unit.functions[0].blocks[0].instrs[0], Instr::Call { callee: 0, args: vec![] });
}

#[test]
fn code_behind_a_return_is_still_emitted() {
    assert_eq!(
        compile("return 1; 2").unwrap().functions[0].blocks[0].instrs,
        vec![ret(const_i32(1)), ret(const_i32(2))]
    );
}

#[test]
fn compiling_twice_adds_a_second_main() {
    let first = parse("1").unwrap();
    let second = parse("2").unwrap();
    let mut generator = CodeGen::new("test");
    assert_eq!(generator.compile(&first), Ok(()));
    assert_eq!(generator.compile(&second), Ok(()));
    let unit = generator.into_unit();
    assert_eq!(unit.functions.len(), 2);
    assert_eq!(unit.functions[0].blocks[0].instrs, vec![ret(const_i32(1))]);
    assert_eq!(unit.functions[1].name, "main");
    assert_eq!(unit.functions[1].blocks[0].instrs, vec![ret(const_i32(2))]);
}

#[test]
fn the_steps_of_lowering_can_be_taken_one_by_one() {
    let mut generator = CodeGen::new("test");
    assert_eq!(generator.compile(&Program { statements: vec![] }), Ok(()));
    assert_eq!(generator.gen_expr(&Expr::IntLit(5)), Ok(const_i32(5)));
    assert_eq!(generator.gen_expr(&Expr::BoolLit(false)), Ok(const_i1(0)));
    assert_eq!(generator.gen_expr(&Expr::VarRef { name: "x" }), Err(CodegenError::UnboundName));
    assert_eq!(
        generator.gen_stmt(
            &Stmt::VarDecl { name: "x", ty: None, value: Some(Expr::IntLit(1)) },
            false
        ),
        Ok(())
    );
    assert_eq!(generator.gen_expr(&Expr::VarRef { name: "x" }), Ok(at(IrType::I32, 0, 3)));
    assert_eq!(
        generator.gen_block(
            &vec![Stmt::LetDecl { name: "y", ty: None, value: Some(Expr::BoolLit(true)) }],
            false
        ),
        Ok(())
    );
    assert_eq!(generator.gen_expr(&Expr::VarRef { name: "y" }), Err(CodegenError::UnboundName));
    let program = Program { statements: vec![Stmt::Expr { expr: Box::new(Expr::IntLit(9)) }] };
    assert_eq!(generator.gen_program(&program), Ok(()));
    assert_eq!(
        generator.unit().functions[0].blocks[0].instrs,
        vec![
            Instr::Return { value: None },
            Instr::Alloca { ty: IrType::I32 },
            Instr::Store { slot: slot(0, 1), value: const_i32(1) },
            Instr::Load { ty: IrType::I32, slot: slot(0, 1) },
            Instr::Alloca { ty: IrType::I1 },
            Instr::Store { slot: slot(0, 4), value: const_i1(1) },
            ret(const_i32(9)),
        ]
    );
}

#[test]
fn the_types_of_the_language_and_of_the_unit() {
    assert_eq!(map_ast_type(Type::I32), Ok(IrType::I32));
    assert_eq!(map_ast_type(Type::I64), Ok(IrType::I64));
    assert_eq!(map_ast_type(Type::F32), Err(CodegenError::UnsupportedType));
    assert_eq!(map_ast_type(Type::F64), Err(CodegenError::UnsupportedType));
    assert_eq!(map_ast_type(Type::Void), Err(CodegenError::UnsupportedType));
    assert_eq!(map_ast_type(Type::String), Err(CodegenError::UnsupportedType));
    assert_eq!(get_default_value(Type::I32), Ok(const_i32(0)));
    assert_eq!(
        get_default_value(Type::I64),
        Ok(Value { ty: IrType::I64, source: Operand::Const(0) })
    );
    assert_eq!(get_default_value(Type::Void), Err(CodegenError::UnsupportedType));
    assert_eq!(get_default_value(Type::String), Err(CodegenError::UnsupportedType));
}

fn assert_sound(unit: &Unit) {
    for function in &unit.functions {
        let live = |target: usize| {
            target < function.blocks.len() && !function.blocks[target].pruned
        };
        for block in &function.blocks {
            assert!(
                block.pruned || block.instrs.last().map_or(false, |instr| instr.is_terminator()),
                "a block of {} is left open",
                function.name
            );
            for instr in &block.instrs {
                match instr {
                    Instr::Jump { target } => assert!(live(*target)),
                    Instr::Branch { then_target, else_target, .. } => {
                        assert!(live(*then_target));
                        assert!(live(*else_target));
                    }
                    _ => {}
                }
            }
        }
    }
}

#[test]
fn every_block_ends_and_every_jump_lands() {
    let programs = [
        "",
        "1",
        "1;",
        "return 1; 2",
        "if true { 1 } else { 0 }",
        "if true { 1 }",
        "if true { return 1; } else { 2; }",
        "if true { 1; } else { return 2; }",
        "if true { return 1; } else { return 2; } 3",
        "if false { 1 } else if true { 2 } else { 3 }",
        "if false { 1 } else if false { 2 } 3",
        "if true { if false { 1 } else { 2 } } else { if true { 3 } else { 4 } }",
        "if true { if false { return 1; } 2 } else { if true { 3 } 4 }",
        "var x = 0; if x < 1 { if x < 2 { x = 1; } else { x = 2; } x = 3; } x",
        "fn f(n: i32) -> i32 { if n <= 1 { 1 } else { n * f(n - 1) } } f(5)",
        "fn f() -> void { if true { return; } } fn g() -> i32 { if true { 1 } else { 2 } } 0",
        "fn f() -> i32 { fn g() -> i32 { if true { 1 } else { 2 } } if false { g() } else { 3 } }",
        "if true { fn f() -> i32 { 1 } f() } else { 0 }",
    ];
    for src in programs {
        assert_sound(&compile(src).expect("the program can be lowered"));
    }
}
