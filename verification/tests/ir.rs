use aic::ir::{
    str_eq, BinaryOp, Block, BlockLabel, Function, Instr, IrType, Operand, Unit, Value,
};

fn one() -> Value {
    Value { ty: IrType::I32, source: Operand::Const(1) }
}

#[test]
fn a_unit_is_built_function_by_function_and_block_by_block() {
    let mut unit = Unit::new("u");
    assert_eq!(unit, Unit { name: "u", functions: vec![] });
    assert_eq!(unit.add_function("f", vec![IrType::I32], None), 0);
    assert_eq!(unit.add_function("g", vec![], Some(IrType::I64)), 1);
    assert_eq!(unit.append_block(1, BlockLabel::Entry), 0);
    assert_eq!(unit.append_block(1, BlockLabel::Then), 1);
    assert_eq!(unit.append_block(0, BlockLabel::Entry), 0);
    assert_eq!(unit.emit(1, 1, Instr::Alloca { ty: IrType::I32 }), 0);
    assert_eq!(unit.emit(1, 1, Instr::Jump { target: 0 }), 1);
    assert_eq!(unit.emit(1, 0, Instr::Return { value: Some(one()) }), 0);
    assert_eq!(
        unit,
        Unit {
            name: "u",
            functions: vec![
                Function {
                    name: "f",
                    params: vec![IrType::I32],
                    ret: None,
                    blocks: vec![Block { label: BlockLabel::Entry, instrs: vec![], pruned: false }],
                },
                Function {
                    name: "g",
                    params: vec![],
                    ret: Some(IrType::I64),
                    blocks: vec![
                        Block {
                            label: BlockLabel::Entry,
                            instrs: vec![Instr::Return { value: Some(one()) }],
                            pruned: false,
                        },
                        Block {
                            label: BlockLabel::Then,
                            instrs: vec![Instr::Alloca { ty: IrType::I32 }, Instr::Jump { target: 0 }],
                            pruned: false,
                        },
                    ],
                },
            ],
        }
    );
    assert_eq!(unit.return_type(0), None);
    assert_eq!(unit.return_type(1), Some(IrType::I64));
}

#[test]
fn a_block_is_terminated_by_its_last_instruction_or_by_pruning() {
    let mut unit = Unit::new("u");
    unit.add_function("f", vec![], None);
    unit.append_block(0, BlockLabel::Entry);
    unit.append_block(0, BlockLabel::IfCont);
    assert!(!unit.is_terminated(0, 0));
    unit.emit(0, 0, Instr::Return { value: None });
    assert!(unit.is_terminated(0, 0));
    unit.emit(0, 0, Instr::Binary { op: BinaryOp::Add, lhs: one(), rhs: one() });
    assert!(!unit.is_terminated(0, 0));
    unit.emit(0, 0, Instr::Branch { cond: one(), then_target: 0, else_target: 1 });
    assert!(unit.is_terminated(0, 0));
    assert!(!unit.is_terminated(0, 1));
    unit.prune_block(0, 1);
    assert!(unit.is_terminated(0, 1));
    assert!(unit.functions[0].blocks[1].pruned);
    assert!(!unit.functions[0].blocks[0].pruned);
}

#[test]
fn terminators() {
    assert!(Instr::Return { value: None }.is_terminator());
    assert!(Instr::Jump { target: 0 }.is_terminator());
    assert!(Instr::Branch { cond: one(), then_target: 0, else_target: 1 }.is_terminator());
    assert!(!Instr::Alloca { ty: IrType::I1 }.is_terminator());
    assert!(!Instr::Not { operand: one() }.is_terminator());
    assert!(!Instr::Call { callee: 0, args: vec![] }.is_terminator());
}

#[test]
fn the_first_function_of_a_name_is_found() {
    let mut unit = Unit::new("u");
    assert_eq!(unit.find_function("f"), None);
    unit.add_function("f", vec![], None);
    unit.add_function("g", vec![], None);
    unit.add_function("f", vec![], None);
    assert_eq!(unit.find_function("f"), Some(0));
    assert_eq!(unit.find_function("g"), Some(1));
    assert_eq!(unit.find_function("h"), None);
    assert_eq!(unit.find_function(""), None);
}

#[test]
fn strings_are_equal_if_their_characters_are() {
    assert!(str_eq("", ""));
    assert!(str_eq("abc", "abc"));
    assert!(!str_eq("abc", "abd"));
    assert!(!str_eq("abc", "ab"));
    assert!(!str_eq("ab", "abc"));
    assert!(str_eq("\u{e9}t\u{e9}", "\u{e9}t\u{e9}"));
    assert!(!str_eq("\u{e9}", "\u{e8}"));
}
