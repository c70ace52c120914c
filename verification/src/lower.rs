//! What lowering means: the mathematical definition of the code that the
//! generator emits for each expression and statement, and of the state in
//! which it does so.
//!
//! An expression denotes straight-line code, appended to the block under
//! construction, and the value that the code computes. A statement denotes a
//! change of the whole state: the unit, the scopes in sight, and the block
//! under construction.

use crate::ast::{BinOp, ExprView, ParamView, StmtView, Type, UnaryOp};
use crate::error::CodegenError;
use crate::ir::{
    lookup_function, BinaryOp, BlockLabel, BlockView, InstrView, IrType, Operand, Predicate,
    Signature, Slot, UnitView, Value,
};
use crate::scope::{declare, resolve, ScopeView, VariableInfo};
use vstd::prelude::*;

verus! {

/// The type that stands for a type of the language in the unit. Only the
/// integer types have one.
pub open spec fn lower_type(ty: Type) -> Result<IrType, CodegenError> {
    match ty {
        Type::I32 => Ok(IrType::I32),
        Type::I64 => Ok(IrType::I64),
        _ => Err(CodegenError::UnsupportedType),
    }
}

/// The result type that stands for the declared result type of a function:
/// none for `Void`.
pub open spec fn lower_return_type(ty: Type) -> Result<Option<IrType>, CodegenError> {
    match ty {
        Type::Void => Ok(None),
        _ => match lower_type(ty) {
            Ok(t) => Ok(Some(t)),
            Err(e) => Err(e),
        },
    }
}

/// The value that a variable of type `ty` holds when it is declared without
/// an initializer: zero.
pub open spec fn default_value(ty: Type) -> Result<Value, CodegenError> {
    match lower_type(ty) {
        Ok(t) => Ok(Value { ty: t, source: Operand::Const(0) }),
        Err(e) => Err(e),
    }
}

/// The result of the instruction at `index` in block `block`.
pub open spec fn result_at(block: int, index: int, ty: IrType) -> Value {
    Value { ty, source: Operand::Inst { block: block as usize, index: index as usize } }
}

/// The instruction for a binary operation on two values and the type of its
/// result. The operands must be of one type; a comparison yields a single
/// bit, every other operation a value of the operands' type.
pub open spec fn binary_instr(op: BinOp, lhs: Value, rhs: Value) -> Result<
    (InstrView, IrType),
    CodegenError,
> {
    if lhs.ty != rhs.ty {
        Err(CodegenError::TypeMismatch)
    } else {
        Ok(
            match op {
                BinOp::Add => (InstrView::Binary { op: BinaryOp::Add, lhs, rhs }, lhs.ty),
                BinOp::Sub => (InstrView::Binary { op: BinaryOp::Sub, lhs, rhs }, lhs.ty),
                BinOp::Mul => (InstrView::Binary { op: BinaryOp::Mul, lhs, rhs }, lhs.ty),
                BinOp::Div => (InstrView::Binary { op: BinaryOp::SDiv, lhs, rhs }, lhs.ty),
                BinOp::And => (InstrView::Binary { op: BinaryOp::And, lhs, rhs }, lhs.ty),
                BinOp::Or => (InstrView::Binary { op: BinaryOp::Or, lhs, rhs }, lhs.ty),
                BinOp::Equal => (InstrView::Compare { pred: Predicate::Eq, lhs, rhs }, IrType::I1),
                BinOp::NotEqual => (
                    InstrView::Compare { pred: Predicate::Ne, lhs, rhs },
                    IrType::I1,
                ),
                BinOp::LessThan => (
                    InstrView::Compare { pred: Predicate::Slt, lhs, rhs },
                    IrType::I1,
                ),
                BinOp::LessThanOrEqual => (
                    InstrView::Compare { pred: Predicate::Sle, lhs, rhs },
                    IrType::I1,
                ),
                BinOp::GreaterThan => (
                    InstrView::Compare { pred: Predicate::Sgt, lhs, rhs },
                    IrType::I1,
                ),
                BinOp::GreaterThanOrEqual => (
                    InstrView::Compare { pred: Predicate::Sge, lhs, rhs },
                    IrType::I1,
                ),
            },
        )
    }
}

/// The instruction for a unary operation: negation subtracts from the zero
/// of the operand's type, `!` is the bitwise complement.
pub open spec fn unary_instr(op: UnaryOp, operand: Value) -> InstrView {
    match op {
        UnaryOp::Neg => InstrView::Binary {
            op: BinaryOp::Sub,
            lhs: Value { ty: operand.ty, source: Operand::Const(0) },
            rhs: operand,
        },
        UnaryOp::Not => InstrView::Not { operand },
    }
}

/// What the lowering of an expression depends on: the scopes in sight, the
/// functions declared so far, and the block that receives the code.
pub struct ExprCtx {
    pub scopes: Seq<ScopeView>,
    pub sigs: Seq<Signature>,
    pub block: int,
}

/// The code for `e` and the value that it computes, when the code is placed
/// at index `base` of the block.
///
/// Operands are evaluated from left to right and both sides of a logical
/// operator always are. An integer literal is a 32-bit constant, a boolean
/// literal a single bit. A call names the first function of its name; the
/// arguments are not held against the callee's parameters.
pub open spec fn lower_expr(ctx: ExprCtx, base: int, e: ExprView) -> Result<
    (Seq<InstrView>, Value),
    CodegenError,
>
    decreases e, 0nat,
{
    match e {
        ExprView::IntLit(n) => Ok(
            (Seq::empty(), Value { ty: IrType::I32, source: Operand::Const(n) }),
        ),
        ExprView::BoolLit(b) => Ok(
            (
                Seq::empty(),
                Value { ty: IrType::I1, source: Operand::Const(if b { 1i64 } else { 0i64 }) },
            ),
        ),
        ExprView::VarRef { name } => match resolve(ctx.scopes, name) {
            None => Err(CodegenError::UnboundName),
            Some(info) => Ok(
                (
                    seq![InstrView::Load { ty: info.ty, slot: info.slot }],
                    result_at(ctx.block, base, info.ty),
                ),
            ),
        },
        ExprView::UnaryOp { op, expr } => match lower_expr(ctx, base, *expr) {
            Err(err) => Err(err),
            Ok((code, v)) => Ok(
                (code.push(unary_instr(op, v)), result_at(ctx.block, base + code.len(), v.ty)),
            ),
        },
        ExprView::BinOp { lhs, op, rhs } => match lower_expr(ctx, base, *lhs) {
            Err(err) => Err(err),
            Ok((code1, v1)) => match lower_expr(ctx, base + code1.len(), *rhs) {
                Err(err) => Err(err),
                Ok((code2, v2)) => match binary_instr(op, v1, v2) {
                    Err(err) => Err(err),
                    Ok((instr, ty)) => Ok(
                        (
                            (code1 + code2).push(instr),
                            result_at(ctx.block, base + code1.len() + code2.len(), ty),
                        ),
                    ),
                },
            },
        },
        ExprView::FnCall { name, args } => match lookup_function(ctx.sigs, name) {
            None => Err(CodegenError::UnboundName),
            Some(callee) => match lower_args(ctx, base, args, args.len()) {
                Err(err) => Err(err),
                Ok((code, values)) => match ctx.sigs[callee].ret {
                    None => Err(CodegenError::UnsupportedType),
                    Some(ty) => Ok(
                        (
                            code.push(InstrView::Call { callee: callee as usize, args: values }),
                            result_at(ctx.block, base + code.len(), ty),
                        ),
                    ),
                },
            },
        },
    }
}

/// The code for the first `n` of `args`, one after the other, and their
/// values.
pub open spec fn lower_args(ctx: ExprCtx, base: int, args: Seq<ExprView>, n: nat) -> Result<
    (Seq<InstrView>, Seq<Value>),
    CodegenError,
>
    decreases args, n,
{
    if n == 0 || n > args.len() {
        Ok((Seq::empty(), Seq::empty()))
    } else {
        match lower_args(ctx, base, args, (n - 1) as nat) {
            Err(err) => Err(err),
            Ok((code, values)) => match lower_expr(ctx, base + code.len(), args[n - 1]) {
                Err(err) => Err(err),
                Ok((code1, v)) => Ok((code + code1, values.push(v))),
            },
        }
    }
}

/// Whether `actual` is the type that a declaration asks for. A declaration
/// without a type asks for none.
pub open spec fn check_declared(ty: Option<Type>, actual: IrType) -> Result<(), CodegenError> {
    match ty {
        None => Ok(()),
        Some(t) => match lower_type(t) {
            Err(e) => Err(e),
            Ok(declared) => if declared == actual {
                Ok(())
            } else {
                Err(CodegenError::TypeMismatch)
            },
        },
    }
}

/// The types of the parameters of a function, if each has one.
pub open spec fn lower_param_types(params: Seq<ParamView>) -> Result<Seq<IrType>, CodegenError> {
    if forall|i: int| 0 <= i < params.len() ==> lower_type(#[trigger] params[i].ty) is Ok {
        Ok(Seq::new(params.len(), |i: int| lower_type(params[i].ty)->Ok_0))
    } else {
        Err(CodegenError::UnsupportedType)
    }
}

/// The state of the generator: the unit built so far, the scopes in sight,
/// and the block that receives the next instruction.
pub struct GenState {
    pub unit: UnitView,
    pub scopes: Seq<ScopeView>,
    pub cur_fn: int,
    pub cur_block: int,
}

impl GenState {
    /// Whether the generator stands at a block of the unit.
    pub open spec fn positioned(self) -> bool {
        self.unit.has_block(self.cur_fn, self.cur_block)
    }

    /// The block that receives the next instruction.
    pub open spec fn here(self) -> BlockView {
        self.unit.block(self.cur_fn, self.cur_block)
    }

    /// The index that the next instruction gets in its block.
    pub open spec fn next_index(self) -> int {
        self.here().instrs.len() as int
    }

    /// Whether control cannot run off the end of the block under
    /// construction.
    pub open spec fn terminated(self) -> bool {
        self.here().terminated()
    }

    /// What the lowering of an expression depends on.
    pub open spec fn ctx(self) -> ExprCtx {
        ExprCtx { scopes: self.scopes, sigs: self.unit.signatures(), block: self.cur_block }
    }

    /// The state with `code` at the end of the block under construction.
    pub open spec fn emit_all(self, code: Seq<InstrView>) -> GenState {
        GenState { unit: self.unit.emit_all(self.cur_fn, self.cur_block, code), ..self }
    }

    /// The state with `instr` at the end of the block under construction.
    pub open spec fn emit(self, instr: InstrView) -> GenState {
        GenState { unit: self.unit.emit(self.cur_fn, self.cur_block, instr), ..self }
    }

    /// The state with the generator standing at block `b` of function `f`.
    pub open spec fn at(self, f: int, b: int) -> GenState {
        GenState { cur_fn: f, cur_block: b, ..self }
    }

    /// The state after the code for `e` has been emitted, and the value of
    /// `e`.
    pub open spec fn eval(self, e: ExprView) -> Result<(GenState, Value), CodegenError> {
        match lower_expr(self.ctx(), self.next_index(), e) {
            Err(err) => Err(err),
            Ok((code, v)) => Ok((self.emit_all(code), v)),
        }
    }

    /// The state after a variable has been made for `value`: a slot is
    /// allocated, `value` is stored in it, and `name` is bound to the slot in
    /// the innermost scope.
    pub open spec fn bind(self, name: Seq<char>, value: Value, is_mutable: bool) -> Result<
        GenState,
        CodegenError,
    > {
        let slot = Slot { block: self.cur_block as usize, index: self.next_index() as usize };
        let stored = self.emit(InstrView::Alloca { ty: value.ty }).emit(
            InstrView::Store { slot, value },
        );
        match declare(self.scopes, name, VariableInfo { slot, ty: value.ty, is_mutable }) {
            Err(err) => Err(err),
            Ok(scopes) => Ok(GenState { scopes, ..stored }),
        }
    }

    /// The state after the first `n` of `params` have been made variables,
    /// each holding the incoming parameter of its position.
    pub open spec fn bind_params(self, params: Seq<ParamView>, n: nat) -> Result<
        GenState,
        CodegenError,
    >
        decreases n,
    {
        if n == 0 || n > params.len() {
            Ok(self)
        } else {
            match self.bind_params(params, (n - 1) as nat) {
                Err(err) => Err(err),
                Ok(st) => match lower_type(params[n - 1].ty) {
                    Err(err) => Err(err),
                    Ok(ty) => st.bind(
                        params[n - 1].name,
                        Value { ty, source: Operand::Param((n - 1) as usize) },
                        false,
                    ),
                },
            }
        }
    }

    /// The state with a void return at the end of the block under
    /// construction, unless control cannot reach that end.
    pub open spec fn close(self) -> GenState {
        if self.terminated() {
            self
        } else {
            self.emit(InstrView::Return { value: None })
        }
    }

    /// The state with a jump to `target` at the end of the block under
    /// construction, unless control cannot reach that end.
    pub open spec fn fall_through_to(self, target: int) -> GenState {
        if self.terminated() {
            self
        } else {
            self.emit(InstrView::Jump { target: target as usize })
        }
    }

    /// The number of blocks of the function under construction.
    pub open spec fn block_count(self) -> int {
        self.unit.functions[self.cur_fn].blocks.len() as int
    }

    /// The state with the blocks of a conditional at the end of the function
    /// under construction: the block of the `then` branch, the block of the
    /// `else` branch if there is one, and the block where control continues.
    pub open spec fn open_conditional(self, has_else: bool) -> GenState {
        let with_then = self.unit.append_block(self.cur_fn, BlockLabel::Then);
        let with_else = if has_else {
            with_then.append_block(self.cur_fn, BlockLabel::Else)
        } else {
            with_then
        };
        GenState { unit: with_else.append_block(self.cur_fn, BlockLabel::IfCont), ..self }
    }

    /// The state in which the branches of a conditional are lowered: the
    /// blocks of the conditional are made, the condition is evaluated in the
    /// block under construction, and that block branches on its value, which
    /// must be a single bit: to the first of the new blocks if it is set, to
    /// the second if it is not.
    pub open spec fn begin_conditional(self, condition: ExprView, has_else: bool) -> Result<
        GenState,
        CodegenError,
    > {
        match self.open_conditional(has_else).eval(condition) {
            Err(err) => Err(err),
            Ok((st1, c)) => if c.ty != IrType::I1 {
                Err(CodegenError::TypeMismatch)
            } else {
                Ok(
                    st1.emit(
                        InstrView::Branch {
                            cond: c,
                            then_target: self.block_count() as usize,
                            else_target: (self.block_count() + 1) as usize,
                        },
                    ),
                )
            },
        }
    }

    /// The state after a conditional: the generator stands at the block
    /// `merge`, where control continues, and that block is pruned if `prune`
    /// says that control never reaches it.
    pub open spec fn close_conditional(self, merge: int, prune: bool) -> GenState {
        GenState {
            unit: if prune {
                self.unit.prune(self.cur_fn, merge)
            } else {
                self.unit
            },
            cur_block: merge,
            ..self
        }
    }

    /// The state in which the body of a new function is lowered: the unit
    /// has the function and its entry block, the generator stands at that
    /// block, and a scope is open for the parameters.
    pub open spec fn enter_function(
        self,
        name: Seq<char>,
        params: Seq<IrType>,
        ret: Option<IrType>,
    ) -> GenState {
        let f = self.unit.functions.len() as int;
        GenState {
            unit: self.unit.add_function(name, params, ret).append_block(f, BlockLabel::Entry),
            scopes: self.scopes.push(Map::empty()),
            cur_fn: f,
            cur_block: 0,
        }
    }

    /// The state after the body of a function has been lowered: the body
    /// ends in a void return where control can run off its end, the scope of
    /// the parameters is dropped, and the generator stands at block `b` of
    /// function `f` again.
    pub open spec fn leave_function(self, f: int, b: int) -> GenState {
        GenState { scopes: self.scopes.drop_last(), cur_fn: f, cur_block: b, ..self.close() }
    }
}

/// The state after `s` has been lowered. `tail` says whether `s` is in tail
/// position: the last statement of the body of its function, or the last of
/// a branch of a conditional that is in tail position.
///
/// An expression statement is evaluated and its value dropped. A bare
/// expression is evaluated, and its value is returned if the expression is
/// in tail position. A `return` ends the block at once. An assignment
/// resolves its target first, which must be mutable, and then stores a value
/// of the target's type.
pub open spec fn lower_stmt(st: GenState, s: StmtView, tail: bool) -> Result<
    GenState,
    CodegenError,
>
    decreases s, 1nat, 0nat,
{
    match s {
        StmtView::ExprStmt { expr } => match st.eval(expr) {
            Err(err) => Err(err),
            Ok((st1, _)) => Ok(st1),
        },
        StmtView::Expr { expr } => match st.eval(expr) {
            Err(err) => Err(err),
            Ok((st1, v)) => if tail {
                Ok(st1.emit(InstrView::Return { value: Some(v) }))
            } else {
                Ok(st1)
            },
        },
        StmtView::Return { expr } => match expr {
            None => Ok(st.emit(InstrView::Return { value: None })),
            Some(e) => match st.eval(e) {
                Err(err) => Err(err),
                Ok((st1, v)) => Ok(st1.emit(InstrView::Return { value: Some(v) })),
            },
        },
        StmtView::Assign { name, value } => match resolve(st.scopes, name) {
            None => Err(CodegenError::UnboundName),
            Some(info) => if !info.is_mutable {
                Err(CodegenError::ImmutableAssignment)
            } else {
                match st.eval(value) {
                    Err(err) => Err(err),
                    Ok((st1, v)) => if v.ty != info.ty {
                        Err(CodegenError::TypeMismatch)
                    } else {
                        Ok(st1.emit(InstrView::Store { slot: info.slot, value: v }))
                    },
                }
            },
        },
        StmtView::LetDecl { .. } => lower_decl(st, s),
        StmtView::VarDecl { .. } => lower_decl(st, s),
        StmtView::If { .. } => lower_if(st, s, tail),
        StmtView::FnDecl { .. } => lower_fn_decl(st, s),
    }
}

/// The state after the declaration `s` of a variable has been lowered.
///
/// A `let` must have an initializer. A `var` without one must have a type,
/// and starts at the zero of that type. Where both a type and an initializer
/// are given, the type of the initializer's value must be the declared one.
/// The variable gets a slot of the type of its value.
pub open spec fn lower_decl(st: GenState, s: StmtView) -> Result<GenState, CodegenError> {
    match s {
        StmtView::LetDecl { name, ty, value } => match value {
            None => Err(CodegenError::MissingInitializer),
            Some(e) => match st.eval(e) {
                Err(err) => Err(err),
                Ok((st1, v)) => match check_declared(ty, v.ty) {
                    Err(err) => Err(err),
                    Ok(()) => st1.bind(name, v, false),
                },
            },
        },
        StmtView::VarDecl { name, ty, value } => match value {
            Some(e) => match st.eval(e) {
                Err(err) => Err(err),
                Ok((st1, v)) => match check_declared(ty, v.ty) {
                    Err(err) => Err(err),
                    Ok(()) => st1.bind(name, v, true),
                },
            },
            None => match ty {
                None => Err(CodegenError::MissingTypeAnnotation),
                Some(t) => match default_value(t) {
                    Err(err) => Err(err),
                    Ok(v) => st.bind(name, v, true),
                },
            },
        },
        _ => Ok(st),
    }
}

/// The state after the conditional `s` has been lowered.
///
/// The blocks of the conditional are made first. The condition is evaluated
/// in the block under construction and must yield a single bit, on which
/// that block branches: to the `then` block, or else to the `else` block, or
/// to the continuation where there is no `else` branch. Each branch is
/// lowered into its block and falls through to the continuation. The
/// generator ends at the continuation, which is pruned where the conditional
/// is in tail position and control runs off the end of neither of its two
/// branches.
pub open spec fn lower_if(st: GenState, s: StmtView, tail: bool) -> Result<GenState, CodegenError>
    decreases s, 0nat, 0nat,
{
    match s {
        StmtView::If { condition, then_branch, else_branch } => {
            let then_b = st.block_count();
            let else_target = st.block_count() + 1;
            let merge_b = if else_branch is Some {
                st.block_count() + 2
            } else {
                st.block_count() + 1
            };
            match st.begin_conditional(condition, else_branch is Some) {
                Err(err) => Err(err),
                Ok(st2) => match lower_branch(st2, then_b, then_branch, merge_b, tail) {
                    Err(err) => Err(err),
                    Ok((st3, then_ends)) => match else_branch {
                        None => Ok(st3.close_conditional(merge_b, false)),
                        Some(stmts) => match lower_branch(st3, else_target, stmts, merge_b, tail) {
                            Err(err) => Err(err),
                            Ok((st4, else_ends)) => Ok(
                                st4.close_conditional(merge_b, tail && then_ends && else_ends),
                            ),
                        },
                    },
                },
            }
        },
        _ => Ok(st),
    }
}

/// The state after the function declaration `s` has been lowered.
///
/// Each parameter must have a type that values can have; the result type
/// may also be `Void`. The function is added to the unit before its body is
/// lowered, so that the body can call it. Each parameter becomes an
/// immutable variable, in a scope that ends with the function. The body is
/// in tail position, and ends in a void return where control can run off
/// its end.
pub open spec fn lower_fn_decl(st: GenState, s: StmtView) -> Result<GenState, CodegenError>
    decreases s, 0nat, 0nat,
{
    match s {
        StmtView::FnDecl { name, params, ty, body } => match lower_param_types(params) {
            Err(err) => Err(err),
            Ok(param_types) => match lower_return_type(ty) {
                Err(err) => Err(err),
                Ok(ret) => match st.enter_function(name, param_types, ret).bind_params(
                    params,
                    params.len(),
                ) {
                    Err(err) => Err(err),
                    Ok(st1) => match lower_block(st1, body, true) {
                        Err(err) => Err(err),
                        Ok(st2) => Ok(st2.leave_function(st.cur_fn, st.cur_block)),
                    },
                },
            },
        },
        _ => Ok(st),
    }
}

/// The state after a branch of a conditional has been lowered into block
/// `block` of the function under construction, and whether control cannot
/// run off the end of the branch. Where it can, the branch falls through to
/// block `merge`.
pub open spec fn lower_branch(
    st: GenState,
    block: int,
    stmts: Seq<StmtView>,
    merge: int,
    tail: bool,
) -> Result<(GenState, bool), CodegenError>
    decreases stmts, 3nat, 0nat,
{
    match lower_block(st.at(st.cur_fn, block), stmts, tail) {
        Err(err) => Err(err),
        Ok(st1) => Ok((st1.fall_through_to(merge), st1.terminated())),
    }
}

/// The state after the statements of `stmts` from index `i` on have been
/// lowered, one after the other. Only the last statement of a block in tail
/// position is itself in tail position.
pub open spec fn lower_stmts(st: GenState, stmts: Seq<StmtView>, i: nat, tail: bool) -> Result<
    GenState,
    CodegenError,
>
    decreases stmts, 1nat, stmts.len() - i,
{
    if i >= stmts.len() {
        Ok(st)
    } else {
        match lower_stmt(st, stmts[i as int], tail && i == stmts.len() - 1) {
            Err(err) => Err(err),
            Ok(st1) => lower_stmts(st1, stmts, i + 1, tail),
        }
    }
}

/// The state after the block `stmts` has been lowered in a scope of its own.
pub open spec fn lower_block(st: GenState, stmts: Seq<StmtView>, tail: bool) -> Result<
    GenState,
    CodegenError,
>
    decreases stmts, 2nat, 0nat,
{
    match lower_stmts(GenState { scopes: st.scopes.push(Map::empty()), ..st }, stmts, 0, tail) {
        Err(err) => Err(err),
        Ok(st1) => Ok(GenState { scopes: st1.scopes.drop_last(), ..st1 }),
    }
}

/// The state after `program` has been compiled: its top-level statements are
/// the body of a function `main` without parameters that returns a 32-bit
/// integer.
pub open spec fn lower_program(st: GenState, program: Seq<StmtView>) -> Result<
    GenState,
    CodegenError,
> {
    let f = st.unit.functions.len() as int;
    let entered = GenState {
        unit: st.unit.add_function("main"@, Seq::empty(), Some(IrType::I32)).append_block(
            f,
            BlockLabel::Entry,
        ),
        cur_fn: f,
        cur_block: 0,
        ..st
    };
    match lower_block(entered, program, true) {
        Err(err) => Err(err),
        Ok(st1) => Ok(st1.close()),
    }
}

/// Whether every block of `before` is a block of `after`: lowering adds
/// functions, blocks and instructions and takes none away.
#[verifier::opaque]
pub open spec fn grows(before: UnitView, after: UnitView) -> bool {
    &&& before.functions.len() <= after.functions.len()
    &&& forall|f: int|
        0 <= f < before.functions.len() ==> before.functions[f].blocks.len()
            <= #[trigger] after.functions[f].blocks.len()
}

/// Whether `after` can follow `before` in the lowering of one function body:
/// the generator still stands at a block of the same function, the unit has
/// only grown, and as many scopes are open.
pub open spec fn follows(before: GenState, after: GenState) -> bool {
    &&& after.positioned()
    &&& after.cur_fn == before.cur_fn
    &&& after.scopes.len() == before.scopes.len()
    &&& grows(before.unit, after.unit)
}

/// Growth is transitive.
pub proof fn lemma_grows_trans(a: UnitView, b: UnitView, c: UnitView)
    requires
        grows(a, b),
        grows(b, c),
    ensures
        grows(a, c),
{
    reveal(grows);
    assert forall|f: int| 0 <= f < a.functions.len() implies a.functions[f].blocks.len()
        <= #[trigger] c.functions[f].blocks.len() by {
        assert(a.functions[f].blocks.len() <= b.functions[f].blocks.len());
    }
}

/// A block of a unit is a block of every unit that the first has grown
/// into.
pub proof fn lemma_grows_keeps_block(a: UnitView, b: UnitView, f: int, block: int)
    requires
        grows(a, b),
        a.has_block(f, block),
    ensures
        b.has_block(f, block),
{
    reveal(grows);
}

/// To follow is transitive.
pub proof fn lemma_follows_trans(a: GenState, b: GenState, c: GenState)
    requires
        follows(a, b),
        follows(b, c),
    ensures
        follows(a, c),
{
    lemma_grows_trans(a.unit, b.unit, c.unit);
}

/// A unit has grown into itself.
pub proof fn lemma_grows_refl(a: UnitView)
    ensures
        grows(a, a),
{
    reveal(grows);
}

/// Emitting code keeps the generator where it stands and changes nothing
/// that the lowering of an expression depends on.
pub proof fn lemma_emit_all_basics(st: GenState, code: Seq<InstrView>)
    requires
        st.positioned(),
    ensures
        st.emit_all(code).positioned(),
        st.emit_all(code).ctx() == st.ctx(),
        st.emit_all(code).next_index() == st.next_index() + code.len(),
        st.emit_all(code).here().instrs == st.here().instrs + code,
        st.emit_all(code).unit.functions.len() == st.unit.functions.len(),
        forall|f: int|
            0 <= f < st.unit.functions.len() ==> st.unit.functions[f].blocks.len()
                == #[trigger] st.emit_all(code).unit.functions[f].blocks.len(),
{
    assert(st.emit_all(code).unit.signatures() =~= st.unit.signatures());
}

/// Emitting no code changes nothing.
pub proof fn lemma_emit_nothing(st: GenState)
    requires
        st.positioned(),
    ensures
        st.emit_all(Seq::empty()) == st,
{
    let f = st.cur_fn;
    let b = st.cur_block;
    assert(st.here().instrs + Seq::<InstrView>::empty() =~= st.here().instrs);
    assert(st.unit.functions[f].blocks.update(b, st.here()) =~= st.unit.functions[f].blocks);
    assert(st.unit.functions.update(f, st.unit.functions[f]) =~= st.unit.functions);
}

/// Emitting two pieces of code one after the other emits their
/// concatenation.
pub proof fn lemma_emit_all_concat(st: GenState, code1: Seq<InstrView>, code2: Seq<InstrView>)
    requires
        st.positioned(),
    ensures
        st.emit_all(code1).emit_all(code2) == st.emit_all(code1 + code2),
{
    let f = st.cur_fn;
    let b = st.cur_block;
    let one = st.emit_all(code1);
    let two = one.emit_all(code2);
    let both = st.emit_all(code1 + code2);
    assert((st.here().instrs + code1) + code2 =~= st.here().instrs + (code1 + code2));
    assert(two.unit.functions[f].blocks =~= both.unit.functions[f].blocks);
    assert(two.unit.functions =~= both.unit.functions);
}

/// Emitting code and then one instruction emits the code with the
/// instruction at its end.
pub proof fn lemma_emit_all_push(st: GenState, code: Seq<InstrView>, instr: InstrView)
    requires
        st.positioned(),
    ensures
        st.emit_all(code).emit(instr) == st.emit_all(code.push(instr)),
{
    lemma_emit_all_concat(st, code, seq![instr]);
    assert(code + seq![instr] =~= code.push(instr));
}

} // verus!
