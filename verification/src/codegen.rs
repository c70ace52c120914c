//! The code generator: lowers a syntax tree into a unit of the intermediate
//! representation, resolving names and checking types as it goes.

use crate::ast::{expr_view, exprs_view, params_view, stmt_view, stmts_view};
use crate::ast::{
    BinOp, Expr, ExprView, FunctionParameter, ParamView, Program, Stmt, StmtView, Type, UnaryOp,
};
use crate::error::CodegenError;
use crate::flow::{
    all_closed, fits, lemma_compiled_blocks_are_closed, lemma_compiled_targets_are_valid,
    targets_valid,
};
use crate::ir::{
    BinaryOp, BlockLabel, Instr, InstrView, IrType, Operand, Predicate, Slot, Unit, UnitView, Value,
};
use crate::lower::{
    binary_instr, check_declared, default_value, lower_args, lower_block, lower_expr,
    lower_branch, lower_decl, lower_fn_decl, lower_if, lower_param_types, lower_program,
    lower_return_type, lower_stmt, lower_stmts, lower_type,
    unary_instr, ExprCtx, GenState,
};
use crate::lower::{follows, grows};
use crate::lower::{
    lemma_emit_all_basics, lemma_emit_all_concat, lemma_emit_all_push, lemma_emit_nothing,
    lemma_follows_trans, lemma_grows_keeps_block, lemma_grows_refl, lemma_grows_trans,
};
pub use crate::scope::Env;
use vstd::prelude::*;

verus! {

proof fn lemma_emitted(st: GenState, code: Seq<InstrView>)
    requires
        st.positioned(),
    ensures
        st.emit_all(code).positioned(),
        st.emit_all(code).ctx() == st.ctx(),
        st.emit_all(code).next_index() == st.next_index() + code.len(),
        grows(st.unit, st.emit_all(code).unit),
{
    reveal(grows);
    lemma_emit_all_basics(st, code);
}

proof fn lemma_unit_fits(unit: &Unit)
    ensures
        fits(unit@),
{
    reveal(fits);
    assert forall|f: int| 0 <= f < unit@.functions.len() implies (#[trigger] unit@.functions[f]).blocks.len()
        <= usize::MAX by {
        assert(unit@.functions[f].blocks.len() == unit.functions@[f].blocks@.len());
        assert(unit.functions@[f].blocks.len() <= usize::MAX);
    }
}

proof fn lemma_args_error_stays(ctx: ExprCtx, base: int, args: Seq<ExprView>, k: nat, n: nat)
    requires
        lower_args(ctx, base, args, k) is Err,
        k <= n <= args.len(),
    ensures
        lower_args(ctx, base, args, n) == lower_args(ctx, base, args, k),
    decreases n,
{
    if k < n {
        lemma_args_error_stays(ctx, base, args, k, (n - 1) as nat);
    }
}

proof fn lemma_params_error_stays(st: GenState, params: Seq<ParamView>, k: nat, n: nat)
    requires
        st.bind_params(params, k) is Err,
        k <= n <= params.len(),
    ensures
        st.bind_params(params, n) == st.bind_params(params, k),
    decreases n,
{
    if k < n {
        lemma_params_error_stays(st, params, k, (n - 1) as nat);
    }
}

proof fn lemma_stmts_from(st: GenState, stmts: Seq<StmtView>, i: nat, tail: bool)
    requires
        i < stmts.len(),
    ensures
        lower_stmts(st, stmts, i, tail) == match lower_stmt(
            st,
            stmts[i as int],
            tail && i == stmts.len() - 1,
        ) {
            Err(err) => Err(err),
            Ok(st1) => lower_stmts(st1, stmts, i + 1, tail),
        },
{
}

/// Code generator: lowers a syntax tree into a unit of the intermediate
/// representation.
pub struct CodeGen<'a> {
    unit: Unit<'a>,
    env: Env<'a>,
    cur_fn: usize,
    cur_block: usize,
}

impl<'a> View for CodeGen<'a> {
    type V = GenState;

    closed spec fn view(&self) -> GenState {
        GenState {
            unit: self.unit@,
            scopes: self.env@,
            cur_fn: self.cur_fn as int,
            cur_block: self.cur_block as int,
        }
    }
}

/// The type that stands for a type of the language in the unit.
pub fn map_ast_type(ty: Type) -> (r: Result<IrType, CodegenError>)
    ensures
        r == lower_type(ty),
{
    match ty {
        Type::I32 => Ok(IrType::I32),
        Type::I64 => Ok(IrType::I64),
        Type::F32 => Err(CodegenError::UnsupportedType),
        Type::F64 => Err(CodegenError::UnsupportedType),
        Type::Void => Err(CodegenError::UnsupportedType),
        Type::String => Err(CodegenError::UnsupportedType),
    }
}

/// The value of a variable that is declared without an initializer.
pub fn get_default_value(ty: Type) -> (r: Result<Value, CodegenError>)
    ensures
        r == default_value(ty),
{
    match map_ast_type(ty) {
        Ok(t) => Ok(Value { ty: t, source: Operand::Const(0) }),
        Err(e) => Err(e),
    }
}

fn map_return_type(ty: Type) -> (r: Result<Option<IrType>, CodegenError>)
    ensures
        r == lower_return_type(ty),
{
    match ty {
        Type::Void => Ok(None),
        _ => match map_ast_type(ty) {
            Ok(t) => Ok(Some(t)),
            Err(e) => Err(e),
        },
    }
}

fn map_param_types(params: &Vec<FunctionParameter>) -> (r: Result<Vec<IrType>, CodegenError>)
    ensures
        match r {
            Ok(types) => lower_param_types(params_view(params@)) == Ok::<
                Seq<IrType>,
                CodegenError,
            >(types@),
            Err(e) => lower_param_types(params_view(params@)) == Err::<
                Seq<IrType>,
                CodegenError,
            >(e),
        },
{
    let ghost pv = params_view(params@);
    let mut types: Vec<IrType> = Vec::new();
    let mut i: usize = 0;
    while i < params.len()
        invariant
            0 <= i <= params.len(),
            pv == params_view(params@),
            types@.len() == i,
            forall|j: int|
                0 <= j < i ==> lower_type(#[trigger] pv[j].ty) == Ok::<IrType, CodegenError>(
                    types@[j],
                ),
        decreases params.len() - i,
    {
        match map_ast_type(params[i].ty) {
            Err(e) => {
                assert(lower_type(pv[i as int].ty) is Err);
                return Err(e);
            },
            Ok(t) => {
                types.push(t);
            },
        }
        i += 1;
    }
    assert(lower_param_types(pv) matches Ok(ts) && ts =~= types@);
    Ok(types)
}

fn build_binary(op: BinOp, lhs: Value, rhs: Value) -> (r: Result<(Instr, IrType), CodegenError>)
    ensures
        match r {
            Ok((instr, ty)) => binary_instr(op, lhs, rhs) == Ok::<
                (InstrView, IrType),
                CodegenError,
            >((instr@, ty)),
            Err(e) => binary_instr(op, lhs, rhs) == Err::<(InstrView, IrType), CodegenError>(e),
        },
{
    if lhs.ty != rhs.ty {
        return Err(CodegenError::TypeMismatch);
    }
    let ty = lhs.ty;
    Ok(
        match op {
            BinOp::Add => (Instr::Binary { op: BinaryOp::Add, lhs, rhs }, ty),
            BinOp::Sub => (Instr::Binary { op: BinaryOp::Sub, lhs, rhs }, ty),
            BinOp::Mul => (Instr::Binary { op: BinaryOp::Mul, lhs, rhs }, ty),
            BinOp::Div => (Instr::Binary { op: BinaryOp::SDiv, lhs, rhs }, ty),
            BinOp::And => (Instr::Binary { op: BinaryOp::And, lhs, rhs }, ty),
            BinOp::Or => (Instr::Binary { op: BinaryOp::Or, lhs, rhs }, ty),
            BinOp::Equal => (Instr::Compare { pred: Predicate::Eq, lhs, rhs }, IrType::I1),
            BinOp::NotEqual => (Instr::Compare { pred: Predicate::Ne, lhs, rhs }, IrType::I1),
            BinOp::LessThan => (Instr::Compare { pred: Predicate::Slt, lhs, rhs }, IrType::I1),
            BinOp::LessThanOrEqual => (
                Instr::Compare { pred: Predicate::Sle, lhs, rhs },
                IrType::I1,
            ),
            BinOp::GreaterThan => (Instr::Compare { pred: Predicate::Sgt, lhs, rhs }, IrType::I1),
            BinOp::GreaterThanOrEqual => (
                Instr::Compare { pred: Predicate::Sge, lhs, rhs },
                IrType::I1,
            ),
        },
    )
}

fn build_unary(op: UnaryOp, operand: Value) -> (instr: Instr)
    ensures
        instr@ == unary_instr(op, operand),
{
    match op {
        UnaryOp::Neg => Instr::Binary {
            op: BinaryOp::Sub,
            lhs: Value { ty: operand.ty, source: Operand::Const(0) },
            rhs: operand,
        },
        UnaryOp::Not => Instr::Not { operand },
    }
}

impl<'a> CodeGen<'a> {
    /// A generator for a unit called `module_name`, which has no function
    /// yet.
    pub fn new(module_name: &'a str) -> (generator: Self)
        ensures
            generator@ == (GenState {
                unit: UnitView { name: module_name@, functions: Seq::empty() },
                scopes: seq![Map::empty()],
                cur_fn: 0,
                cur_block: 0,
            }),
    {
        CodeGen { unit: Unit::new(module_name), env: Env::new(), cur_fn: 0, cur_block: 0 }
    }

    /// The unit built so far.
    pub fn unit(&self) -> (unit: &Unit<'a>)
        ensures
            unit@ == self@.unit,
    {
        &self.unit
    }

    /// Gives up the generator for the unit that it has built.
    pub fn into_unit(self) -> (unit: Unit<'a>)
        ensures
            unit@ == self@.unit,
    {
        self.unit
    }

    /// Compiles the program: its top-level statements become the body of a
    /// new function `main`. On an error the unit is not to be used.
    ///
    /// Compiling keeps the control flow of the unit sound: if every block
    /// was closed before, every block is closed after, and if every jump
    /// went to a block that is part of its function, every jump does so
    /// after.
    pub fn compile(&mut self, program: &Program<'a>) -> (r: Result<(), CodegenError>)
        ensures
            match r {
                Ok(()) => lower_program(old(self)@, program@) == Ok::<GenState, CodegenError>(
                    final(self)@,
                ),
                Err(e) => lower_program(old(self)@, program@) == Err::<GenState, CodegenError>(e),
            },
            r is Ok ==> final(self)@.positioned() && final(self)@.scopes == old(self)@.scopes,
            r is Ok && all_closed(old(self)@.unit) ==> all_closed(final(self)@.unit),
            r is Ok && targets_valid(old(self)@.unit) ==> targets_valid(final(self)@.unit),
    {
        let ghost before = self@;
        let f = self.unit.add_function("main", Vec::new(), Some(IrType::I32));
        let entry = self.unit.append_block(f, BlockLabel::Entry);
        self.cur_fn = f;
        self.cur_block = entry;
        match self.gen_program(program) {
            Err(e) => Err(e),
            Ok(()) => {
                self.close_block();
                proof {
                    lemma_unit_fits(&self.unit);
                    if all_closed(before.unit) {
                        lemma_compiled_blocks_are_closed(before, program@);
                    }
                    if targets_valid(before.unit) {
                        lemma_compiled_targets_are_valid(before, program@);
                    }
                }
                Ok(())
            },
        }
    }

    /// Lowers the statements of the program as the body of the function
    /// under construction.
    pub fn gen_program(&mut self, program: &Program<'a>) -> (r: Result<(), CodegenError>)
        requires
            old(self)@.positioned(),
        ensures
            match r {
                Ok(()) => lower_block(old(self)@, program@, true) == Ok::<GenState, CodegenError>(
                    final(self)@,
                ) && follows(old(self)@, final(self)@) && final(self)@.scopes == old(self)@.scopes,
                Err(e) => lower_block(old(self)@, program@, true) == Err::<GenState, CodegenError>(
                    e,
                ),
            },
    {
        self.gen_block(&program.statements, true)
    }

    #[verifier::loop_isolation(false)]
    /// Lowers a block in a scope of its own. `is_last_block` says whether
    /// the block is in tail position. The scopes in sight afterwards are
    /// those in sight before.
    #[verifier::rlimit(30)]
    pub fn gen_block(&mut self, stmts: &Vec<Stmt<'a>>, is_last_block: bool) -> (r: Result<
        (),
        CodegenError,
    >)
        requires
            old(self)@.positioned(),
        ensures
            match r {
                Ok(()) => lower_block(old(self)@, stmts_view(stmts@), is_last_block) == Ok::<
                    GenState,
                    CodegenError,
                >(final(self)@) && follows(old(self)@, final(self)@) && final(self)@.scopes == old(self)@.scopes,
                Err(e) => lower_block(old(self)@, stmts_view(stmts@), is_last_block) == Err::<
                    GenState,
                    CodegenError,
                >(e),
            },
        decreases stmts, 2nat,
    {
        let ghost view = stmts_view(stmts@);
        self.env.push_scope();
        let ghost entered = self@;
        let mut i: usize = 0;
        proof {
            lemma_grows_refl(entered.unit);
        }
        while i < stmts.len()
            invariant
                0 <= i <= stmts.len(),
                view == stmts_view(stmts@),
                entered == (GenState { scopes: old(self)@.scopes.push(Map::empty()), ..old(self)@ }),
                follows(entered, self@),
                lower_stmts(entered, view, 0, is_last_block) == lower_stmts(
                    self@,
                    view,
                    i as nat,
                    is_last_block,
                ),
                self@.scopes.drop_last() == old(self)@.scopes,
            decreases stmts.len() - i,
        {
            let is_last_stmt = is_last_block && i == stmts.len() - 1;
            proof {
                lemma_stmts_from(self@, view, i as nat, is_last_block);
                assert(view[i as int] == stmt_view(stmts@[i as int]));
            }
            let ghost before = self@;
            match self.gen_stmt(&stmts[i], is_last_stmt) {
                Err(e) => {
                    return Err(e);
                },
                Ok(()) => {},
            }
            proof {
                lemma_follows_trans(entered, before, self@);
            }
            i += 1;
        }
        self.env.pop_scope();
        Ok(())
    }

    /// Lowers a statement. `is_last_stmt` says whether the statement is in
    /// tail position. A statement changes the innermost scope only.
    #[verifier::rlimit(30)]
    pub fn gen_stmt(&mut self, stmt: &Stmt<'a>, is_last_stmt: bool) -> (r: Result<
        (),
        CodegenError,
    >)
        requires
            old(self)@.positioned(),
            old(self)@.scopes.len() > 0,
        ensures
            match r {
                Ok(()) => lower_stmt(old(self)@, stmt@, is_last_stmt) == Ok::<
                    GenState,
                    CodegenError,
                >(final(self)@) && follows(old(self)@, final(self)@) && final(
                    self)@.scopes.drop_last() == old(self)@.scopes.drop_last(),
                Err(e) => lower_stmt(old(self)@, stmt@, is_last_stmt) == Err::<
                    GenState,
                    CodegenError,
                >(e),
            },
        decreases stmt, 1nat,
    {
        match stmt {
            Stmt::FnDecl { .. } => self.gen_fn_decl(stmt),
            Stmt::If { .. } => self.gen_if(stmt, is_last_stmt),
            Stmt::LetDecl { .. } => self.gen_decl(stmt),
            Stmt::VarDecl { .. } => self.gen_decl(stmt),
            Stmt::Return { expr } => match expr {
                Some(e) => {
                    let value = match self.gen_expr(e) {
                        Err(err) => {
                            return Err(err);
                        },
                        Ok(v) => v,
                    };
                    let ghost evaluated = self@;
                    self.emit(Instr::Return { value: Some(value) });
                    proof {
                        lemma_follows_trans(old(self)@, evaluated, self@);
                    }
                    Ok(())
                },
                None => {
                    self.emit(Instr::Return { value: None });
                    Ok(())
                },
            },
            Stmt::ExprStmt { expr } => {
                match self.gen_expr(expr) {
                    Err(err) => Err(err),
                    Ok(_) => Ok(()),
                }
            },
            Stmt::Expr { expr } => {
                let value = match self.gen_expr(expr) {
                    Err(err) => {
                        return Err(err);
                    },
                    Ok(v) => v,
                };
                let ghost evaluated = self@;
                if is_last_stmt {
                    self.emit(Instr::Return { value: Some(value) });
                    proof {
                        lemma_follows_trans(old(self)@, evaluated, self@);
                    }
                }
                Ok(())
            },
            Stmt::Assign { name, value } => {
                let info = match self.env.resolve_var(*name) {
                    Err(err) => {
                        return Err(err);
                    },
                    Ok(info) => info,
                };
                if !info.is_mutable {
                    return Err(CodegenError::ImmutableAssignment);
                }
                let new_value = match self.gen_expr(value) {
                    Err(err) => {
                        return Err(err);
                    },
                    Ok(v) => v,
                };
                if new_value.ty != info.ty {
                    return Err(CodegenError::TypeMismatch);
                }
                let ghost evaluated = self@;
                self.emit(Instr::Store { slot: info.slot, value: new_value });
                proof {
                    lemma_follows_trans(old(self)@, evaluated, self@);
                }
                Ok(())
            },
        }
    }

    /// Lowers a function declaration: makes the function and its entry
    /// block, makes a variable of each parameter in a scope of their own,
    /// lowers the body, ends it with a void return where control can run
    /// off its end, and goes back to where the generator stood.
    fn gen_fn_decl(&mut self, stmt: &Stmt<'a>) -> (r: Result<(), CodegenError>)
        requires
            stmt is FnDecl,
            old(self)@.positioned(),
            old(self)@.scopes.len() > 0,
        ensures
            match r {
                Ok(()) => lower_fn_decl(old(self)@, stmt@) == Ok::<
                    GenState,
                    CodegenError,
                >(final(self)@) && follows(old(self)@, final(self)@) && final(self)@.scopes
                    == old(self)@.scopes,
                Err(e) => lower_fn_decl(old(self)@, stmt@) == Err::<
                    GenState,
                    CodegenError,
                >(e),
            },
        decreases stmt, 0nat,
    {
        match stmt {
            Stmt::FnDecl { name, params, ty, body } => {
                let saved_fn = self.cur_fn;
                let saved_block = self.cur_block;
                let param_types = match map_param_types(params) {
                    Err(e) => {
                        return Err(e);
                    },
                    Ok(types) => types,
                };
                let ret = match map_return_type(*ty) {
                    Err(e) => {
                        return Err(e);
                    },
                    Ok(ret) => ret,
                };
                self.enter_function(*name, param_types, ret);
                let ghost entered = self@;
                match self.bind_params(params) {
                    Err(e) => {
                        return Err(e);
                    },
                    Ok(()) => {},
                }
                let ghost bound = self@;
                match self.gen_block(body, true) {
                    Err(e) => {
                        return Err(e);
                    },
                    Ok(()) => {},
                }
                let ghost lowered = self@;
                proof {
                    lemma_grows_trans(old(self)@.unit, entered.unit, bound.unit);
                    lemma_grows_trans(old(self)@.unit, bound.unit, lowered.unit);
                    lemma_grows_keeps_block(
                        old(self)@.unit,
                        lowered.unit,
                        saved_fn as int,
                        saved_block as int,
                    );
                    assert(lowered.scopes.drop_last() == entered.scopes.drop_last());
                    assert(entered.scopes.drop_last() =~= old(self)@.scopes);
                }
                self.leave_function(saved_fn, saved_block);
                proof {
                    lemma_grows_trans(old(self)@.unit, lowered.unit, self@.unit);
                }
                Ok(())
            },
            _ => Ok(()),
        }
    }

    fn enter_function(&mut self, name: &'a str, params: Vec<IrType>, ret: Option<IrType>)
        ensures
            final(self)@ == old(self)@.enter_function(name@, params@, ret),
            final(self)@.positioned(),
            final(self)@.scopes.len() > 0,
            grows(old(self)@.unit, final(self)@.unit),
    {
        let f = self.unit.add_function(name, params, ret);
        let entry = self.unit.append_block(f, BlockLabel::Entry);
        self.cur_fn = f;
        self.cur_block = entry;
        self.env.push_scope();
        proof {
            reveal(grows);
        }
    }

    fn leave_function(&mut self, f: usize, b: usize)
        requires
            old(self)@.positioned(),
            old(self)@.scopes.len() > 0,
            old(self)@.unit.has_block(f as int, b as int),
        ensures
            final(self)@ == old(self)@.leave_function(f as int, b as int),
            final(self)@.positioned(),
            grows(old(self)@.unit, final(self)@.unit),
    {
        self.env.pop_scope();
        let ghost popped = self@;
        self.close_block();
        proof {
            lemma_grows_keeps_block(popped.unit, self@.unit, f as int, b as int);
        }
        self.cur_fn = f;
        self.cur_block = b;
    }

    #[verifier::loop_isolation(false)]
    fn bind_params(&mut self, params: &Vec<FunctionParameter<'a>>) -> (r: Result<
        (),
        CodegenError,
    >)
        requires
            old(self)@.positioned(),
            old(self)@.scopes.len() > 0,
        ensures
            match r {
                Ok(()) => old(self)@.bind_params(params_view(params@), params@.len()) == Ok::<
                    GenState,
                    CodegenError,
                >(final(self)@) && follows(old(self)@, final(self)@) && final(
                    self)@.scopes.drop_last() == old(self)@.scopes.drop_last(),
                Err(e) => old(self)@.bind_params(params_view(params@), params@.len()) == Err::<
                    GenState,
                    CodegenError,
                >(e),
            },
    {
        let ghost pv = params_view(params@);
        let ghost entered = self@;
        let mut i: usize = 0;
        proof {
            lemma_grows_refl(entered.unit);
        }
        while i < params.len()
            invariant
                0 <= i <= params.len(),
                follows(entered, self@),
                self@.scopes.drop_last() == entered.scopes.drop_last(),
                entered.bind_params(pv, i as nat) == Ok::<GenState, CodegenError>(self@),
            decreases params.len() - i,
        {
            let ghost before = self@;
            assert(entered.bind_params(pv, (i + 1) as nat) == match lower_type(pv[i as int].ty) {
                Err(err) => Err(err),
                Ok(ty) => before.bind(
                    pv[i as int].name,
                    Value { ty, source: Operand::Param(i) },
                    false,
                ),
            });
            let bound = match map_ast_type(params[i].ty) {
                Err(e) => Err(e),
                Ok(t) => self.bind(
                    params[i].name,
                    Value { ty: t, source: Operand::Param(i) },
                    false,
                ),
            };
            match bound {
                Err(e) => {
                    proof {
                        lemma_params_error_stays(entered, pv, (i + 1) as nat, params.len() as nat);
                    }
                    return Err(e);
                },
                Ok(()) => {},
            }
            proof {
                lemma_follows_trans(entered, before, self@);
            }
            i += 1;
        }
        Ok(())
    }

    /// Lowers a `let` or `var` declaration: the value of the initializer,
    /// or zero where a `var` has none, is stored in a new slot, and the name
    /// is bound to the slot.
    fn gen_decl(&mut self, stmt: &Stmt<'a>) -> (r: Result<(), CodegenError>)
        requires
            stmt is LetDecl || stmt is VarDecl,
            old(self)@.positioned(),
            old(self)@.scopes.len() > 0,
        ensures
            match r {
                Ok(()) => lower_decl(old(self)@, stmt@) == Ok::<
                    GenState,
                    CodegenError,
                >(final(self)@) && follows(old(self)@, final(self)@) && final(
                    self)@.scopes.drop_last() == old(self)@.scopes.drop_last(),
                Err(e) => lower_decl(old(self)@, stmt@) == Err::<
                    GenState,
                    CodegenError,
                >(e),
            },
    {
        match stmt {
            Stmt::LetDecl { name, ty, value } => {
                let initial_value = match value {
                    None => {
                        return Err(CodegenError::MissingInitializer);
                    },
                    Some(e) => match self.gen_expr(e) {
                        Err(err) => {
                            return Err(err);
                        },
                        Ok(v) => v,
                    },
                };
                match check_type(*ty, initial_value.ty) {
                    Err(err) => {
                        return Err(err);
                    },
                    Ok(()) => {},
                }
                let ghost evaluated = self@;
                let r = self.bind(*name, initial_value, false);
                proof {
                    if r is Ok {
                        lemma_follows_trans(old(self)@, evaluated, self@);
                    }
                }
                r
            },
            Stmt::VarDecl { name, ty, value } => {
                let initial_value = match value {
                    Some(e) => {
                        let v = match self.gen_expr(e) {
                            Err(err) => {
                                return Err(err);
                            },
                            Ok(v) => v,
                        };
                        match check_type(*ty, v.ty) {
                            Err(err) => {
                                return Err(err);
                            },
                            Ok(()) => {},
                        }
                        v
                    },
                    None => match ty {
                        None => {
                            return Err(CodegenError::MissingTypeAnnotation);
                        },
                        Some(t) => match get_default_value(*t) {
                            Err(err) => {
                                return Err(err);
                            },
                            Ok(v) => {
                                proof {
                                    lemma_grows_refl(self@.unit);
                                }
                                v
                            },
                        },
                    },
                };
                let ghost evaluated = self@;
                let r = self.bind(*name, initial_value, true);
                proof {
                    if r is Ok {
                        lemma_follows_trans(old(self)@, evaluated, self@);
                    }
                }
                r
            },
            _ => Ok(()),
        }
    }

    /// Lowers a conditional: makes the blocks of the branches and the block
    /// where control continues, branches on the condition, lowers each
    /// branch in a scope of its own and lets it fall through to the
    /// continuation where control can run off its end. Where the
    /// conditional is in tail position and control runs off the end of
    /// neither of its two branches, the continuation is pruned.
    #[verifier::rlimit(30)]
    fn gen_if(&mut self, stmt: &Stmt<'a>, is_last_stmt: bool) -> (r: Result<(), CodegenError>)
        requires
            stmt is If,
            old(self)@.positioned(),
            old(self)@.scopes.len() > 0,
        ensures
            match r {
                Ok(()) => lower_if(old(self)@, stmt@, is_last_stmt) == Ok::<
                    GenState,
                    CodegenError,
                >(final(self)@) && follows(old(self)@, final(self)@) && final(self)@.scopes
                    == old(self)@.scopes,
                Err(e) => lower_if(old(self)@, stmt@, is_last_stmt) == Err::<
                    GenState,
                    CodegenError,
                >(e),
            },
        decreases stmt, 0nat,
    {
        match stmt {
            Stmt::If { condition, then_branch, else_branch } => {
                let (then_block, else_target, merge_block) = match self.begin_conditional(
                    condition,
                    else_branch.is_some(),
                ) {
                    Err(err) => {
                        return Err(err);
                    },
                    Ok(blocks) => blocks,
                };
                let ghost st2 = self@;
                let then_ends = match self.gen_branch(
                    then_branch,
                    then_block,
                    merge_block,
                    is_last_stmt,
                ) {
                    Err(err) => {
                        return Err(err);
                    },
                    Ok(ends) => ends,
                };
                let ghost st3 = self@;
                proof {
                    lemma_follows_trans(old(self)@, st2, st3);
                    lemma_grows_keeps_block(st2.unit, st3.unit, st2.cur_fn, else_target as int);
                    lemma_grows_keeps_block(st2.unit, st3.unit, st2.cur_fn, merge_block as int);
                }
                match else_branch {
                    None => {
                        self.close_conditional(merge_block, false);
                        proof {
                            lemma_grows_trans(old(self)@.unit, st3.unit, self@.unit);
                        }
                    },
                    Some(stmts) => {
                        let else_ends = match self.gen_branch(
                            stmts,
                            else_target,
                            merge_block,
                            is_last_stmt,
                        ) {
                            Err(err) => {
                                return Err(err);
                            },
                            Ok(ends) => ends,
                        };
                        let ghost st4 = self@;
                        proof {
                            lemma_follows_trans(old(self)@, st3, st4);
                            lemma_grows_keeps_block(
                                st2.unit,
                                st3.unit,
                                st2.cur_fn,
                                merge_block as int,
                            );
                            lemma_grows_keeps_block(
                                st3.unit,
                                st4.unit,
                                st2.cur_fn,
                                merge_block as int,
                            );
                        }
                        self.close_conditional(merge_block, is_last_stmt && then_ends && else_ends);
                        proof {
                            lemma_grows_trans(old(self)@.unit, st4.unit, self@.unit);
                        }
                    },
                }
                Ok(())
            },
            _ => Ok(()),
        }
    }

    fn begin_conditional(&mut self, condition: &Expr<'a>, has_else: bool) -> (r: Result<
        (usize, usize, usize),
        CodegenError,
    >)
        requires
            old(self)@.positioned(),
        ensures
            match r {
                Ok(blocks) => old(self)@.begin_conditional(condition@, has_else) == Ok::<
                    GenState,
                    CodegenError,
                >(final(self)@) && follows(old(self)@, final(self)@) && final(self)@.scopes
                    == old(self)@.scopes && blocks.0 == old(self)@.block_count() && blocks.1
                    == old(self)@.block_count() + 1 && blocks.2 == old(self)@.block_count()
                    + if has_else {
                    2int
                } else {
                    1int
                } && final(self)@.unit.has_block(final(self)@.cur_fn, blocks.0 as int) && final(
                    self)@.unit.has_block(final(self)@.cur_fn, blocks.1 as int) && final(
                    self)@.unit.has_block(final(self)@.cur_fn, blocks.2 as int),
                Err(e) => old(self)@.begin_conditional(condition@, has_else) == Err::<
                    GenState,
                    CodegenError,
                >(e),
            },
    {
        let (then_block, else_target, merge_block) = self.open_conditional(has_else);
        let ghost st0 = self@;
        let condition_value = match self.gen_expr(condition) {
            Err(err) => {
                return Err(err);
            },
            Ok(v) => v,
        };
        if condition_value.ty != IrType::I1 {
            return Err(CodegenError::TypeMismatch);
        }
        let ghost st1 = self@;
        self.emit(Instr::Branch { cond: condition_value, then_target: then_block, else_target });
        proof {
            lemma_follows_trans(st0, st1, self@);
            lemma_follows_trans(old(self)@, st0, self@);
            lemma_grows_keeps_block(st0.unit, self@.unit, st0.cur_fn, then_block as int);
            lemma_grows_keeps_block(st0.unit, self@.unit, st0.cur_fn, else_target as int);
            lemma_grows_keeps_block(st0.unit, self@.unit, st0.cur_fn, merge_block as int);
        }
        Ok((then_block, else_target, merge_block))
    }

    fn open_conditional(&mut self, has_else: bool) -> (blocks: (usize, usize, usize))
        requires
            old(self)@.positioned(),
        ensures
            final(self)@ == old(self)@.open_conditional(has_else),
            blocks.0 == old(self)@.block_count(),
            blocks.1 == old(self)@.block_count() + 1,
            blocks.2 == old(self)@.block_count() + if has_else {
                2int
            } else {
                1int
            },
            follows(old(self)@, final(self)@),
            final(self)@.scopes == old(self)@.scopes,
            final(self)@.cur_block == old(self)@.cur_block,
            final(self)@.unit.has_block(final(self)@.cur_fn, blocks.0 as int),
            final(self)@.unit.has_block(final(self)@.cur_fn, blocks.1 as int),
            final(self)@.unit.has_block(final(self)@.cur_fn, blocks.2 as int),
    {
        let f = self.cur_fn;
        let then_block = self.unit.append_block(f, BlockLabel::Then);
        let else_block = if has_else {
            Some(self.unit.append_block(f, BlockLabel::Else))
        } else {
            None
        };
        let merge_block = self.unit.append_block(f, BlockLabel::IfCont);
        let else_target = match else_block {
            Some(b) => b,
            None => merge_block,
        };
        proof {
            reveal(grows);
        }
        (then_block, else_target, merge_block)
    }

    fn gen_branch(&mut self, stmts: &Vec<Stmt<'a>>, block: usize, merge: usize, tail: bool) -> (r:
        Result<bool, CodegenError>)
        requires
            old(self)@.positioned(),
            old(self)@.unit.has_block(old(self)@.cur_fn, block as int),
        ensures
            match r {
                Ok(ends) => lower_branch(
                    old(self)@,
                    block as int,
                    stmts_view(stmts@),
                    merge as int,
                    tail,
                ) == Ok::<(GenState, bool), CodegenError>((final(self)@, ends)) && follows(
                    old(self)@,
                    final(self)@,
                ) && final(self)@.scopes == old(self)@.scopes,
                Err(e) => lower_branch(
                    old(self)@,
                    block as int,
                    stmts_view(stmts@),
                    merge as int,
                    tail,
                ) == Err::<(GenState, bool), CodegenError>(e),
            },
        decreases stmts, 3nat,
    {
        self.cur_block = block;
        let ghost start = self@;
        match self.gen_block(stmts, tail) {
            Err(err) => {
                return Err(err);
            },
            Ok(()) => {},
        }
        let ghost lowered = self@;
        let ends = self.unit.is_terminated(self.cur_fn, self.cur_block);
        self.fall_through_to(merge);
        proof {
            lemma_grows_refl(old(self)@.unit);
            lemma_grows_trans(start.unit, lowered.unit, self@.unit);
        }
        Ok(ends)
    }

    fn close_conditional(&mut self, merge: usize, prune: bool)
        requires
            old(self)@.unit.has_block(old(self)@.cur_fn, merge as int),
        ensures
            final(self)@ == old(self)@.close_conditional(merge as int, prune),
            final(self)@.positioned(),
            final(self)@.cur_fn == old(self)@.cur_fn,
            final(self)@.scopes == old(self)@.scopes,
            grows(old(self)@.unit, final(self)@.unit),
    {
        if prune {
            self.unit.prune_block(self.cur_fn, merge);
        }
        self.cur_block = merge;
        proof {
            reveal(grows);
        }
    }

    /// Lowers an expression: emits its code into the block under
    /// construction and returns the value that the code computes.
    pub fn gen_expr(&mut self, expr: &Expr<'a>) -> (r: Result<Value, CodegenError>)
        requires
            old(self)@.positioned(),
        ensures
            match r {
                Ok(v) => old(self)@.eval(expr@) == Ok::<(GenState, Value), CodegenError>(
                    (final(self)@, v),
                ) && follows(old(self)@, final(self)@) && final(self)@.scopes == old(self)@.scopes
                    && final(self)@.cur_block == old(self)@.cur_block,
                Err(e) => old(self)@.eval(expr@) == Err::<(GenState, Value), CodegenError>(e),
            },
        decreases expr, 1nat,
    {
        let ghost st0 = self@;
        let ghost ctx = st0.ctx();
        let ghost base = st0.next_index();
        match expr {
            Expr::IntLit(value) => {
                proof {
                    lemma_emit_nothing(st0);
                    lemma_grows_refl(st0.unit);
                }
                Ok(Value { ty: IrType::I32, source: Operand::Const(*value) })
            },
            Expr::BoolLit(value) => {
                proof {
                    lemma_emit_nothing(st0);
                    lemma_grows_refl(st0.unit);
                }
                Ok(Value { ty: IrType::I1, source: Operand::Const(if *value { 1 } else { 0 }) })
            },
            Expr::BinOp { lhs, op, rhs } => {
                let v1 = match self.gen_expr(lhs) {
                    Err(err) => {
                        return Err(err);
                    },
                    Ok(v) => v,
                };
                let ghost code1 = lower_expr(ctx, base, (**lhs)@)->Ok_0.0;
                proof {
                    lemma_emitted(st0, code1);
                }
                let v2 = match self.gen_expr(rhs) {
                    Err(err) => {
                        return Err(err);
                    },
                    Ok(v) => v,
                };
                let ghost code2 = lower_expr(ctx, base + code1.len(), (**rhs)@)->Ok_0.0;
                proof {
                    lemma_emit_all_concat(st0, code1, code2);
                    lemma_emitted(st0, code1 + code2);
                }
                let (instr, ty) = match build_binary(*op, v1, v2) {
                    Err(err) => {
                        return Err(err);
                    },
                    Ok(p) => p,
                };
                let ghost iv = instr@;
                let index = self.emit(instr);
                proof {
                    lemma_emit_all_push(st0, code1 + code2, iv);
                    lemma_emitted(st0, (code1 + code2).push(iv));
                }
                Ok(Value { ty, source: Operand::Inst { block: self.cur_block, index } })
            },
            Expr::UnaryOp { op, expr } => {
                let v = match self.gen_expr(expr) {
                    Err(err) => {
                        return Err(err);
                    },
                    Ok(v) => v,
                };
                let ghost code = lower_expr(ctx, base, (**expr)@)->Ok_0.0;
                proof {
                    lemma_emitted(st0, code);
                }
                let instr = build_unary(*op, v);
                let ghost iv = instr@;
                let index = self.emit(instr);
                proof {
                    lemma_emit_all_push(st0, code, iv);
                    lemma_emitted(st0, code.push(iv));
                }
                Ok(Value { ty: v.ty, source: Operand::Inst { block: self.cur_block, index } })
            },
            Expr::FnCall { .. } => self.gen_call(expr),
            Expr::VarRef { name } => {
                let info = match self.env.resolve_var(*name) {
                    Err(err) => {
                        return Err(err);
                    },
                    Ok(info) => info,
                };
                let instr = Instr::Load { ty: info.ty, slot: info.slot };
                let ghost iv = instr@;
                let index = self.emit(instr);
                proof {
                    lemma_emitted(st0, seq![iv]);
                }
                Ok(Value { ty: info.ty, source: Operand::Inst { block: self.cur_block, index } })
            },
        }
    }

    /// Lowers a call: looks the callee up by name, lowers the arguments from
    /// left to right, and emits the call.
    #[verifier::loop_isolation(false)]
    fn gen_call(&mut self, expr: &Expr<'a>) -> (r: Result<Value, CodegenError>)
        requires
            expr is FnCall,
            old(self)@.positioned(),
        ensures
            match r {
                Ok(v) => old(self)@.eval(expr@) == Ok::<(GenState, Value), CodegenError>(
                    (final(self)@, v),
                ) && follows(old(self)@, final(self)@) && final(self)@.scopes == old(self)@.scopes
                    && final(self)@.cur_block == old(self)@.cur_block,
                Err(e) => old(self)@.eval(expr@) == Err::<(GenState, Value), CodegenError>(e),
            },
        decreases expr, 0nat,
    {
        let ghost st0 = self@;
        let ghost ctx = st0.ctx();
        let ghost base = st0.next_index();
        match expr {
            Expr::FnCall { name, args } => {
                let callee = match self.unit.find_function(*name) {
                    None => {
                        return Err(CodegenError::UnboundName);
                    },
                    Some(callee) => callee,
                };
                let ghost av = exprs_view(args@);
                let mut values: Vec<Value> = Vec::new();
                let mut i: usize = 0;
                proof {
                    lemma_emit_nothing(st0);
                    lemma_emitted(st0, Seq::empty());
                }
                while i < args.len()
                    invariant
                        0 <= i <= args.len(),
                        lower_args(ctx, base, av, i as nat) is Ok,
                        self@ == st0.emit_all(lower_args(ctx, base, av, i as nat)->Ok_0.0),
                        values@ == lower_args(ctx, base, av, i as nat)->Ok_0.1,
                    decreases args.len() - i,
                {
                    let ghost code = lower_args(ctx, base, av, i as nat)->Ok_0.0;
                    proof {
                        lemma_emitted(st0, code);
                        assert(av[i as int] == expr_view(args@[i as int]));
                    }
                    match self.gen_expr(&args[i]) {
                        Err(err) => {
                            proof {
                                lemma_args_error_stays(
                                    ctx,
                                    base,
                                    av,
                                    (i + 1) as nat,
                                    args.len() as nat,
                                );
                            }
                            return Err(err);
                        },
                        Ok(v) => {
                            values.push(v);
                        },
                    }
                    proof {
                        let code1 = lower_expr(ctx, base + code.len(), av[i as int])->Ok_0.0;
                        lemma_emit_all_concat(st0, code, code1);
                    }
                    i += 1;
                }
                let ghost code = lower_args(ctx, base, av, args.len() as nat)->Ok_0.0;
                proof {
                    lemma_emitted(st0, code);
                }
                let ty = match self.unit.return_type(callee) {
                    None => {
                        return Err(CodegenError::UnsupportedType);
                    },
                    Some(ty) => ty,
                };
                let instr = Instr::Call { callee, args: values };
                let ghost iv = instr@;
                let index = self.emit(instr);
                proof {
                    lemma_emit_all_push(st0, code, iv);
                    lemma_emitted(st0, code.push(iv));
                }
                Ok(Value { ty, source: Operand::Inst { block: self.cur_block, index } })
            },
            _ => Ok(Value { ty: IrType::I32, source: Operand::Const(0) }),
        }
    }

    fn emit(&mut self, instr: Instr) -> (index: usize)
        requires
            old(self)@.positioned(),
        ensures
            final(self)@ == old(self)@.emit(instr@),
            index == old(self)@.next_index(),
            follows(old(self)@, final(self)@),
            final(self)@.cur_block == old(self)@.cur_block,
    {
        proof {
            lemma_emitted(self@, seq![instr@]);
        }
        self.unit.emit(self.cur_fn, self.cur_block, instr)
    }

    fn close_block(&mut self)
        requires
            old(self)@.positioned(),
        ensures
            final(self)@ == old(self)@.close(),
            follows(old(self)@, final(self)@),
            final(self)@.cur_block == old(self)@.cur_block,
    {
        if !self.unit.is_terminated(self.cur_fn, self.cur_block) {
            self.emit(Instr::Return { value: None });
        } else {
            proof {
                lemma_grows_refl(self@.unit);
            }
        }
    }

    fn fall_through_to(&mut self, target: usize)
        requires
            old(self)@.positioned(),
        ensures
            final(self)@ == old(self)@.fall_through_to(target as int),
            follows(old(self)@, final(self)@),
            final(self)@.cur_block == old(self)@.cur_block,
    {
        if !self.unit.is_terminated(self.cur_fn, self.cur_block) {
            self.emit(Instr::Jump { target });
        } else {
            proof {
                lemma_grows_refl(self@.unit);
            }
        }
    }

    fn bind(&mut self, name: &'a str, value: Value, is_mutable: bool) -> (r: Result<
        (),
        CodegenError,
    >)
        requires
            old(self)@.positioned(),
            old(self)@.scopes.len() > 0,
        ensures
            match r {
                Ok(()) => old(self)@.bind(name@, value, is_mutable) == Ok::<
                    GenState,
                    CodegenError,
                >(final(self)@) && follows(old(self)@, final(self)@) && final(self)@.scopes.drop_last() == old(self)@.scopes.drop_last() && final(self)@.cur_block
                    == old(self)@.cur_block,
                Err(e) => old(self)@.bind(name@, value, is_mutable) == Err::<
                    GenState,
                    CodegenError,
                >(e),
            },
    {
        let index = self.emit(Instr::Alloca { ty: value.ty });
        let ghost allocated = self@;
        let slot = Slot { block: self.cur_block, index };
        self.emit(Instr::Store { slot, value });
        proof {
            lemma_follows_trans(old(self)@, allocated, self@);
        }
        match self.env.declare_var(name, slot, value.ty, is_mutable) {
            Err(e) => Err(e),
            Ok(()) => {
                assert(self@.scopes.drop_last() =~= old(self)@.scopes.drop_last());
                Ok(())
            },
        }
    }
}

fn check_type(declared: Option<Type>, actual: IrType) -> (r: Result<(), CodegenError>)
    ensures
        r == check_declared(declared, actual),
{
    match declared {
        None => Ok(()),
        Some(t) => match map_ast_type(t) {
            Err(e) => Err(e),
            Ok(ty) => if ty == actual {
                Ok(())
            } else {
                Err(CodegenError::TypeMismatch)
            },
        },
    }
}

} // verus!
