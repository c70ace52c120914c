//! Facts about lowering that hold of every program: what a block does to
//! the scopes, what an assignment needs of its target, and how the body of
//! a function ends.

use crate::ast::{ExprView, ParamView, StmtView, Type};
use crate::error::CodegenError;
use crate::ir::{InstrView, Operand, Slot, Value};
use crate::lower::{
    default_value, follows, grows, lemma_emit_all_basics, lemma_follows_trans,
    lemma_grows_keeps_block, lemma_grows_refl, lemma_grows_trans, lower_block, lower_branch,
    lower_expr, lower_fn_decl, lower_if, lower_param_types, lower_return_type, lower_stmt,
    lower_stmts, lower_type, GenState,
};
use crate::scope::{resolve, VariableInfo};
use vstd::prelude::*;

verus! {

/// Emitting code lets the new state follow the old one.
pub proof fn lemma_emit_follows(st: GenState, code: Seq<InstrView>)
    requires
        st.positioned(),
    ensures
        follows(st, st.emit_all(code)),
        st.emit_all(code).scopes == st.scopes,
        st.emit_all(code).cur_block == st.cur_block,
{
    reveal(grows);
    lemma_emit_all_basics(st, code);
}

/// Evaluating an expression lets the new state follow the old one, at the
/// same block and with the same scopes.
pub proof fn lemma_eval_follows(st: GenState, e: ExprView)
    requires
        st.positioned(),
        st.eval(e) is Ok,
    ensures
        follows(st, st.eval(e)->Ok_0.0),
        st.eval(e)->Ok_0.0.scopes == st.scopes,
        st.eval(e)->Ok_0.0.cur_block == st.cur_block,
{
    lemma_emit_follows(st, lower_expr(st.ctx(), st.next_index(), e)->Ok_0.0);
}

/// Making a variable binds its name in the innermost scope, to a slot of the
/// value's type, and changes no other scope.
pub proof fn lemma_bind_follows(st: GenState, name: Seq<char>, value: Value, is_mutable: bool)
    requires
        st.positioned(),
        st.scopes.len() > 0,
        st.bind(name, value, is_mutable) is Ok,
    ensures
        follows(st, st.bind(name, value, is_mutable)->Ok_0),
        st.bind(name, value, is_mutable)->Ok_0.cur_block == st.cur_block,
        st.bind(name, value, is_mutable)->Ok_0.scopes.drop_last() == st.scopes.drop_last(),
        resolve(st.bind(name, value, is_mutable)->Ok_0.scopes, name) == Some(
            VariableInfo {
                slot: Slot { block: st.cur_block as usize, index: st.next_index() as usize },
                ty: value.ty,
                is_mutable,
            },
        ),
{
    let slot = Slot { block: st.cur_block as usize, index: st.next_index() as usize };
    let allocated = st.emit(InstrView::Alloca { ty: value.ty });
    let stored = allocated.emit(InstrView::Store { slot, value });
    lemma_emit_follows(st, seq![InstrView::Alloca { ty: value.ty }]);
    lemma_emit_follows(allocated, seq![InstrView::Store { slot, value }]);
    lemma_follows_trans(st, allocated, stored);
    let bound = st.bind(name, value, is_mutable)->Ok_0;
    assert(bound.scopes.drop_last() =~= st.scopes.drop_last());
}

pub(crate) proof fn lemma_bind_params_follows(st: GenState, params: Seq<ParamView>, n: nat)
    requires
        st.positioned(),
        st.scopes.len() > 0,
        st.bind_params(params, n) is Ok,
    ensures
        follows(st, st.bind_params(params, n)->Ok_0),
        st.bind_params(params, n)->Ok_0.cur_block == st.cur_block,
        st.bind_params(params, n)->Ok_0.scopes.drop_last() == st.scopes.drop_last(),
    decreases n,
{
    if n == 0 || n > params.len() {
        lemma_grows_refl(st.unit);
    } else {
        lemma_bind_params_follows(st, params, (n - 1) as nat);
        let st1 = st.bind_params(params, (n - 1) as nat)->Ok_0;
        let ty = lower_type(params[n - 1].ty)->Ok_0;
        let value = Value { ty, source: Operand::Param((n - 1) as usize) };
        lemma_bind_follows(st1, params[n - 1].name, value, false);
        lemma_follows_trans(st, st1, st1.bind(params[n - 1].name, value, false)->Ok_0);
    }
}

/// A statement lets the new state follow the old one and changes the
/// innermost scope only.
pub proof fn lemma_stmt_follows(st: GenState, s: StmtView, tail: bool)
    requires
        st.positioned(),
        st.scopes.len() > 0,
        lower_stmt(st, s, tail) is Ok,
    ensures
        follows(st, lower_stmt(st, s, tail)->Ok_0),
        lower_stmt(st, s, tail)->Ok_0.scopes.drop_last() == st.scopes.drop_last(),
    decreases s, 1nat, 0nat,
{
    match s {
        StmtView::ExprStmt { expr } => {
            lemma_eval_follows(st, expr);
        },
        StmtView::Expr { expr } => {
            lemma_eval_follows(st, expr);
            let (st1, v) = st.eval(expr)->Ok_0;
            if tail {
                lemma_emit_follows(st1, seq![InstrView::Return { value: Some(v) }]);
                lemma_follows_trans(st, st1, st1.emit(InstrView::Return { value: Some(v) }));
            }
        },
        StmtView::Return { expr } => match expr {
            None => {
                lemma_emit_follows(st, seq![InstrView::Return { value: None }]);
            },
            Some(e) => {
                lemma_eval_follows(st, e);
                let (st1, v) = st.eval(e)->Ok_0;
                lemma_emit_follows(st1, seq![InstrView::Return { value: Some(v) }]);
                lemma_follows_trans(st, st1, st1.emit(InstrView::Return { value: Some(v) }));
            },
        },
        StmtView::Assign { name, value } => {
            lemma_eval_follows(st, value);
            let info = resolve(st.scopes, name)->Some_0;
            let (st1, v) = st.eval(value)->Ok_0;
            let store = InstrView::Store { slot: info.slot, value: v };
            lemma_emit_follows(st1, seq![store]);
            lemma_follows_trans(st, st1, st1.emit(store));
        },
        StmtView::LetDecl { name, ty, value } => {
            let e = value->Some_0;
            lemma_eval_follows(st, e);
            let (st1, v) = st.eval(e)->Ok_0;
            lemma_bind_follows(st1, name, v, false);
            lemma_follows_trans(st, st1, st1.bind(name, v, false)->Ok_0);
        },
        StmtView::VarDecl { name, ty, value } => match value {
            Some(e) => {
                lemma_eval_follows(st, e);
                let (st1, v) = st.eval(e)->Ok_0;
                lemma_bind_follows(st1, name, v, true);
                lemma_follows_trans(st, st1, st1.bind(name, v, true)->Ok_0);
            },
            None => {
                let v = default_value(ty->Some_0)->Ok_0;
                lemma_bind_follows(st, name, v, true);
            },
        },
        StmtView::If { .. } => {
            lemma_if_follows(st, s, tail);
        },
        StmtView::FnDecl { .. } => {
            lemma_fn_decl_follows(st, s);
        },
    }
}

/// A conditional lets the new state follow the old one and leaves the
/// scopes as they are.
#[verifier::rlimit(30)]
pub proof fn lemma_if_follows(st: GenState, s: StmtView, tail: bool)
    requires
        st.positioned(),
        s is If,
        lower_if(st, s, tail) is Ok,
    ensures
        follows(st, lower_if(st, s, tail)->Ok_0),
        lower_if(st, s, tail)->Ok_0.scopes == st.scopes,
    decreases s, 0nat, 0nat,
{
    match s {
        StmtView::If { condition, then_branch, else_branch } => {
            let then_b = st.block_count();
            let else_target = st.block_count() + 1;
            let merge_b = if else_branch is Some {
                st.block_count() + 2
            } else {
                st.block_count() + 1
            };
            let st0 = st.open_conditional(else_branch is Some);
            assert(follows(st, st0) && st0.unit.has_block(st.cur_fn, then_b)
                && st0.unit.has_block(st.cur_fn, else_target) && st0.unit.has_block(
                st.cur_fn,
                merge_b,
            )) by {
                reveal(grows);
            }
            lemma_eval_follows(st0, condition);
            let (st1, c) = st0.eval(condition)->Ok_0;
            let branch = InstrView::Branch {
                cond: c,
                then_target: then_b as usize,
                else_target: else_target as usize,
            };
            let st2 = st1.emit(branch);
            assert(st.begin_conditional(condition, else_branch is Some) == Ok::<
                GenState,
                CodegenError,
            >(st2));
            lemma_emit_follows(st1, seq![branch]);
            lemma_follows_trans(st0, st1, st2);
            lemma_grows_keeps_block(st0.unit, st2.unit, st.cur_fn, then_b);
            lemma_branch_follows(st2, then_b, then_branch, merge_b, tail);
            let (st3, then_ends) = lower_branch(st2, then_b, then_branch, merge_b, tail)->Ok_0;
            lemma_follows_trans(st0, st2, st3);
            lemma_grows_keeps_block(st0.unit, st3.unit, st.cur_fn, merge_b);
            lemma_grows_keeps_block(st0.unit, st3.unit, st.cur_fn, else_target);
            match else_branch {
                None => {
                    lemma_close_conditional(st3, merge_b, false);
                    lemma_grows_trans(st.unit, st0.unit, st3.unit);
                },
                Some(stmts) => {
                    lemma_branch_follows(st3, else_target, stmts, merge_b, tail);
                    let (st4, else_ends) = lower_branch(
                        st3,
                        else_target,
                        stmts,
                        merge_b,
                        tail,
                    )->Ok_0;
                    lemma_follows_trans(st0, st3, st4);
                    lemma_grows_keeps_block(st0.unit, st4.unit, st.cur_fn, merge_b);
                    let prune = tail && then_ends && else_ends;
                    lemma_close_conditional(st4, merge_b, prune);
                    lemma_grows_trans(st.unit, st0.unit, st4.unit);
                    lemma_grows_trans(
                        st.unit,
                        st4.unit,
                        st4.close_conditional(merge_b, prune).unit,
                    );
                },
            }
        },
        _ => {},
    }
}

pub(crate) proof fn lemma_close_conditional(st: GenState, merge: int, prune: bool)
    requires
        st.unit.has_block(st.cur_fn, merge),
    ensures
        st.close_conditional(merge, prune).positioned(),
        grows(st.unit, st.close_conditional(merge, prune).unit),
{
    reveal(grows);
}

pub(crate) proof fn lemma_branch_follows(
    st: GenState,
    block: int,
    stmts: Seq<StmtView>,
    merge: int,
    tail: bool,
)
    requires
        st.positioned(),
        st.unit.has_block(st.cur_fn, block),
        lower_branch(st, block, stmts, merge, tail) is Ok,
    ensures
        follows(st, lower_branch(st, block, stmts, merge, tail)->Ok_0.0),
        lower_branch(st, block, stmts, merge, tail)->Ok_0.0.scopes == st.scopes,
    decreases stmts, 3nat, 0nat,
{
    let start = st.at(st.cur_fn, block);
    lemma_block_follows(start, stmts, tail);
    let st1 = lower_block(start, stmts, tail)->Ok_0;
    if st1.terminated() {
    } else {
        lemma_emit_follows(st1, seq![InstrView::Jump { target: merge as usize }]);
        lemma_follows_trans(start, st1, st1.fall_through_to(merge));
    }
}

/// A function declaration lets the new state follow the old one: the
/// generator stands where it stood, and the scopes are as they were.
pub proof fn lemma_fn_decl_follows(st: GenState, s: StmtView)
    requires
        st.positioned(),
        s is FnDecl,
        lower_fn_decl(st, s) is Ok,
    ensures
        follows(st, lower_fn_decl(st, s)->Ok_0),
        lower_fn_decl(st, s)->Ok_0.scopes == st.scopes,
        lower_fn_decl(st, s)->Ok_0.cur_block == st.cur_block,
    decreases s, 0nat, 0nat,
{
    match s {
        StmtView::FnDecl { name, params, ty, body } => {
            let param_types = lower_param_types(params)->Ok_0;
            let ret = lower_return_type(ty)->Ok_0;
            let entered = st.enter_function(name, param_types, ret);
            assert(entered.positioned() && grows(st.unit, entered.unit)) by {
                reveal(grows);
            }
            lemma_bind_params_follows(entered, params, params.len());
            let st1 = entered.bind_params(params, params.len())->Ok_0;
            lemma_block_follows(st1, body, true);
            let st2 = lower_block(st1, body, true)->Ok_0;
            lemma_follows_trans(entered, st1, st2);
            lemma_grows_trans(st.unit, entered.unit, st2.unit);
            if !st2.terminated() {
                lemma_emit_follows(st2, seq![InstrView::Return { value: None }]);
            } else {
                lemma_grows_refl(st2.unit);
            }
            lemma_grows_trans(st.unit, st2.unit, st2.close().unit);
            lemma_grows_keeps_block(st.unit, st2.close().unit, st.cur_fn, st.cur_block);
            assert(st2.scopes.drop_last() == entered.scopes.drop_last());
            assert(entered.scopes.drop_last() =~= st.scopes);
        },
        _ => {},
    }
}

pub(crate) proof fn lemma_stmts_follow(st: GenState, stmts: Seq<StmtView>, i: nat, tail: bool)
    requires
        st.positioned(),
        st.scopes.len() > 0,
        lower_stmts(st, stmts, i, tail) is Ok,
    ensures
        follows(st, lower_stmts(st, stmts, i, tail)->Ok_0),
        lower_stmts(st, stmts, i, tail)->Ok_0.scopes.drop_last() == st.scopes.drop_last(),
    decreases stmts, 1nat, stmts.len() - i,
{
    if i >= stmts.len() {
        lemma_grows_refl(st.unit);
    } else {
        let last = tail && i == stmts.len() - 1;
        lemma_stmt_follows(st, stmts[i as int], last);
        let st1 = lower_stmt(st, stmts[i as int], last)->Ok_0;
        lemma_stmts_follow(st1, stmts, i + 1, tail);
        lemma_follows_trans(st, st1, lower_stmts(st1, stmts, i + 1, tail)->Ok_0);
    }
}

/// A block lets the new state follow the old one and leaves the scopes as
/// they are: what is declared in the block is out of sight when it ends.
pub proof fn lemma_block_follows(st: GenState, stmts: Seq<StmtView>, tail: bool)
    requires
        st.positioned(),
        lower_block(st, stmts, tail) is Ok,
    ensures
        follows(st, lower_block(st, stmts, tail)->Ok_0),
        lower_block(st, stmts, tail)->Ok_0.scopes == st.scopes,
    decreases stmts, 2nat, 0nat,
{
    let entered = GenState { scopes: st.scopes.push(Map::empty()), ..st };
    lemma_stmts_follow(entered, stmts, 0, tail);
    assert(entered.scopes.drop_last() =~= st.scopes);
}

/// A variable that is declared inside a conditional is out of sight after
/// it: the scopes after a conditional are those before it, so a name that
/// nothing bound before is unbound after.
pub proof fn lemma_names_of_a_branch_end_with_it(
    st: GenState,
    s: StmtView,
    tail: bool,
    name: Seq<char>,
)
    requires
        st.positioned(),
        s is If,
        lower_stmt(st, s, tail) is Ok,
        resolve(st.scopes, name) is None,
    ensures
        lower_stmt(st, s, tail)->Ok_0.scopes == st.scopes,
        lower_stmt(st, s, tail)->Ok_0.eval(ExprView::VarRef { name }) == Err::<
            (GenState, Value),
            CodegenError,
        >(CodegenError::UnboundName),
{
    lemma_if_follows(st, s, tail);
}

/// An assignment to a name whose binding in sight is immutable fails with
/// `ImmutableAssignment`, whatever is assigned.
pub proof fn lemma_assignment_to_immutable_fails(
    st: GenState,
    name: Seq<char>,
    value: ExprView,
    tail: bool,
)
    requires
        resolve(st.scopes, name) matches Some(info) && !info.is_mutable,
    ensures
        lower_stmt(st, StmtView::Assign { name, value }, tail) == Err::<GenState, CodegenError>(
            CodegenError::ImmutableAssignment,
        ),
{
}

/// A name declared with `let` cannot be assigned to: after the
/// declaration, every assignment to the name fails with
/// `ImmutableAssignment`.
pub proof fn lemma_assignment_after_let_fails(
    st: GenState,
    name: Seq<char>,
    ty: Option<Type>,
    init: Option<ExprView>,
    value: ExprView,
    tail: bool,
)
    requires
        st.positioned(),
        st.scopes.len() > 0,
        lower_stmt(st, StmtView::LetDecl { name, ty, value: init }, false) is Ok,
    ensures
        lower_stmt(
            lower_stmt(st, StmtView::LetDecl { name, ty, value: init }, false)->Ok_0,
            StmtView::Assign { name, value },
            tail,
        ) == Err::<GenState, CodegenError>(CodegenError::ImmutableAssignment),
{
    let e = init->Some_0;
    lemma_eval_follows(st, e);
    let (st1, v) = st.eval(e)->Ok_0;
    lemma_bind_follows(st1, name, v, false);
}

/// A name declared with `var` can be assigned a value of the type of the
/// variable: after the declaration, an assignment to the name succeeds if
/// its right-hand side can be evaluated and is of that type. It stores the
/// value in the slot of the variable.
pub proof fn lemma_assignment_after_var_succeeds(
    st: GenState,
    name: Seq<char>,
    ty: Option<Type>,
    init: Option<ExprView>,
    value: ExprView,
    tail: bool,
)
    requires
        st.positioned(),
        st.scopes.len() > 0,
        lower_stmt(st, StmtView::VarDecl { name, ty, value: init }, false) is Ok,
        lower_stmt(st, StmtView::VarDecl { name, ty, value: init }, false)->Ok_0.eval(value) is Ok,
        resolve(lower_stmt(st, StmtView::VarDecl { name, ty, value: init }, false)->Ok_0.scopes, name)
            matches Some(info) ==> lower_stmt(
            st,
            StmtView::VarDecl { name, ty, value: init },
            false,
        )->Ok_0.eval(value)->Ok_0.1.ty == info.ty,
    ensures
        resolve(lower_stmt(st, StmtView::VarDecl { name, ty, value: init }, false)->Ok_0.scopes, name)
            matches Some(info) && info.is_mutable && lower_stmt(
            lower_stmt(st, StmtView::VarDecl { name, ty, value: init }, false)->Ok_0,
            StmtView::Assign { name, value },
            tail,
        ) == Ok::<GenState, CodegenError>(
            lower_stmt(st, StmtView::VarDecl { name, ty, value: init }, false)->Ok_0.eval(
                value,
            )->Ok_0.0.emit(
                InstrView::Store {
                    slot: info.slot,
                    value: lower_stmt(
                        st,
                        StmtView::VarDecl { name, ty, value: init },
                        false,
                    )->Ok_0.eval(value)->Ok_0.1,
                },
            ),
        ),
{
    match init {
        Some(e) => {
            lemma_eval_follows(st, e);
            let (st1, v) = st.eval(e)->Ok_0;
            lemma_bind_follows(st1, name, v, true);
        },
        None => {
            let v = default_value(ty->Some_0)->Ok_0;
            lemma_bind_follows(st, name, v, true);
        },
    }
}

/// The statements of a block before its last are not in tail position, and
/// its last statement is in tail position if the block is.
pub proof fn lemma_last_statement_of_block(st: GenState, stmts: Seq<StmtView>, i: nat, tail: bool)
    requires
        i < stmts.len(),
    ensures
        lower_stmts(st, stmts, i, tail) == match lower_stmts(st, stmts.drop_last(), i, false) {
            Err(err) => Err(err),
            Ok(st1) => lower_stmt(st1, stmts.last(), tail),
        },
    decreases stmts.len() - i,
{
    let front = stmts.drop_last();
    if i == stmts.len() - 1 {
        match lower_stmt(st, stmts[i as int], tail) {
            Err(_) => {},
            Ok(st1) => {
                assert(lower_stmts(st1, stmts, i + 1, tail) == Ok::<GenState, CodegenError>(st1));
            },
        }
    } else {
        assert(front[i as int] == stmts[i as int]);
        match lower_stmt(st, stmts[i as int], false) {
            Err(_) => {},
            Ok(st1) => {
                lemma_last_statement_of_block(st1, stmts, i + 1, tail);
            },
        }
    }
}

/// A bare expression in tail position is returned: the block under
/// construction ends in the code of the expression and a return of its
/// value.
pub proof fn lemma_tail_expression_is_returned(st: GenState, e: ExprView)
    requires
        st.positioned(),
        lower_stmt(st, StmtView::Expr { expr: e }, true) is Ok,
    ensures
        st.eval(e) is Ok,
        lower_stmt(st, StmtView::Expr { expr: e }, true)->Ok_0.here().instrs == st.eval(
            e,
        )->Ok_0.0.here().instrs.push(InstrView::Return { value: Some(st.eval(e)->Ok_0.1) }),
        lower_stmt(st, StmtView::Expr { expr: e }, true)->Ok_0.terminated(),
{
    lemma_eval_follows(st, e);
    let (st1, v) = st.eval(e)->Ok_0;
    let ret = InstrView::Return { value: Some(v) };
    lemma_emit_all_basics(st1, seq![ret]);
    assert(st1.here().instrs + seq![ret] =~= st1.here().instrs.push(ret));
}

/// The state in which the statements of the body of the function
/// declaration `s` are lowered: the parameters are variables, and the scope
/// of the body is open.
pub open spec fn body_entry(st: GenState, s: StmtView) -> GenState
    recommends
        s is FnDecl,
        lower_fn_decl(st, s) is Ok,
{
    match s {
        StmtView::FnDecl { name, params, ty, body } => {
            let bound = st.enter_function(
                name,
                lower_param_types(params)->Ok_0,
                lower_return_type(ty)->Ok_0,
            ).bind_params(params, params.len())->Ok_0;
            GenState { scopes: bound.scopes.push(Map::empty()), ..bound }
        },
        _ => st,
    }
}

/// A function whose body ends in a bare expression returns the value of
/// that expression: the block at which the statements before the
/// expression end is, in the unit with the function, the code up to there,
/// the code of the expression, and a return of its value.
pub proof fn lemma_function_returns_tail_value(st: GenState, s: StmtView)
    requires
        st.positioned(),
        s matches StmtView::FnDecl { body, .. } && body.len() > 0 && body.last() is Expr,
        lower_fn_decl(st, s) is Ok,
    ensures
        s matches StmtView::FnDecl { body, .. } && body.last() matches StmtView::Expr { expr }
            && lower_stmts(body_entry(st, s), body.drop_last(), 0, false) matches Ok(before)
            && before.eval(expr) matches Ok((evaluated, v)) && lower_fn_decl(
            st,
            s,
        )->Ok_0.unit.block(before.cur_fn, before.cur_block).instrs
            == evaluated.here().instrs.push(InstrView::Return { value: Some(v) }),
{
    match s {
        StmtView::FnDecl { name, params, ty, body } => {
            let entered = st.enter_function(
                name,
                lower_param_types(params)->Ok_0,
                lower_return_type(ty)->Ok_0,
            );
            assert(entered.positioned());
            lemma_bind_params_follows(entered, params, params.len());
            let start = body_entry(st, s);
            lemma_last_statement_of_block(start, body, 0, true);
            let before = lower_stmts(start, body.drop_last(), 0, false)->Ok_0;
            lemma_stmts_follow(start, body.drop_last(), 0, false);
            let expr = body.last()->Expr_expr;
            lemma_tail_expression_is_returned(before, expr);
        },
        _ => {},
    }
}

/// A function whose body control can run off returns nothing there: the
/// block at which the body ends is, in the unit with the function, closed by
/// a void return. A block that control cannot run off is left as it is.
pub proof fn lemma_function_body_is_closed(st: GenState, s: StmtView)
    requires
        st.positioned(),
        s is FnDecl,
        lower_fn_decl(st, s) is Ok,
    ensures
        lower_stmts(body_entry(st, s), s->FnDecl_body, 0, true) matches Ok(end) && ({
            let block = lower_fn_decl(st, s)->Ok_0.unit.block(end.cur_fn, end.cur_block);
            &&& block.terminated()
            &&& end.terminated() ==> block == end.here()
            &&& !end.terminated() ==> block.instrs == end.here().instrs.push(
                InstrView::Return { value: None },
            )
        }),
{
    match s {
        StmtView::FnDecl { name, params, ty, body } => {
            let entered = st.enter_function(
                name,
                lower_param_types(params)->Ok_0,
                lower_return_type(ty)->Ok_0,
            );
            assert(entered.positioned());
            lemma_bind_params_follows(entered, params, params.len());
            let start = body_entry(st, s);
            lemma_stmts_follow(start, body, 0, true);
            let end = lower_stmts(start, body, 0, true)->Ok_0;
            let ret = InstrView::Return { value: None };
            lemma_emit_all_basics(end, seq![ret]);
            assert(end.here().instrs + seq![ret] =~= end.here().instrs.push(ret));
        },
        _ => {},
    }
}

} // verus!
