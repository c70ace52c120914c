//! The control flow of lowered code: every block that lowering leaves
//! behind ends in a terminator, and lowering changes what it finds only at
//! the end of the block under construction.

use crate::ast::{ExprView, ParamView, StmtView};
use crate::error::CodegenError;
use crate::ir::{BlockLabel, InstrView, IrType, Operand, Slot, UnitView, Value};
use crate::laws::{
    lemma_bind_follows, lemma_block_follows, lemma_emit_follows, lemma_fn_decl_follows,
    lemma_if_follows,
};
use crate::lower::{
    default_value, follows, grows, lemma_emit_all_basics, lemma_follows_trans,
    lemma_grows_keeps_block, lemma_grows_refl, lower_args, lower_block, lower_branch,
    lower_expr, lower_fn_decl, lower_if, lower_param_types, lower_program, lower_return_type,
    lower_stmt, lower_stmts, lower_type, ExprCtx, GenState,
};
use crate::scope::resolve;
use vstd::prelude::*;

verus! {

/// Whether `after` holds what `before` holds, and more only at the end of
/// block `c` of function `f`, in new blocks, and in new functions.
#[verifier::opaque]
pub open spec fn appends_at(before: UnitView, after: UnitView, f: int, c: int) -> bool {
    &&& before.functions.len() <= after.functions.len()
    &&& forall|g: int|
        0 <= g < before.functions.len() ==> before.functions[g].blocks.len()
            <= #[trigger] after.functions[g].blocks.len() && (g != f
            ==> before.functions[g].blocks.len() == after.functions[g].blocks.len())
    &&& forall|g: int, d: int|
        before.has_block(g, d) && !(g == f && d == c) ==> #[trigger] after.block(g, d)
            == before.block(g, d)
    &&& before.has_block(f, c) ==> {
        &&& after.block(f, c).label == before.block(f, c).label
        &&& after.block(f, c).pruned == before.block(f, c).pruned
        &&& before.block(f, c).instrs.len() <= after.block(f, c).instrs.len()
        &&& after.block(f, c).instrs.take(before.block(f, c).instrs.len() as int) == before.block(
            f,
            c,
        ).instrs
    }
}

/// Whether every block of `after` that is no block of `before` is closed,
/// but for those in `open`.
#[verifier::opaque]
pub open spec fn closed_but(before: UnitView, after: UnitView, open: Set<(int, int)>) -> bool {
    forall|g: int, d: int|
        after.has_block(g, d) && !before.has_block(g, d) && !open.contains((g, d))
            ==> #[trigger] after.block(g, d).terminated()
}

/// Whether lowering can lead from `st` to `after` within one function body:
/// `after` follows `st`; the unit has changed only at the end of the block
/// at which `st` stands; the generator stands at that block still, or at a
/// new one, and then the first is closed; and every other new block is
/// closed.
pub open spec fn leads_to(st: GenState, after: GenState) -> bool {
    &&& follows(st, after)
    &&& appends_at(st.unit, after.unit, st.cur_fn, st.cur_block)
    &&& closed_but(st.unit, after.unit, set![(after.cur_fn, after.cur_block)])
    &&& after.cur_block == st.cur_block || !st.unit.has_block(st.cur_fn, after.cur_block)
    &&& after.cur_block != st.cur_block ==> after.unit.block(st.cur_fn, st.cur_block).terminated()
}

/// A block of `before` other than the one that is appended to is the same
/// block in `after`.
pub proof fn lemma_appends_keeps(before: UnitView, after: UnitView, f: int, c: int, g: int, d: int)
    requires
        appends_at(before, after, f, c),
        before.has_block(g, d),
    ensures
        after.has_block(g, d),
        !(g == f && d == c) ==> after.block(g, d) == before.block(g, d),
        after.block(g, d).pruned == before.block(g, d).pruned,
        after.block(g, d).label == before.block(g, d).label,
        before.block(g, d).instrs.len() <= after.block(g, d).instrs.len(),
{
    reveal(appends_at);
    assert(before.functions[g].blocks.len() <= after.functions[g].blocks.len());
    if !(g == f && d == c) {
        assert(after.block(g, d) == before.block(g, d));
    }
}

/// Nothing is appended where nothing changes.
pub proof fn lemma_appends_refl(unit: UnitView, f: int, c: int)
    ensures
        appends_at(unit, unit, f, c),
        closed_but(unit, unit, set![(f, c)]),
{
    reveal(appends_at);
    reveal(closed_but);
    if unit.has_block(f, c) {
        assert(unit.block(f, c).instrs.take(unit.block(f, c).instrs.len() as int)
            =~= unit.block(f, c).instrs);
    }
}

/// Appending twice at one block is appending at that block.
pub proof fn lemma_appends_trans(
    a: UnitView,
    b: UnitView,
    c: UnitView,
    f: int,
    x: int,
    h: int,
    y: int,
)
    requires
        appends_at(a, b, f, x),
        appends_at(b, c, h, y),
        (h == f && y == x) || !a.has_block(h, y),
        h == f || h >= a.functions.len(),
    ensures
        appends_at(a, c, f, x),
{
    reveal(appends_at);
    assert forall|g: int| 0 <= g < a.functions.len() implies a.functions[g].blocks.len()
        <= #[trigger] c.functions[g].blocks.len() && (g != f ==> a.functions[g].blocks.len()
        == c.functions[g].blocks.len()) by {
        assert(a.functions[g].blocks.len() <= b.functions[g].blocks.len());
        assert(b.functions[g].blocks.len() <= c.functions[g].blocks.len());
    }
    assert forall|g: int, d: int| a.has_block(g, d) && !(g == f && d == x) implies #[trigger] c.block(
        g,
        d,
    ) == a.block(g, d) by {
        assert(a.functions[g].blocks.len() <= b.functions[g].blocks.len());
        assert(b.block(g, d) == a.block(g, d));
        assert(c.block(g, d) == b.block(g, d));
    }
    if a.has_block(f, x) {
        assert(a.functions[f].blocks.len() <= b.functions[f].blocks.len());
        let old = a.block(f, x).instrs;
        let mid = b.block(f, x).instrs;
        let new = c.block(f, x).instrs;
        if h == f && y == x {
            assert(new.take(old.len() as int) =~= new.take(mid.len() as int).take(
                old.len() as int,
            ));
        } else {
            assert(c.block(f, x) == b.block(f, x));
        }
    }
}

/// Emitting code appends at the block under construction and makes no
/// block.
pub proof fn lemma_emit_leads(st: GenState, code: Seq<InstrView>)
    requires
        st.positioned(),
    ensures
        leads_to(st, st.emit_all(code)),
{
    reveal(appends_at);
    reveal(closed_but);
    lemma_emit_follows(st, code);
    lemma_emit_all_basics(st, code);
    let old = st.here().instrs;
    assert((old + code).take(old.len() as int) =~= old);
}

/// What two steps of lowering lead to, the first leads to.
pub proof fn lemma_leads_trans(a: GenState, b: GenState, c: GenState)
    requires
        a.positioned(),
        leads_to(a, b),
        leads_to(b, c),
    ensures
        leads_to(a, c),
{
    lemma_follows_trans(a, b, c);
    lemma_appends_trans(a.unit, b.unit, c.unit, a.cur_fn, a.cur_block, a.cur_fn, b.cur_block);
    let f = a.cur_fn;
    // where the generator stands in the end
    if c.cur_block != b.cur_block {
        if a.unit.has_block(f, c.cur_block) {
            lemma_appends_keeps(a.unit, b.unit, f, a.cur_block, f, c.cur_block);
        }
    }
    // the block at which it stood first
    if c.cur_block != a.cur_block {
        if b.cur_block != a.cur_block {
            lemma_appends_keeps(b.unit, c.unit, f, b.cur_block, f, a.cur_block);
        }
    }
    // the new blocks
    lemma_closed_after(
        a.unit,
        b.unit,
        c.unit,
        set![(b.cur_fn, b.cur_block)],
        set![(c.cur_fn, c.cur_block)],
        f,
        b.cur_block,
    );
    lemma_closed_but_more(
        a.unit,
        c.unit,
        set![(b.cur_fn, b.cur_block)].remove((f, b.cur_block)).union(
            set![(c.cur_fn, c.cur_block)],
        ),
        set![(c.cur_fn, c.cur_block)],
    );
}

/// After a step of lowering that starts at block `x` of function `f`, the
/// blocks that are new since `a` are closed but for those that the step
/// leaves open, and those that were open before and are not `x`. Block `x`
/// itself is closed if the step has closed it.
pub proof fn lemma_closed_after(
    a: UnitView,
    b: UnitView,
    c: UnitView,
    open_before: Set<(int, int)>,
    open_after: Set<(int, int)>,
    f: int,
    x: int,
)
    requires
        closed_but(a, b, open_before),
        appends_at(b, c, f, x),
        closed_but(b, c, open_after),
        b.has_block(f, x),
        open_after.contains((f, x)) || c.block(f, x).terminated() || a.has_block(f, x),
    ensures
        closed_but(a, c, open_before.remove((f, x)).union(open_after)),
{
    reveal(closed_but);
    let open = open_before.remove((f, x)).union(open_after);
    assert forall|g: int, d: int|
        c.has_block(g, d) && !a.has_block(g, d) && !open.contains((g, d)) implies #[trigger] c.block(
        g,
        d,
    ).terminated() by {
        if b.has_block(g, d) {
            lemma_appends_keeps(b, c, f, x, g, d);
            if !(g == f && d == x) {
                assert(!open_before.contains((g, d)));
                assert(b.block(g, d).terminated());
            }
        } else {
            assert(!open_after.contains((g, d)));
        }
    }
}

/// The blocks that are open may be more than are said to be.
pub proof fn lemma_closed_but_more(
    a: UnitView,
    b: UnitView,
    open: Set<(int, int)>,
    more: Set<(int, int)>,
)
    requires
        closed_but(a, b, open),
        open.subset_of(more),
    ensures
        closed_but(a, b, more),
{
    reveal(closed_but);
}

/// A block that is closed, or is no new block, need not be among the open
/// ones.
pub proof fn lemma_closed_but_less(
    a: UnitView,
    b: UnitView,
    open: Set<(int, int)>,
    g: int,
    d: int,
)
    requires
        closed_but(a, b, open),
        a.has_block(g, d) || !b.has_block(g, d) || b.block(g, d).terminated(),
    ensures
        closed_but(a, b, open.remove((g, d))),
{
    reveal(closed_but);
}

/// Appending an empty block changes no block and makes one, which is open.
pub proof fn lemma_append_block(unit: UnitView, f: int, label: BlockLabel, c: int)
    requires
        0 <= f < unit.functions.len(),
    ensures
        appends_at(unit, unit.append_block(f, label), f, c),
        closed_but(
            unit,
            unit.append_block(f, label),
            set![(f, unit.functions[f].blocks.len() as int)],
        ),
        unit.append_block(f, label).functions.len() == unit.functions.len(),
        unit.append_block(f, label).functions[f].blocks.len() == unit.functions[f].blocks.len()
            + 1,
        !unit.append_block(f, label).block(f, unit.functions[f].blocks.len() as int).terminated(),
        !unit.append_block(f, label).block(f, unit.functions[f].blocks.len() as int).pruned,
{
    reveal(appends_at);
    reveal(closed_but);
    let after = unit.append_block(f, label);
    if unit.has_block(f, c) {
        assert(after.block(f, c).instrs.take(unit.block(f, c).instrs.len() as int)
            =~= unit.block(f, c).instrs);
    }
}

/// Pruning a block that is new changes no block that is not.
pub proof fn lemma_appends_prune(a: UnitView, b: UnitView, f: int, x: int, m: int)
    requires
        appends_at(a, b, f, x),
        !a.has_block(f, m),
        b.has_block(f, m),
    ensures
        appends_at(a, b.prune(f, m), f, x),
        forall|open: Set<(int, int)>|
            closed_but(a, b, open) ==> #[trigger] closed_but(a, b.prune(f, m), open),
        b.prune(f, m).block(f, m).terminated(),
        forall|d: int|
            b.has_block(f, d) ==> b.prune(f, m).has_block(f, d) && (#[trigger] b.prune(f, m).block(
                f,
                d,
            ).terminated() <== b.block(f, d).terminated()),
{
    reveal(appends_at);
    reveal(closed_but);
    let p = b.prune(f, m);
    assert forall|g: int| 0 <= g < a.functions.len() implies a.functions[g].blocks.len()
        <= #[trigger] p.functions[g].blocks.len() && (g != f ==> a.functions[g].blocks.len()
        == p.functions[g].blocks.len()) by {
        assert(a.functions[g].blocks.len() <= b.functions[g].blocks.len());
    }
    assert forall|g: int, d: int| a.has_block(g, d) && !(g == f && d == x) implies #[trigger] p.block(
        g,
        d,
    ) == a.block(g, d) by {
        assert(a.functions[g].blocks.len() <= b.functions[g].blocks.len());
        assert(b.block(g, d) == a.block(g, d));
    }
    if a.has_block(f, x) {
        assert(a.functions[f].blocks.len() <= b.functions[f].blocks.len());
        assert(p.block(f, x) == b.block(f, x));
    }
    assert forall|open: Set<(int, int)>| closed_but(a, b, open) implies #[trigger] closed_but(
        a,
        p,
        open,
    ) by {
        assert forall|g: int, d: int|
            p.has_block(g, d) && !a.has_block(g, d) && !open.contains((g, d)) implies #[trigger] p.block(
            g,
            d,
        ).terminated() by {
            assert(b.has_block(g, d));
            assert(b.block(g, d).terminated());
        }
    }
}

pub(crate) proof fn lemma_emit_one_leads(st: GenState, instr: InstrView)
    requires
        st.positioned(),
    ensures
        leads_to(st, st.emit(instr)),
        st.emit(instr).cur_block == st.cur_block,
        st.emit(instr).scopes == st.scopes,
        st.emit(instr).here().instrs.last() == instr,
        st.emit(instr).here().instrs.len() > 0,
        instr.is_terminator() ==> st.emit(instr).terminated(),
{
    lemma_emit_leads(st, seq![instr]);
    lemma_emit_all_basics(st, seq![instr]);
}

pub(crate) proof fn lemma_eval_leads(st: GenState, e: ExprView)
    requires
        st.positioned(),
        st.eval(e) is Ok,
    ensures
        leads_to(st, st.eval(e)->Ok_0.0),
        st.eval(e)->Ok_0.0.cur_block == st.cur_block,
        st.eval(e)->Ok_0.0.scopes == st.scopes,
{
    lemma_emit_leads(st, lower_expr(st.ctx(), st.next_index(), e)->Ok_0.0);
}

pub(crate) proof fn lemma_bind_leads(st: GenState, name: Seq<char>, value: Value, is_mutable: bool)
    requires
        st.positioned(),
        st.scopes.len() > 0,
        st.bind(name, value, is_mutable) is Ok,
    ensures
        leads_to(st, st.bind(name, value, is_mutable)->Ok_0),
        st.bind(name, value, is_mutable)->Ok_0.cur_block == st.cur_block,
{
    let allocated = st.emit(InstrView::Alloca { ty: value.ty });
    lemma_emit_one_leads(st, InstrView::Alloca { ty: value.ty });
    let slot = Slot { block: st.cur_block as usize, index: st.next_index() as usize };
    let stored = allocated.emit(InstrView::Store { slot, value });
    lemma_emit_one_leads(allocated, InstrView::Store { slot, value });
    lemma_leads_trans(st, allocated, stored);
    lemma_bind_follows(st, name, value, is_mutable);
}

pub(crate) proof fn lemma_bind_params_leads(st: GenState, params: Seq<ParamView>, n: nat)
    requires
        st.positioned(),
        st.scopes.len() > 0,
        st.bind_params(params, n) is Ok,
    ensures
        leads_to(st, st.bind_params(params, n)->Ok_0),
        st.bind_params(params, n)->Ok_0.cur_block == st.cur_block,
        st.bind_params(params, n)->Ok_0.scopes.len() == st.scopes.len(),
    decreases n,
{
    if n == 0 || n > params.len() {
        lemma_grows_refl(st.unit);
        lemma_appends_refl(st.unit, st.cur_fn, st.cur_block);
    } else {
        lemma_bind_params_leads(st, params, (n - 1) as nat);
        let st1 = st.bind_params(params, (n - 1) as nat)->Ok_0;
        let ty = lower_type(params[n - 1].ty)->Ok_0;
        let value = Value { ty, source: Operand::Param((n - 1) as usize) };
        lemma_bind_leads(st1, params[n - 1].name, value, false);
        lemma_leads_trans(st, st1, st1.bind(params[n - 1].name, value, false)->Ok_0);
    }
}

/// Lowering a statement leads from the state before it to the state after
/// it.
pub proof fn lemma_stmt_leads(st: GenState, s: StmtView, tail: bool)
    requires
        st.positioned(),
        st.scopes.len() > 0,
        lower_stmt(st, s, tail) is Ok,
    ensures
        leads_to(st, lower_stmt(st, s, tail)->Ok_0),
    decreases s, 1nat, 0nat,
{
    match s {
        StmtView::ExprStmt { expr } => {
            lemma_eval_leads(st, expr);
        },
        StmtView::Expr { expr } => {
            lemma_eval_leads(st, expr);
            let (st1, v) = st.eval(expr)->Ok_0;
            if tail {
                lemma_emit_one_leads(st1, InstrView::Return { value: Some(v) });
                lemma_leads_trans(st, st1, st1.emit(InstrView::Return { value: Some(v) }));
            }
        },
        StmtView::Return { expr } => match expr {
            None => {
                lemma_emit_one_leads(st, InstrView::Return { value: None });
            },
            Some(e) => {
                lemma_eval_leads(st, e);
                let (st1, v) = st.eval(e)->Ok_0;
                lemma_emit_one_leads(st1, InstrView::Return { value: Some(v) });
                lemma_leads_trans(st, st1, st1.emit(InstrView::Return { value: Some(v) }));
            },
        },
        StmtView::Assign { name, value } => {
            lemma_eval_leads(st, value);
            let info = resolve(st.scopes, name)->Some_0;
            let (st1, v) = st.eval(value)->Ok_0;
            let store = InstrView::Store { slot: info.slot, value: v };
            lemma_emit_one_leads(st1, store);
            lemma_leads_trans(st, st1, st1.emit(store));
        },
        StmtView::LetDecl { name, ty, value } => {
            let e = value->Some_0;
            lemma_eval_leads(st, e);
            let (st1, v) = st.eval(e)->Ok_0;
            lemma_bind_leads(st1, name, v, false);
            lemma_leads_trans(st, st1, st1.bind(name, v, false)->Ok_0);
        },
        StmtView::VarDecl { name, ty, value } => match value {
            Some(e) => {
                lemma_eval_leads(st, e);
                let (st1, v) = st.eval(e)->Ok_0;
                lemma_bind_leads(st1, name, v, true);
                lemma_leads_trans(st, st1, st1.bind(name, v, true)->Ok_0);
            },
            None => {
                let v = default_value(ty->Some_0)->Ok_0;
                lemma_bind_leads(st, name, v, true);
            },
        },
        StmtView::If { .. } => {
            lemma_if_leads(st, s, tail);
        },
        StmtView::FnDecl { .. } => {
            lemma_fn_decl_leads(st, s);
        },
    }
}

pub(crate) proof fn lemma_stmts_lead(st: GenState, stmts: Seq<StmtView>, i: nat, tail: bool)
    requires
        st.positioned(),
        st.scopes.len() > 0,
        lower_stmts(st, stmts, i, tail) is Ok,
    ensures
        leads_to(st, lower_stmts(st, stmts, i, tail)->Ok_0),
    decreases stmts, 1nat, stmts.len() - i,
{
    if i >= stmts.len() {
        lemma_grows_refl(st.unit);
        lemma_appends_refl(st.unit, st.cur_fn, st.cur_block);
    } else {
        let last = tail && i == stmts.len() - 1;
        lemma_stmt_leads(st, stmts[i as int], last);
        let st1 = lower_stmt(st, stmts[i as int], last)->Ok_0;
        lemma_stmts_lead(st1, stmts, i + 1, tail);
        lemma_leads_trans(st, st1, lower_stmts(st1, stmts, i + 1, tail)->Ok_0);
    }
}

/// Lowering a block leads from the state before it to the state after it.
pub proof fn lemma_block_leads(st: GenState, stmts: Seq<StmtView>, tail: bool)
    requires
        st.positioned(),
        lower_block(st, stmts, tail) is Ok,
    ensures
        leads_to(st, lower_block(st, stmts, tail)->Ok_0),
    decreases stmts, 2nat, 0nat,
{
    let entered = GenState { scopes: st.scopes.push(Map::empty()), ..st };
    lemma_stmts_lead(entered, stmts, 0, tail);
    lemma_block_follows(st, stmts, tail);
}

pub(crate) proof fn lemma_branch_leads(st: GenState, block: int, stmts: Seq<StmtView>, merge: int, tail: bool)
    requires
        st.positioned(),
        st.unit.has_block(st.cur_fn, block),
        lower_branch(st, block, stmts, merge, tail) is Ok,
    ensures
        leads_to(st.at(st.cur_fn, block), lower_branch(st, block, stmts, merge, tail)->Ok_0.0),
        lower_branch(st, block, stmts, merge, tail)->Ok_0.0.terminated(),
    decreases stmts, 3nat, 0nat,
{
    let start = st.at(st.cur_fn, block);
    lemma_block_leads(start, stmts, tail);
    let st1 = lower_block(start, stmts, tail)->Ok_0;
    if !st1.terminated() {
        let jump = InstrView::Jump { target: merge as usize };
        lemma_emit_one_leads(st1, jump);
        lemma_leads_trans(start, st1, st1.emit(jump));
    }
}

/// The blocks that a conditional makes in the state `st`: the blocks of its
/// branches and the block where control continues.
pub open spec fn opened(st: GenState, has_else: bool) -> Set<(int, int)> {
    if has_else {
        set![
            (st.cur_fn, st.block_count()),
            (st.cur_fn, st.block_count() + 1),
            (st.cur_fn, st.block_count() + 2)
        ]
    } else {
        set![(st.cur_fn, st.block_count()), (st.cur_fn, st.block_count() + 1)]
    }
}

pub(crate) proof fn lemma_open_conditional(st: GenState, has_else: bool)
    requires
        st.positioned(),
    ensures
        appends_at(st.unit, st.open_conditional(has_else).unit, st.cur_fn, st.cur_block),
        closed_but(st.unit, st.open_conditional(has_else).unit, opened(st, has_else)),
        follows(st, st.open_conditional(has_else)),
        st.open_conditional(has_else).unit.has_block(st.cur_fn, st.block_count()),
        st.open_conditional(has_else).unit.has_block(st.cur_fn, st.block_count() + 1),
        has_else ==> st.open_conditional(has_else).unit.has_block(st.cur_fn, st.block_count() + 2),
        forall|p: (int, int)| #[trigger]
            opened(st, has_else).contains(p) ==> live(st.open_conditional(has_else).unit, p.0, p.1)
                && st.open_conditional(has_else).unit.block(p.0, p.1).instrs.len() == 0,
        st.open_conditional(has_else).block_count() == st.block_count() + if has_else {
            3int
        } else {
            2int
        },
{
    let f = st.cur_fn;
    let c = st.cur_block;
    let n = st.block_count();
    let u1 = st.unit.append_block(f, BlockLabel::Then);
    lemma_append_block(st.unit, f, BlockLabel::Then, c);
    let all = opened(st, has_else);
    lemma_closed_but_more(st.unit, u1, set![(f, n)], all);
    let u2 = if has_else {
        u1.append_block(f, BlockLabel::Else)
    } else {
        u1
    };
    if has_else {
        lemma_append_block(u1, f, BlockLabel::Else, c);
        lemma_appends_trans(st.unit, u1, u2, f, c, f, c);
        lemma_closed_after(st.unit, u1, u2, all, set![(f, n + 1)], f, c);
        lemma_closed_but_more(st.unit, u2, all.remove((f, c)).union(set![(f, n + 1)]), all);
    }
    let u3 = u2.append_block(f, BlockLabel::IfCont);
    lemma_append_block(u2, f, BlockLabel::IfCont, c);
    lemma_appends_trans(st.unit, u2, u3, f, c, f, c);
    let m = u2.functions[f].blocks.len() as int;
    lemma_closed_after(st.unit, u2, u3, all, set![(f, m)], f, c);
    lemma_closed_but_more(st.unit, u3, all.remove((f, c)).union(set![(f, m)]), all);
    reveal(grows);
}

pub(crate) proof fn lemma_begin_conditional(st: GenState, condition: ExprView, has_else: bool)
    requires
        st.positioned(),
        st.begin_conditional(condition, has_else) is Ok,
    ensures
        follows(st, st.begin_conditional(condition, has_else)->Ok_0),
        st.begin_conditional(condition, has_else)->Ok_0.cur_block == st.cur_block,
        st.begin_conditional(condition, has_else)->Ok_0.terminated(),
        appends_at(
            st.unit,
            st.begin_conditional(condition, has_else)->Ok_0.unit,
            st.cur_fn,
            st.cur_block,
        ),
        closed_but(
            st.unit,
            st.begin_conditional(condition, has_else)->Ok_0.unit,
            opened(st, has_else),
        ),
        forall|p: (int, int)| #[trigger]
            opened(st, has_else).contains(p) ==> st.begin_conditional(
                condition,
                has_else,
            )->Ok_0.unit.has_block(p.0, p.1) && !st.unit.has_block(p.0, p.1),
        forall|p: (int, int)| #[trigger]
            opened(st, has_else).contains(p) ==> live(
                st.begin_conditional(condition, has_else)->Ok_0.unit,
                p.0,
                p.1,
            ) && st.begin_conditional(condition, has_else)->Ok_0.unit.block(
                p.0,
                p.1,
            ).instrs.len() == 0,
        st.begin_conditional(condition, has_else)->Ok_0.block_count() == st.block_count()
            + if has_else {
            3int
        } else {
            2int
        },
{
    let f = st.cur_fn;
    let c = st.cur_block;
    let n = st.block_count();
    let all = opened(st, has_else);
    let st0 = st.open_conditional(has_else);
    lemma_open_conditional(st, has_else);
    lemma_eval_leads(st0, condition);
    let (st1, v) = st0.eval(condition)->Ok_0;
    let branch = InstrView::Branch {
        cond: v,
        then_target: n as usize,
        else_target: (n + 1) as usize,
    };
    let st2 = st1.emit(branch);
    lemma_emit_one_leads(st1, branch);
    lemma_leads_trans(st0, st1, st2);
    lemma_follows_trans(st, st0, st2);
    lemma_appends_trans(st.unit, st0.unit, st2.unit, f, c, f, c);
    lemma_closed_after(st.unit, st0.unit, st2.unit, all, set![(f, c)], f, c);
    lemma_closed_but_less(st.unit, st2.unit, all.remove((f, c)).union(set![(f, c)]), f, c);
    lemma_closed_but_more(
        st.unit,
        st2.unit,
        all.remove((f, c)).union(set![(f, c)]).remove((f, c)),
        all,
    );
    lemma_grows_keeps_block(st0.unit, st2.unit, f, n);
    lemma_grows_keeps_block(st0.unit, st2.unit, f, n + 1);
    if has_else {
        lemma_grows_keeps_block(st0.unit, st2.unit, f, n + 2);
    }
    assert(all.contains((f, n)) && all.contains((f, n + 1)));
    lemma_appends_keeps(st0.unit, st2.unit, f, c, f, n);
    lemma_appends_keeps(st0.unit, st2.unit, f, c, f, n + 1);
    if has_else {
        assert(all.contains((f, n + 2)));
        lemma_appends_keeps(st0.unit, st2.unit, f, c, f, n + 2);
    }
    lemma_emit_all_basics(st0, lower_expr(st0.ctx(), st0.next_index(), condition)->Ok_0.0);
    lemma_emit_all_basics(st1, seq![branch]);
}

/// After a branch of a conditional has been lowered into a block that is
/// new since `a`, that block and the blocks that the branch has made are
/// closed, and no other block has changed.
pub(crate) proof fn lemma_branch_closes(
    a: UnitView,
    c: int,
    open: Set<(int, int)>,
    st: GenState,
    block: int,
    stmts: Seq<StmtView>,
    merge: int,
    tail: bool,
)
    requires
        st.positioned(),
        st.unit.has_block(st.cur_fn, block),
        !a.has_block(st.cur_fn, block),
        appends_at(a, st.unit, st.cur_fn, c),
        closed_but(a, st.unit, open),
        lower_branch(st, block, stmts, merge, tail) is Ok,
    ensures
        follows(st.at(st.cur_fn, block), lower_branch(st, block, stmts, merge, tail)->Ok_0.0),
        appends_at(a, lower_branch(st, block, stmts, merge, tail)->Ok_0.0.unit, st.cur_fn, c),
        appends_at(
            st.unit,
            lower_branch(st, block, stmts, merge, tail)->Ok_0.0.unit,
            st.cur_fn,
            block,
        ),
        closed_but(
            a,
            lower_branch(st, block, stmts, merge, tail)->Ok_0.0.unit,
            open.remove((st.cur_fn, block)),
        ),
    decreases stmts, 4nat, 0nat,
{
    let f = st.cur_fn;
    lemma_branch_leads(st, block, stmts, merge, tail);
    let end = lower_branch(st, block, stmts, merge, tail)->Ok_0.0;
    lemma_appends_trans(a, st.unit, end.unit, f, c, f, block);
    lemma_closed_after(a, st.unit, end.unit, open, set![(f, end.cur_block)], f, block);
    let after = open.remove((f, block)).union(set![(f, end.cur_block)]);
    lemma_closed_but_less(a, end.unit, after, f, end.cur_block);
    lemma_closed_but_more(a, end.unit, after.remove((f, end.cur_block)), open.remove((f, block)));
}

/// Lowering a conditional leads from the state before it to the state
/// after it.
#[verifier::rlimit(30)]
pub proof fn lemma_if_leads(st: GenState, s: StmtView, tail: bool)
    requires
        st.positioned(),
        s is If,
        lower_if(st, s, tail) is Ok,
    ensures
        leads_to(st, lower_if(st, s, tail)->Ok_0),
    decreases s, 0nat, 0nat,
{
    match s {
        StmtView::If { condition, then_branch, else_branch } => {
            let f = st.cur_fn;
            let c = st.cur_block;
            let n = st.block_count();
            let has_else = else_branch is Some;
            let merge = if has_else {
                n + 2
            } else {
                n + 1
            };
            let all = opened(st, has_else);
            lemma_if_follows(st, s, tail);
            let st2 = st.begin_conditional(condition, has_else)->Ok_0;
            lemma_begin_conditional(st, condition, has_else);
            assert(all.contains((f, n)) && all.contains((f, n + 1)) && all.contains((f, merge)));
            // the then branch
            lemma_branch_closes(st.unit, c, all, st2, n, then_branch, merge, tail);
            let (st3, then_ends) = lower_branch(st2, n, then_branch, merge, tail)->Ok_0;
            lemma_appends_keeps(st2.unit, st3.unit, f, n, f, c);
            lemma_appends_keeps(st2.unit, st3.unit, f, n, f, n + 1);
            lemma_appends_keeps(st2.unit, st3.unit, f, n, f, merge);
            match else_branch {
                None => {
                    lemma_closed_but_more(st.unit, st3.unit, all.remove((f, n)), set![(f, merge)]);
                },
                Some(stmts) => {
                    lemma_branch_closes(
                        st.unit,
                        c,
                        all.remove((f, n)),
                        st3,
                        n + 1,
                        stmts,
                        merge,
                        tail,
                    );
                    let (st4, else_ends) = lower_branch(st3, n + 1, stmts, merge, tail)->Ok_0;
                    lemma_closed_but_more(
                        st.unit,
                        st4.unit,
                        all.remove((f, n)).remove((f, n + 1)),
                        set![(f, merge)],
                    );
                    lemma_appends_keeps(st3.unit, st4.unit, f, n + 1, f, c);
                    lemma_appends_keeps(st3.unit, st4.unit, f, n + 1, f, merge);
                    if tail && then_ends && else_ends {
                        lemma_appends_prune(st.unit, st4.unit, f, c, merge);
                    }
                },
            }
        },
        _ => {},
    }
}

pub(crate) proof fn lemma_enter_function(
    st: GenState,
    name: Seq<char>,
    params: Seq<IrType>,
    ret: Option<IrType>,
)
    requires
        st.positioned(),
    ensures
        st.enter_function(name, params, ret).positioned(),
        st.enter_function(name, params, ret).scopes.len() > 0,
        appends_at(st.unit, st.enter_function(name, params, ret).unit, st.cur_fn, st.cur_block),
        closed_but(
            st.unit,
            st.enter_function(name, params, ret).unit,
            set![(st.unit.functions.len() as int, 0int)],
        ),
        !st.unit.has_block(st.unit.functions.len() as int, 0),
        grows(st.unit, st.enter_function(name, params, ret).unit),
        st.enter_function(name, params, ret).unit.functions.len() == st.unit.functions.len() + 1,
        st.enter_function(name, params, ret).unit.functions[st.cur_fn]
            == st.unit.functions[st.cur_fn],
        st.enter_function(name, params, ret).block_count() == 1,
        st.enter_function(name, params, ret).here().instrs.len() == 0,
{
    reveal(appends_at);
    reveal(closed_but);
    reveal(grows);
    let after = st.enter_function(name, params, ret).unit;
    assert(after.block(st.cur_fn, st.cur_block).instrs.take(st.here().instrs.len() as int)
        =~= st.here().instrs);
}

/// Lowering a function declaration leads from the state before it to the
/// state after it: every block of the function is closed.
pub proof fn lemma_fn_decl_leads(st: GenState, s: StmtView)
    requires
        st.positioned(),
        s is FnDecl,
        lower_fn_decl(st, s) is Ok,
    ensures
        leads_to(st, lower_fn_decl(st, s)->Ok_0),
    decreases s, 0nat, 0nat,
{
    match s {
        StmtView::FnDecl { name, params, ty, body } => {
            let f = st.cur_fn;
            let c = st.cur_block;
            let g = st.unit.functions.len() as int;
            let entered = st.enter_function(
                name,
                lower_param_types(params)->Ok_0,
                lower_return_type(ty)->Ok_0,
            );
            lemma_fn_decl_follows(st, s);
            lemma_enter_function(
                st,
                name,
                lower_param_types(params)->Ok_0,
                lower_return_type(ty)->Ok_0,
            );
            lemma_bind_params_leads(entered, params, params.len());
            let st1 = entered.bind_params(params, params.len())->Ok_0;
            lemma_block_leads(st1, body, true);
            let st2 = lower_block(st1, body, true)->Ok_0;
            lemma_leads_trans(entered, st1, st2);
            let closed = st2.close();
            if !st2.terminated() {
                lemma_emit_one_leads(st2, InstrView::Return { value: None });
                lemma_leads_trans(entered, st2, closed);
            }
            lemma_appends_trans(st.unit, entered.unit, closed.unit, f, c, g, 0);
            lemma_closed_after(
                st.unit,
                entered.unit,
                closed.unit,
                set![(g, 0int)],
                set![(g, closed.cur_block)],
                g,
                0,
            );
            let open = set![(g, 0int)].remove((g, 0int)).union(set![(g, closed.cur_block)]);
            lemma_closed_but_less(st.unit, closed.unit, open, g, closed.cur_block);
            lemma_closed_but_more(
                st.unit,
                closed.unit,
                open.remove((g, closed.cur_block)),
                set![(f, c)],
            );
        },
        _ => {},
    }
}

/// Whether every block of the unit is closed: it ends in a terminator, or
/// it is pruned.
pub open spec fn all_closed(unit: UnitView) -> bool {
    forall|f: int, b: int| unit.has_block(f, b) ==> #[trigger] unit.block(f, b).terminated()
}

/// Control runs off the end of no block of a compiled program: if every
/// block of the unit was closed before, every block is closed after.
pub proof fn lemma_compiled_blocks_are_closed(st: GenState, program: Seq<StmtView>)
    requires
        all_closed(st.unit),
        lower_program(st, program) is Ok,
    ensures
        all_closed(lower_program(st, program)->Ok_0.unit),
{
    let g = st.unit.functions.len() as int;
    let entered = GenState {
        unit: st.unit.add_function("main"@, Seq::empty(), Some(IrType::I32)).append_block(
            g,
            BlockLabel::Entry,
        ),
        cur_fn: g,
        cur_block: 0,
        ..st
    };
    lemma_block_leads(entered, program, true);
    let st1 = lower_block(entered, program, true)->Ok_0;
    let end = st1.close();
    if !st1.terminated() {
        lemma_emit_one_leads(st1, InstrView::Return { value: None });
        lemma_leads_trans(entered, st1, end);
    }
    assert forall|f: int, b: int| end.unit.has_block(f, b) implies #[trigger] end.unit.block(
        f,
        b,
    ).terminated() by {
        reveal(closed_but);
        if entered.unit.has_block(f, b) {
            lemma_appends_keeps(entered.unit, end.unit, g, 0, f, b);
            if f == g {
            } else {
                assert(st.unit.has_block(f, b));
                assert(st.unit.block(f, b).terminated());
            }
        } else if f == end.cur_fn && b == end.cur_block {
        } else {
            assert(end.unit.block(f, b).terminated());
        }
    }
}

/// Whether block `b` is part of function `f`: it is a block of the function
/// that has not been pruned.
pub open spec fn live(unit: UnitView, f: int, b: int) -> bool {
    unit.has_block(f, b) && !unit.block(f, b).pruned
}

/// Whether `instr`, in function `f`, goes nowhere but to blocks that are
/// part of the function, from index `low` on and other than `not`.
pub open spec fn aims_at(unit: UnitView, f: int, low: int, not: int, instr: InstrView) -> bool {
    match instr {
        InstrView::Jump { target } => low <= target && target != not && live(unit, f, target as int),
        InstrView::Branch { then_target, else_target, .. } => {
            &&& low <= then_target && then_target != not && live(unit, f, then_target as int)
            &&& low <= else_target && else_target != not && live(unit, f, else_target as int)
        },
        _ => true,
    }
}

/// Whether every instruction that `after` has and `before` has not goes
/// nowhere but to blocks that are part of its function; and, in function
/// `f`, to none before `low` and not to `not`.
#[verifier::opaque]
pub open spec fn appended_aim(before: UnitView, after: UnitView, f: int, low: int, not: int) -> bool {
    forall|g: int, d: int, i: int|
        after.has_block(g, d) && 0 <= i < after.block(g, d).instrs.len() && !(before.has_block(g, d)
            && i < before.block(g, d).instrs.len()) ==> aims_at(
            after,
            g,
            if g == f {
                low
            } else {
                0
            },
            if g == f {
                not
            } else {
                -1
            },
            #[trigger] after.block(g, d).instrs[i],
        )
}

/// Whether the indices of the blocks of the unit are machine integers.
#[verifier::opaque]
pub open spec fn fits(unit: UnitView) -> bool {
    forall|f: int|
        0 <= f < unit.functions.len() ==> (#[trigger] unit.functions[f]).blocks.len()
            <= usize::MAX
}

/// Whether no instruction of `code` ends a block.
pub open spec fn is_straight(code: Seq<InstrView>) -> bool {
    forall|i: int| 0 <= i < code.len() ==> !(#[trigger] code[i]).is_terminator()
}

/// The code of an expression has no instruction that ends a block.
pub proof fn lemma_expr_is_straight(ctx: ExprCtx, base: int, e: ExprView)
    requires
        lower_expr(ctx, base, e) is Ok,
    ensures
        is_straight(lower_expr(ctx, base, e)->Ok_0.0),
    decreases e, 0nat,
{
    match e {
        ExprView::IntLit(_) => {},
        ExprView::BoolLit(_) => {},
        ExprView::VarRef { .. } => {},
        ExprView::UnaryOp { op, expr } => {
            lemma_expr_is_straight(ctx, base, *expr);
        },
        ExprView::BinOp { lhs, op, rhs } => {
            lemma_expr_is_straight(ctx, base, *lhs);
            let code1 = lower_expr(ctx, base, *lhs)->Ok_0.0;
            lemma_expr_is_straight(ctx, base + code1.len(), *rhs);
        },
        ExprView::FnCall { name, args } => {
            lemma_args_are_straight(ctx, base, args, args.len());
        },
    }
}

pub(crate) proof fn lemma_args_are_straight(
    ctx: ExprCtx,
    base: int,
    args: Seq<ExprView>,
    n: nat,
)
    requires
        lower_args(ctx, base, args, n) is Ok,
    ensures
        is_straight(lower_args(ctx, base, args, n)->Ok_0.0),
    decreases args, n,
{
    if n == 0 || n > args.len() {
    } else {
        lemma_args_are_straight(ctx, base, args, (n - 1) as nat);
        let code = lower_args(ctx, base, args, (n - 1) as nat)->Ok_0.0;
        lemma_expr_is_straight(ctx, base + code.len(), args[n - 1]);
    }
}

/// Where nothing is appended, nothing aims anywhere.
pub proof fn lemma_aim_refl(unit: UnitView, f: int, low: int, not: int)
    ensures
        appended_aim(unit, unit, f, low, not),
{
    reveal(appended_aim);
}

/// What aims at blocks from `low` on and not at `not` aims at blocks from
/// an earlier one on, and not at one before `low`.
pub proof fn lemma_aim_weaken(
    a: UnitView,
    b: UnitView,
    f: int,
    low: int,
    not: int,
    low2: int,
    not2: int,
)
    requires
        appended_aim(a, b, f, low, not),
        0 <= low2 <= low,
        not2 == not || not2 < low,
    ensures
        appended_aim(a, b, f, low2, not2),
{
    reveal(appended_aim);
    assert forall|g: int, d: int, i: int|
        b.has_block(g, d) && 0 <= i < b.block(g, d).instrs.len() && !(a.has_block(g, d) && i
            < a.block(g, d).instrs.len()) implies aims_at(
        b,
        g,
        if g == f {
            low2
        } else {
            0
        },
        if g == f {
            not2
        } else {
            -1
        },
        #[trigger] b.block(g, d).instrs[i],
    ) by {
        assert(aims_at(
            b,
            g,
            if g == f {
                low
            } else {
                0
            },
            if g == f {
                not
            } else {
                -1
            },
            b.block(g, d).instrs[i],
        ));
    }
}

/// What two steps append aims as what each of them appends does.
pub proof fn lemma_aim_trans(
    a: UnitView,
    b: UnitView,
    c: UnitView,
    f: int,
    low: int,
    not: int,
    h: int,
    y: int,
)
    requires
        appended_aim(a, b, f, low, not),
        appended_aim(b, c, f, low, not),
        appends_at(b, c, h, y),
    ensures
        appended_aim(a, c, f, low, not),
{
    reveal(appended_aim);
    assert forall|g: int, d: int, i: int|
        c.has_block(g, d) && 0 <= i < c.block(g, d).instrs.len() && !(a.has_block(g, d) && i
            < a.block(g, d).instrs.len()) implies aims_at(
        c,
        g,
        if g == f {
            low
        } else {
            0
        },
        if g == f {
            not
        } else {
            -1
        },
        #[trigger] c.block(g, d).instrs[i],
    ) by {
        if b.has_block(g, d) && i < b.block(g, d).instrs.len() {
            lemma_appends_keeps_instr(b, c, h, y, g, d, i);
            let instr = b.block(g, d).instrs[i];
            let lo = if g == f {
                low
            } else {
                0
            };
            let no = if g == f {
                not
            } else {
                -1
            };
            assert(aims_at(b, g, lo, no, instr));
            lemma_aims_stays(b, c, h, y, g, lo, no, instr);
        }
    }
}

/// An instruction of `before` is the same instruction in `after`.
pub proof fn lemma_appends_keeps_instr(
    before: UnitView,
    after: UnitView,
    f: int,
    c: int,
    g: int,
    d: int,
    i: int,
)
    requires
        appends_at(before, after, f, c),
        before.has_block(g, d),
        0 <= i < before.block(g, d).instrs.len(),
    ensures
        after.has_block(g, d),
        i < after.block(g, d).instrs.len(),
        after.block(g, d).instrs[i] == before.block(g, d).instrs[i],
{
    reveal(appends_at);
    assert(before.functions[g].blocks.len() <= after.functions[g].blocks.len());
    if g == f && d == c {
        let old = before.block(g, d).instrs;
        assert(after.block(g, d).instrs.take(old.len() as int)[i] == old[i]);
    } else {
        assert(after.block(g, d) == before.block(g, d));
    }
}

/// Where an instruction aims in `before`, it aims in `after`.
pub proof fn lemma_aims_stays(
    before: UnitView,
    after: UnitView,
    f: int,
    c: int,
    g: int,
    low: int,
    not: int,
    instr: InstrView,
)
    requires
        appends_at(before, after, f, c),
        aims_at(before, g, low, not, instr),
    ensures
        aims_at(after, g, low, not, instr),
{
    match instr {
        InstrView::Jump { target } => {
            lemma_appends_keeps(before, after, f, c, g, target as int);
        },
        InstrView::Branch { then_target, else_target, .. } => {
            lemma_appends_keeps(before, after, f, c, g, then_target as int);
            lemma_appends_keeps(before, after, f, c, g, else_target as int);
        },
        _ => {},
    }
}

/// Emitting code appends what the code aims at.
pub proof fn lemma_emit_aims(st: GenState, code: Seq<InstrView>, low: int, not: int)
    requires
        st.positioned(),
        forall|i: int|
            0 <= i < code.len() ==> aims_at(st.unit, st.cur_fn, low, not, #[trigger] code[i]),
    ensures
        appended_aim(st.unit, st.emit_all(code).unit, st.cur_fn, low, not),
{
    let after = st.emit_all(code);
    lemma_emit_leads(st, code);
    lemma_emit_all_basics(st, code);
    reveal(appended_aim);
    assert forall|g: int, d: int, i: int|
        after.unit.has_block(g, d) && 0 <= i < after.unit.block(g, d).instrs.len() && !(
        st.unit.has_block(g, d) && i < st.unit.block(g, d).instrs.len()) implies aims_at(
        after.unit,
        g,
        if g == st.cur_fn {
            low
        } else {
            0
        },
        if g == st.cur_fn {
            not
        } else {
            -1
        },
        #[trigger] after.unit.block(g, d).instrs[i],
    ) by {
        if g == st.cur_fn && d == st.cur_block {
            let old = st.here().instrs;
            assert(after.unit.block(g, d).instrs[i] == code[i - old.len()]);
            lemma_aims_stays(
                st.unit,
                after.unit,
                st.cur_fn,
                st.cur_block,
                g,
                low,
                not,
                code[i - old.len()],
            );
        } else {
            assert(st.unit.has_block(g, d)) by {
                reveal(appends_at);
            }
            lemma_appends_keeps(st.unit, after.unit, st.cur_fn, st.cur_block, g, d);
        }
    }
}

pub(crate) proof fn lemma_emit_straight_aims(st: GenState, code: Seq<InstrView>, low: int, not: int)
    requires
        st.positioned(),
        is_straight(code),
    ensures
        appended_aim(st.unit, st.emit_all(code).unit, st.cur_fn, low, not),
{
    assert forall|i: int| 0 <= i < code.len() implies aims_at(
        st.unit,
        st.cur_fn,
        low,
        not,
        #[trigger] code[i],
    ) by {
        assert(!code[i].is_terminator());
    }
    lemma_emit_aims(st, code, low, not);
}

pub(crate) proof fn lemma_emit_one_aims(st: GenState, instr: InstrView, low: int, not: int)
    requires
        st.positioned(),
        aims_at(st.unit, st.cur_fn, low, not, instr),
    ensures
        appended_aim(st.unit, st.emit(instr).unit, st.cur_fn, low, not),
{
    lemma_emit_aims(st, seq![instr], low, not);
}

pub(crate) proof fn lemma_eval_aims(st: GenState, e: ExprView, low: int, not: int)
    requires
        st.positioned(),
        st.eval(e) is Ok,
    ensures
        appended_aim(st.unit, st.eval(e)->Ok_0.0.unit, st.cur_fn, low, not),
{
    lemma_expr_is_straight(st.ctx(), st.next_index(), e);
    lemma_emit_straight_aims(st, lower_expr(st.ctx(), st.next_index(), e)->Ok_0.0, low, not);
}

/// What two steps of lowering in one function body append aims as what
/// each of them appends does.
pub(crate) proof fn lemma_aim_steps(a: GenState, b: GenState, c: GenState, low: int, not: int)
    requires
        leads_to(a, b),
        leads_to(b, c),
        appended_aim(a.unit, b.unit, a.cur_fn, low, not),
        appended_aim(b.unit, c.unit, a.cur_fn, low, not),
    ensures
        appended_aim(a.unit, c.unit, a.cur_fn, low, not),
{
    lemma_aim_trans(a.unit, b.unit, c.unit, a.cur_fn, low, not, b.cur_fn, b.cur_block);
}

pub(crate) proof fn lemma_block_count_grows(a: GenState, b: GenState)
    requires
        a.positioned(),
        follows(a, b),
    ensures
        0 <= a.block_count() <= b.block_count(),
{
    reveal(grows);
}

pub(crate) proof fn lemma_bind_aims(st: GenState, name: Seq<char>, value: Value, is_mutable: bool)
    requires
        st.positioned(),
        st.scopes.len() > 0,
        st.bind(name, value, is_mutable) is Ok,
    ensures
        appended_aim(
            st.unit,
            st.bind(name, value, is_mutable)->Ok_0.unit,
            st.cur_fn,
            st.block_count(),
            -1,
        ),
{
    let low = st.block_count();
    let alloca = InstrView::Alloca { ty: value.ty };
    let allocated = st.emit(alloca);
    lemma_emit_one_leads(st, alloca);
    lemma_emit_one_aims(st, alloca, low, -1);
    let slot = Slot { block: st.cur_block as usize, index: st.next_index() as usize };
    let store = InstrView::Store { slot, value };
    let stored = allocated.emit(store);
    lemma_emit_one_leads(allocated, store);
    lemma_emit_one_aims(allocated, store, low, -1);
    lemma_aim_steps(st, allocated, stored, low, -1);
}

pub(crate) proof fn lemma_bind_params_aims(st: GenState, params: Seq<ParamView>, n: nat)
    requires
        st.positioned(),
        st.scopes.len() > 0,
        st.bind_params(params, n) is Ok,
    ensures
        appended_aim(st.unit, st.bind_params(params, n)->Ok_0.unit, st.cur_fn, st.block_count(), -1),
    decreases n,
{
    let low = st.block_count();
    if n == 0 || n > params.len() {
        lemma_aim_refl(st.unit, st.cur_fn, low, -1);
    } else {
        lemma_bind_params_aims(st, params, (n - 1) as nat);
        lemma_bind_params_leads(st, params, (n - 1) as nat);
        let st1 = st.bind_params(params, (n - 1) as nat)->Ok_0;
        let ty = lower_type(params[n - 1].ty)->Ok_0;
        let value = Value { ty, source: Operand::Param((n - 1) as usize) };
        lemma_bind_aims(st1, params[n - 1].name, value, false);
        lemma_bind_leads(st1, params[n - 1].name, value, false);
        let st2 = st1.bind(params[n - 1].name, value, false)->Ok_0;
        lemma_block_count_grows(st, st1);
        lemma_aim_weaken(st1.unit, st2.unit, st.cur_fn, st1.block_count(), -1, low, -1);
        lemma_aim_steps(st, st1, st2, low, -1);
    }
}

pub(crate) proof fn lemma_fits_before(a: GenState, b: GenState)
    requires
        a.positioned(),
        follows(a, b),
        fits(b.unit),
    ensures
        fits(a.unit),
        a.block_count() <= b.block_count() <= usize::MAX,
{
    reveal(grows);
    reveal(fits);
    assert forall|f: int| 0 <= f < a.unit.functions.len() implies (#[trigger] a.unit.functions[f]).blocks.len()
        <= usize::MAX by {
        assert(a.unit.functions[f].blocks.len() <= b.unit.functions[f].blocks.len());
        assert(b.unit.functions[f].blocks.len() <= usize::MAX);
    }
    assert(b.unit.functions[b.cur_fn].blocks.len() <= usize::MAX);
}

/// What a statement appends goes nowhere but to blocks that are part of
/// their function, and that the statement itself has made.
pub proof fn lemma_stmt_aims(st: GenState, s: StmtView, tail: bool)
    requires
        st.positioned(),
        st.scopes.len() > 0,
        lower_stmt(st, s, tail) is Ok,
        fits(lower_stmt(st, s, tail)->Ok_0.unit),
    ensures
        appended_aim(
            st.unit,
            lower_stmt(st, s, tail)->Ok_0.unit,
            st.cur_fn,
            st.block_count(),
            -1,
        ),
    decreases s, 1nat, 0nat,
{
    let low = st.block_count();
    match s {
        StmtView::ExprStmt { expr } => {
            lemma_eval_aims(st, expr, low, -1);
        },
        StmtView::Expr { expr } => {
            lemma_eval_aims(st, expr, low, -1);
            lemma_eval_leads(st, expr);
            let (st1, v) = st.eval(expr)->Ok_0;
            if tail {
                let ret = InstrView::Return { value: Some(v) };
                lemma_emit_one_leads(st1, ret);
                lemma_emit_one_aims(st1, ret, low, -1);
                lemma_aim_steps(st, st1, st1.emit(ret), low, -1);
            }
        },
        StmtView::Return { expr } => match expr {
            None => {
                lemma_emit_one_aims(st, InstrView::Return { value: None }, low, -1);
            },
            Some(e) => {
                lemma_eval_aims(st, e, low, -1);
                lemma_eval_leads(st, e);
                let (st1, v) = st.eval(e)->Ok_0;
                let ret = InstrView::Return { value: Some(v) };
                lemma_emit_one_leads(st1, ret);
                lemma_emit_one_aims(st1, ret, low, -1);
                lemma_aim_steps(st, st1, st1.emit(ret), low, -1);
            },
        },
        StmtView::Assign { name, value } => {
            lemma_eval_aims(st, value, low, -1);
            lemma_eval_leads(st, value);
            let info = resolve(st.scopes, name)->Some_0;
            let (st1, v) = st.eval(value)->Ok_0;
            let store = InstrView::Store { slot: info.slot, value: v };
            lemma_emit_one_leads(st1, store);
            lemma_emit_one_aims(st1, store, low, -1);
            lemma_aim_steps(st, st1, st1.emit(store), low, -1);
        },
        StmtView::LetDecl { name, ty, value } => {
            let e = value->Some_0;
            lemma_eval_aims(st, e, low, -1);
            lemma_eval_leads(st, e);
            let (st1, v) = st.eval(e)->Ok_0;
            lemma_bind_leads(st1, name, v, false);
            lemma_bind_aims(st1, name, v, false);
            let st2 = st1.bind(name, v, false)->Ok_0;
            lemma_block_count_grows(st, st1);
            lemma_aim_weaken(st1.unit, st2.unit, st.cur_fn, st1.block_count(), -1, low, -1);
            lemma_aim_steps(st, st1, st2, low, -1);
        },
        StmtView::VarDecl { name, ty, value } => match value {
            Some(e) => {
                lemma_eval_aims(st, e, low, -1);
                lemma_eval_leads(st, e);
                let (st1, v) = st.eval(e)->Ok_0;
                lemma_bind_leads(st1, name, v, true);
                lemma_bind_aims(st1, name, v, true);
                let st2 = st1.bind(name, v, true)->Ok_0;
                lemma_block_count_grows(st, st1);
                lemma_aim_weaken(st1.unit, st2.unit, st.cur_fn, st1.block_count(), -1, low, -1);
                lemma_aim_steps(st, st1, st2, low, -1);
            },
            None => {
                let v = default_value(ty->Some_0)->Ok_0;
                lemma_bind_aims(st, name, v, true);
            },
        },
        StmtView::If { .. } => {
            lemma_if_aims(st, s, tail);
        },
        StmtView::FnDecl { .. } => {
            lemma_fn_decl_aims(st, s);
        },
    }
}

pub(crate) proof fn lemma_stmts_aim(st: GenState, stmts: Seq<StmtView>, i: nat, tail: bool)
    requires
        st.positioned(),
        st.scopes.len() > 0,
        lower_stmts(st, stmts, i, tail) is Ok,
        fits(lower_stmts(st, stmts, i, tail)->Ok_0.unit),
    ensures
        appended_aim(
            st.unit,
            lower_stmts(st, stmts, i, tail)->Ok_0.unit,
            st.cur_fn,
            st.block_count(),
            -1,
        ),
    decreases stmts, 1nat, stmts.len() - i,
{
    let low = st.block_count();
    if i >= stmts.len() {
        lemma_aim_refl(st.unit, st.cur_fn, low, -1);
    } else {
        let last = tail && i == stmts.len() - 1;
        let st1 = lower_stmt(st, stmts[i as int], last)->Ok_0;
        let st2 = lower_stmts(st1, stmts, i + 1, tail)->Ok_0;
        lemma_stmt_leads(st, stmts[i as int], last);
        lemma_stmts_lead(st1, stmts, i + 1, tail);
        lemma_fits_before(st1, st2);
        lemma_stmt_aims(st, stmts[i as int], last);
        lemma_stmts_aim(st1, stmts, i + 1, tail);
        lemma_block_count_grows(st, st1);
        lemma_aim_weaken(st1.unit, st2.unit, st.cur_fn, st1.block_count(), -1, low, -1);
        lemma_aim_steps(st, st1, st2, low, -1);
    }
}

/// What a block appends goes nowhere but to blocks that are part of their
/// function, and that the block itself has made.
pub proof fn lemma_block_aims(st: GenState, stmts: Seq<StmtView>, tail: bool)
    requires
        st.positioned(),
        lower_block(st, stmts, tail) is Ok,
        fits(lower_block(st, stmts, tail)->Ok_0.unit),
    ensures
        appended_aim(
            st.unit,
            lower_block(st, stmts, tail)->Ok_0.unit,
            st.cur_fn,
            st.block_count(),
            -1,
        ),
    decreases stmts, 2nat, 0nat,
{
    let entered = GenState { scopes: st.scopes.push(Map::empty()), ..st };
    lemma_stmts_aim(entered, stmts, 0, tail);
}

pub(crate) proof fn lemma_branch_aims(st: GenState, block: int, stmts: Seq<StmtView>, merge: int, tail: bool)
    requires
        st.positioned(),
        st.unit.has_block(st.cur_fn, block),
        live(st.unit, st.cur_fn, merge),
        merge != block,
        lower_branch(st, block, stmts, merge, tail) is Ok,
        fits(lower_branch(st, block, stmts, merge, tail)->Ok_0.0.unit),
    ensures
        appended_aim(
            st.unit,
            lower_branch(st, block, stmts, merge, tail)->Ok_0.0.unit,
            st.cur_fn,
            if lower_branch(st, block, stmts, merge, tail)->Ok_0.1 {
                st.block_count()
            } else {
                merge
            },
            -1,
        ),
    decreases stmts, 3nat, 0nat,
{
    let f = st.cur_fn;
    let start = st.at(f, block);
    let st1 = lower_block(start, stmts, tail)->Ok_0;
    let end = lower_branch(st, block, stmts, merge, tail)->Ok_0.0;
    lemma_block_leads(start, stmts, tail);
    if !st1.terminated() {
        let jump = InstrView::Jump { target: merge as usize };
        lemma_emit_one_leads(st1, jump);
        lemma_fits_before(st1, end);
        lemma_block_aims(start, stmts, tail);
        lemma_fits_before(start, st1);
        lemma_aim_weaken(st.unit, st1.unit, f, st.block_count(), -1, merge, -1);
        assert(live(st1.unit, f, merge)) by {
            reveal(appends_at);
            lemma_appends_keeps(st.unit, st1.unit, f, block, f, merge);
        }
        lemma_emit_one_aims(st1, jump, merge, -1);
        lemma_aim_steps(start, st1, end, merge, -1);
    } else {
        lemma_block_aims(start, stmts, tail);
    }
}

pub(crate) proof fn lemma_open_conditional_aims(st: GenState, has_else: bool, low: int, not: int)
    requires
        st.positioned(),
    ensures
        appended_aim(st.unit, st.open_conditional(has_else).unit, st.cur_fn, low, not),
{
    reveal(appended_aim);
    lemma_open_conditional(st, has_else);
    let after = st.open_conditional(has_else).unit;
    assert forall|g: int, d: int, i: int|
        after.has_block(g, d) && 0 <= i < after.block(g, d).instrs.len() && !(
        st.unit.has_block(g, d) && i < st.unit.block(g, d).instrs.len()) implies aims_at(
        after,
        g,
        if g == st.cur_fn {
            low
        } else {
            0
        },
        if g == st.cur_fn {
            not
        } else {
            -1
        },
        #[trigger] after.block(g, d).instrs[i],
    ) by {
        if st.unit.has_block(g, d) {
            lemma_appends_keeps(st.unit, after, st.cur_fn, st.cur_block, g, d);
            assert(after.block(g, d).instrs.len() == st.unit.block(g, d).instrs.len());
        } else {
            assert(opened(st, has_else).contains((g, d)));
        }
    }
}

pub(crate) proof fn lemma_begin_conditional_aims(st: GenState, condition: ExprView, has_else: bool)
    requires
        st.positioned(),
        st.begin_conditional(condition, has_else) is Ok,
        fits(st.begin_conditional(condition, has_else)->Ok_0.unit),
    ensures
        appended_aim(
            st.unit,
            st.begin_conditional(condition, has_else)->Ok_0.unit,
            st.cur_fn,
            st.block_count(),
            if has_else {
                st.block_count() + 2
            } else {
                -1
            },
        ),
{
    let f = st.cur_fn;
    let n = st.block_count();
    let not = if has_else {
        n + 2
    } else {
        -1
    };
    let st0 = st.open_conditional(has_else);
    lemma_open_conditional(st, has_else);
    lemma_open_conditional_aims(st, has_else, n, not);
    lemma_eval_leads(st0, condition);
    lemma_eval_aims(st0, condition, n, not);
    let (st1, v) = st0.eval(condition)->Ok_0;
    let branch = InstrView::Branch {
        cond: v,
        then_target: n as usize,
        else_target: (n + 1) as usize,
    };
    let st2 = st1.emit(branch);
    lemma_emit_one_leads(st1, branch);
    lemma_fits_before(st1, st2);
    lemma_block_count_grows(st0, st1);
    assert(opened(st, has_else).contains((f, n)) && opened(st, has_else).contains((f, n + 1)));
    lemma_appends_keeps(st0.unit, st1.unit, f, st.cur_block, f, n);
    lemma_appends_keeps(st0.unit, st1.unit, f, st.cur_block, f, n + 1);
    lemma_emit_one_aims(st1, branch, n, not);
    lemma_aim_trans(st0.unit, st1.unit, st2.unit, f, n, not, f, st.cur_block);
    lemma_leads_trans(st0, st1, st2);
    lemma_aim_trans(st.unit, st0.unit, st2.unit, f, n, not, f, st.cur_block);
}

/// Pruning a block that nothing new goes to leaves what is new going where
/// it went.
pub(crate) proof fn lemma_aim_prune(a: UnitView, b: UnitView, f: int, low: int, m: int)
    requires
        appended_aim(a, b, f, low, m),
        b.has_block(f, m),
    ensures
        appended_aim(a, b.prune(f, m), f, low, m),
{
    reveal(appended_aim);
    let p = b.prune(f, m);
    assert forall|g: int, d: int, i: int|
        p.has_block(g, d) && 0 <= i < p.block(g, d).instrs.len() && !(a.has_block(g, d) && i
            < a.block(g, d).instrs.len()) implies aims_at(
        p,
        g,
        if g == f {
            low
        } else {
            0
        },
        if g == f {
            m
        } else {
            -1
        },
        #[trigger] p.block(g, d).instrs[i],
    ) by {
        assert(b.has_block(g, d));
        assert(p.block(g, d).instrs == b.block(g, d).instrs);
        assert(aims_at(
            b,
            g,
            if g == f {
                low
            } else {
                0
            },
            if g == f {
                m
            } else {
                -1
            },
            b.block(g, d).instrs[i],
        ));
    }
}

pub(crate) proof fn lemma_branch_extends_aim(
    a: UnitView,
    low: int,
    not: int,
    st: GenState,
    block: int,
    stmts: Seq<StmtView>,
    merge: int,
    tail: bool,
)
    requires
        st.positioned(),
        st.unit.has_block(st.cur_fn, block),
        live(st.unit, st.cur_fn, merge),
        merge != block,
        0 <= low <= merge,
        lower_branch(st, block, stmts, merge, tail) is Ok,
        fits(lower_branch(st, block, stmts, merge, tail)->Ok_0.0.unit),
        appended_aim(a, st.unit, st.cur_fn, low, not),
        not == -1 || (not == merge && lower_branch(st, block, stmts, merge, tail)->Ok_0.1),
    ensures
        appended_aim(a, lower_branch(st, block, stmts, merge, tail)->Ok_0.0.unit, st.cur_fn, low, not),
    decreases stmts, 4nat, 0nat,
{
    let f = st.cur_fn;
    let (end, ends) = lower_branch(st, block, stmts, merge, tail)->Ok_0;
    lemma_branch_leads(st, block, stmts, merge, tail);
    lemma_branch_aims(st, block, stmts, merge, tail);
    lemma_aim_weaken(
        st.unit,
        end.unit,
        f,
        if ends {
            st.block_count()
        } else {
            merge
        },
        -1,
        low,
        not,
    );
    lemma_aim_trans(a, st.unit, end.unit, f, low, not, f, block);
}

/// What a conditional appends goes nowhere but to blocks that are part of
/// the function, and that the conditional itself has made: nothing goes to
/// a continuation that is pruned.
pub proof fn lemma_if_aims(st: GenState, s: StmtView, tail: bool)
    requires
        st.positioned(),
        s is If,
        lower_if(st, s, tail) is Ok,
        fits(lower_if(st, s, tail)->Ok_0.unit),
    ensures
        appended_aim(st.unit, lower_if(st, s, tail)->Ok_0.unit, st.cur_fn, st.block_count(), -1),
    decreases s, 0nat, 1nat,
{
    match s {
        StmtView::If { condition, then_branch, else_branch } => {
            if else_branch is Some {
                lemma_if_else_aims(st, s, tail);
            } else {
                lemma_if_then_aims(st, s, tail);
            }
        },
        _ => {},
    }
}

pub(crate) proof fn lemma_if_then_aims(st: GenState, s: StmtView, tail: bool)
    requires
        st.positioned(),
        s matches StmtView::If { else_branch, .. } && else_branch is None,
        lower_if(st, s, tail) is Ok,
        fits(lower_if(st, s, tail)->Ok_0.unit),
    ensures
        appended_aim(st.unit, lower_if(st, s, tail)->Ok_0.unit, st.cur_fn, st.block_count(), -1),
    decreases s, 0nat, 0nat,
{
    match s {
        StmtView::If { condition, then_branch, else_branch } => {
            let n = st.block_count();
            let st2 = st.begin_conditional(condition, false)->Ok_0;
            lemma_if_shape(st, s, tail);
            lemma_begin_conditional_aims(st, condition, false);
            lemma_branch_extends_aim(st.unit, n, -1, st2, n, then_branch, n + 1, tail);
        },
        _ => {},
    }
}

/// The steps of lowering a conditional with two branches.
pub(crate) proof fn lemma_if_else_unfolds(st: GenState, s: StmtView, tail: bool)
    requires
        s matches StmtView::If { else_branch, .. } && else_branch is Some,
        lower_if(st, s, tail) is Ok,
    ensures
        s matches StmtView::If { condition, then_branch, else_branch } && ({
            let n = st.block_count();
            let st2 = st.begin_conditional(condition, true)->Ok_0;
            let then_end = lower_branch(st2, n, then_branch, n + 2, tail);
            let else_end = lower_branch(then_end->Ok_0.0, n + 1, else_branch->Some_0, n + 2, tail);
            &&& st.begin_conditional(condition, true) is Ok
            &&& then_end is Ok
            &&& else_end is Ok
            &&& lower_if(st, s, tail)->Ok_0 == else_end->Ok_0.0.close_conditional(
                n + 2,
                tail && then_end->Ok_0.1 && else_end->Ok_0.1,
            )
        }),
{
    match s {
        StmtView::If { condition, then_branch, else_branch } => {
            let n = st.block_count();
            let st2 = st.begin_conditional(condition, true)->Ok_0;
            assert(st.begin_conditional(condition, true) is Ok);
            let then_end = lower_branch(st2, n, then_branch, n + 2, tail);
            assert(then_end is Ok);
            let else_end = lower_branch(then_end->Ok_0.0, n + 1, else_branch->Some_0, n + 2, tail);
            assert(else_end is Ok);
        },
        _ => {},
    }
}

#[verifier::rlimit(30)]
pub(crate) proof fn lemma_if_else_aims(st: GenState, s: StmtView, tail: bool)
    requires
        st.positioned(),
        s matches StmtView::If { else_branch, .. } && else_branch is Some,
        lower_if(st, s, tail) is Ok,
        fits(lower_if(st, s, tail)->Ok_0.unit),
    ensures
        appended_aim(st.unit, lower_if(st, s, tail)->Ok_0.unit, st.cur_fn, st.block_count(), -1),
    decreases s, 0nat, 0nat,
{
    match s {
        StmtView::If { condition, then_branch, else_branch } => {
            let f = st.cur_fn;
            let n = st.block_count();
            let merge = n + 2;
            let stmts = else_branch->Some_0;
            let end = lower_if(st, s, tail)->Ok_0;
            let st2 = st.begin_conditional(condition, true)->Ok_0;
            let (st3, then_ends) = lower_branch(st2, n, then_branch, merge, tail)->Ok_0;
            let (st4, else_ends) = lower_branch(st3, n + 1, stmts, merge, tail)->Ok_0;
            let prune = tail && then_ends && else_ends;
            let not = if prune {
                merge
            } else {
                -1
            };
            lemma_if_else_unfolds(st, s, tail);
            lemma_if_shape(st, s, tail);
            lemma_begin_conditional_aims(st, condition, true);
            lemma_aim_weaken(st.unit, st2.unit, f, n, n + 2, n, not);
            lemma_branch_extends_aim(st.unit, n, not, st2, n, then_branch, merge, tail);
            lemma_branch_extends_aim(st.unit, n, not, st3, n + 1, stmts, merge, tail);
            if prune {
                lemma_aim_prune(st.unit, st4.unit, f, n, merge);
            }
            lemma_aim_weaken(st.unit, end.unit, f, n, not, n, -1);
        },
        _ => {},
    }
}

/// The states that the lowering of a conditional goes through stand at
/// blocks of the unit, and the blocks of the conditional are part of the
/// function in each of them.
#[verifier::rlimit(30)]
pub(crate) proof fn lemma_if_shape(st: GenState, s: StmtView, tail: bool)
    requires
        st.positioned(),
        s is If,
        lower_if(st, s, tail) is Ok,
        fits(lower_if(st, s, tail)->Ok_0.unit),
    ensures
        s matches StmtView::If { condition, then_branch, else_branch } && ({
            let n = st.block_count();
            let merge = if else_branch is Some {
                n + 2
            } else {
                n + 1
            };
            let st2 = st.begin_conditional(condition, else_branch is Some)->Ok_0;
            let st3 = lower_branch(st2, n, then_branch, merge, tail)->Ok_0.0;
            &&& 0 <= n
            &&& st2.positioned() && st2.cur_fn == st.cur_fn && fits(st2.unit)
            &&& st2.unit.has_block(st.cur_fn, n) && live(st2.unit, st.cur_fn, merge)
            &&& st3.positioned() && st3.cur_fn == st.cur_fn && fits(st3.unit)
            &&& st3.unit.has_block(st.cur_fn, n + 1) && live(st3.unit, st.cur_fn, merge)
            &&& else_branch matches Some(stmts) ==> fits(
                lower_branch(st3, n + 1, stmts, merge, tail)->Ok_0.0.unit,
            ) && lower_branch(st3, n + 1, stmts, merge, tail)->Ok_0.0.unit.has_block(
                st.cur_fn,
                merge,
            ) && lower_branch(st3, n + 1, stmts, merge, tail)->Ok_0.0.cur_fn == st.cur_fn
        }),
{
    match s {
        StmtView::If { condition, then_branch, else_branch } => {
            let f = st.cur_fn;
            let c = st.cur_block;
            let n = st.block_count();
            let has_else = else_branch is Some;
            let merge = if has_else {
                n + 2
            } else {
                n + 1
            };
            let all = opened(st, has_else);
            let end = lower_if(st, s, tail)->Ok_0;
            lemma_if_follows(st, s, tail);
            let st2 = st.begin_conditional(condition, has_else)->Ok_0;
            lemma_begin_conditional(st, condition, has_else);
            assert(all.contains((f, n)) && all.contains((f, n + 1)) && all.contains((f, merge)));
            let (st3, then_ends) = lower_branch(st2, n, then_branch, merge, tail)->Ok_0;
            lemma_branch_leads(st2, n, then_branch, merge, tail);
            lemma_appends_keeps(st2.unit, st3.unit, f, n, f, n + 1);
            lemma_appends_keeps(st2.unit, st3.unit, f, n, f, merge);
            match else_branch {
                None => {
                    lemma_fits_before(st2.at(f, n), st3);
                },
                Some(stmts) => {
                    let (st4, else_ends) = lower_branch(st3, n + 1, stmts, merge, tail)->Ok_0;
                    lemma_branch_leads(st3, n + 1, stmts, merge, tail);
                    lemma_appends_keeps(st3.unit, st4.unit, f, n + 1, f, merge);
                    assert(fits(st4.unit)) by {
                        reveal(fits);
                        assert forall|h: int| 0 <= h < st4.unit.functions.len() implies (
                        #[trigger] st4.unit.functions[h]).blocks.len() <= usize::MAX by {
                            assert(end.unit.functions[h].blocks.len() == st4.unit.functions[h].blocks.len());
                        }
                    }
                    lemma_fits_before(st3.at(f, n + 1), st4);
                    lemma_fits_before(st2.at(f, n), st3);
                },
            }
        },
        _ => {},
    }
}

/// What the body of a new function appends is what the declaration of the
/// function appends.
pub(crate) proof fn lemma_aim_of_function(
    a: UnitView,
    e: UnitView,
    c: UnitView,
    f: int,
    x: int,
    low: int,
    g: int,
)
    requires
        a.has_block(f, x),
        g == a.functions.len(),
        appends_at(a, e, f, x),
        e.has_block(g, 0),
        e.functions.len() == g + 1,
        e.functions[g].blocks.len() == 1,
        e.block(g, 0).instrs.len() == 0,
        e.functions[f] == a.functions[f],
        appends_at(e, c, g, 0),
        appended_aim(e, c, g, 1, -1),
    ensures
        appended_aim(a, c, f, low, -1),
{
    reveal(appended_aim);
    assert forall|h: int, d: int, i: int|
        c.has_block(h, d) && 0 <= i < c.block(h, d).instrs.len() && !(a.has_block(h, d) && i
            < a.block(h, d).instrs.len()) implies aims_at(
        c,
        h,
        if h == f {
            low
        } else {
            0
        },
        if h == f {
            -1
        } else {
            -1
        },
        #[trigger] c.block(h, d).instrs[i],
    ) by {
        if h == f {
            // no block of the function under construction has changed
            assert(e.has_block(f, d)) by {
                reveal(appends_at);
                assert(e.functions[f].blocks.len() == c.functions[f].blocks.len());
            }
            lemma_appends_keeps(e, c, g, 0, f, d);
            assert(false);
        } else {
            if e.has_block(h, d) && i < e.block(h, d).instrs.len() {
                assert(a.has_block(h, d)) by {
                    reveal(appends_at);
                }
                lemma_appends_keeps(a, e, f, x, h, d);
                assert(false);
            }
            assert(aims_at(
                c,
                h,
                if h == g {
                    1
                } else {
                    0
                },
                -1,
                c.block(h, d).instrs[i],
            ));
        }
    }
}

/// What a function declaration appends goes nowhere but to blocks that are
/// part of their function.
pub proof fn lemma_fn_decl_aims(st: GenState, s: StmtView)
    requires
        st.positioned(),
        s is FnDecl,
        lower_fn_decl(st, s) is Ok,
        fits(lower_fn_decl(st, s)->Ok_0.unit),
    ensures
        appended_aim(st.unit, lower_fn_decl(st, s)->Ok_0.unit, st.cur_fn, st.block_count(), -1),
    decreases s, 0nat, 0nat,
{
    match s {
        StmtView::FnDecl { name, params, ty, body } => {
            let f = st.cur_fn;
            let c = st.cur_block;
            let g = st.unit.functions.len() as int;
            let types = lower_param_types(params)->Ok_0;
            let ret = lower_return_type(ty)->Ok_0;
            let entered = st.enter_function(name, types, ret);
            lemma_enter_function(st, name, types, ret);
            lemma_bind_params_leads(entered, params, params.len());
            let st1 = entered.bind_params(params, params.len())->Ok_0;
            lemma_block_leads(st1, body, true);
            let st2 = lower_block(st1, body, true)->Ok_0;
            let closed = st2.close();
            let ret_void = InstrView::Return { value: None };
            if !st2.terminated() {
                lemma_emit_one_leads(st2, ret_void);
            } else {
                lemma_grows_refl(st2.unit);
                lemma_appends_refl(st2.unit, st2.cur_fn, st2.cur_block);
            }
            lemma_fits_before(st2, closed);
            lemma_fits_before(st1, st2);
            lemma_bind_params_aims(entered, params, params.len());
            lemma_block_aims(st1, body, true);
            lemma_block_count_grows(entered, st1);
            lemma_block_count_grows(st1, st2);
            lemma_aim_weaken(st1.unit, st2.unit, g, st1.block_count(), -1, 1, -1);
            lemma_aim_steps(entered, st1, st2, 1, -1);
            if !st2.terminated() {
                lemma_emit_one_aims(st2, ret_void, 1, -1);
            } else {
                lemma_aim_refl(st2.unit, g, 1, -1);
            }
            lemma_leads_trans(entered, st1, st2);
            lemma_aim_steps(entered, st2, closed, 1, -1);
            lemma_leads_trans(entered, st2, closed);
            lemma_aim_of_function(st.unit, entered.unit, closed.unit, f, c, st.block_count(), g);
        },
        _ => {},
    }
}

/// Whether every jump of the unit goes to a block that is part of the
/// function of the jump.
pub open spec fn targets_valid(unit: UnitView) -> bool {
    forall|g: int, d: int, i: int|
        unit.has_block(g, d) && 0 <= i < unit.block(g, d).instrs.len() ==> aims_at(
            unit,
            g,
            0,
            -1,
            #[trigger] unit.block(g, d).instrs[i],
        )
}

/// Every jump of a compiled program goes to a block that is part of its
/// function, never to one that has been pruned: if that held of the unit
/// before, it holds of it after.
pub proof fn lemma_compiled_targets_are_valid(st: GenState, program: Seq<StmtView>)
    requires
        targets_valid(st.unit),
        lower_program(st, program) is Ok,
        fits(lower_program(st, program)->Ok_0.unit),
    ensures
        targets_valid(lower_program(st, program)->Ok_0.unit),
{
    let g = st.unit.functions.len() as int;
    let entered = GenState {
        unit: st.unit.add_function("main"@, Seq::empty(), Some(IrType::I32)).append_block(
            g,
            BlockLabel::Entry,
        ),
        cur_fn: g,
        cur_block: 0,
        ..st
    };
    lemma_block_leads(entered, program, true);
    let st1 = lower_block(entered, program, true)->Ok_0;
    let end = st1.close();
    let ret_void = InstrView::Return { value: None };
    if !st1.terminated() {
        lemma_emit_one_leads(st1, ret_void);
        lemma_emit_one_aims(st1, ret_void, 1, -1);
    } else {
        lemma_grows_refl(st1.unit);
        lemma_appends_refl(st1.unit, st1.cur_fn, st1.cur_block);
        lemma_aim_refl(st1.unit, g, 1, -1);
    }
    lemma_fits_before(st1, end);
    lemma_block_aims(entered, program, true);
    lemma_aim_steps(entered, st1, end, 1, -1);
    lemma_leads_trans(entered, st1, end);
    assert forall|h: int, d: int, i: int|
        end.unit.has_block(h, d) && 0 <= i < end.unit.block(h, d).instrs.len() implies aims_at(
        end.unit,
        h,
        0,
        -1,
        #[trigger] end.unit.block(h, d).instrs[i],
    ) by {
        if entered.unit.has_block(h, d) && i < entered.unit.block(h, d).instrs.len() {
            assert(st.unit.has_block(h, d));
            assert(entered.unit.block(h, d) == st.unit.block(h, d));
            lemma_appends_keeps_instr(entered.unit, end.unit, g, 0, h, d, i);
            let instr = st.unit.block(h, d).instrs[i];
            assert(aims_at(st.unit, h, 0, -1, instr));
            assert(aims_at(entered.unit, h, 0, -1, instr));
            lemma_aims_stays(entered.unit, end.unit, g, 0, h, 0, -1, instr);
        } else {
            reveal(appended_aim);
            assert(aims_at(
                end.unit,
                h,
                if h == g {
                    1
                } else {
                    0
                },
                -1,
                end.unit.block(h, d).instrs[i],
            ));
        }
    }
}

/// The unit of a program that is compiled by a new generator: a program
/// compiled on its own.
pub open spec fn compiled_alone(name: Seq<char>, program: Seq<StmtView>) -> Result<
    GenState,
    CodegenError,
> {
    lower_program(
        GenState {
            unit: UnitView { name, functions: Seq::empty() },
            scopes: seq![Map::empty()],
            cur_fn: 0,
            cur_block: 0,
        },
        program,
    )
}

/// The control flow of a program that is compiled on its own is sound:
/// every block of its unit ends in a terminator or is pruned, and every jump
/// goes to a block of the function of the jump that is not pruned.
pub proof fn lemma_control_flow_is_sound(name: Seq<char>, program: Seq<StmtView>)
    requires
        compiled_alone(name, program) is Ok,
        fits(compiled_alone(name, program)->Ok_0.unit),
    ensures
        all_closed(compiled_alone(name, program)->Ok_0.unit),
        targets_valid(compiled_alone(name, program)->Ok_0.unit),
{
    let st = GenState {
        unit: UnitView { name, functions: Seq::empty() },
        scopes: seq![Map::empty()],
        cur_fn: 0,
        cur_block: 0,
    };
    lemma_compiled_blocks_are_closed(st, program);
    lemma_compiled_targets_are_valid(st, program);
}

} // verus!
