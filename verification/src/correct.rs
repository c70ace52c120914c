//! The proof that compiled code does what the program means: the function
//! `main` of the unit returns what the program returns, and the function of
//! a declaration returns what the declared function returns.

use crate::ast::{ExprView, ParamView, StmtView};
use crate::flow::{
    appends_at, compiled_alone, lemma_appends_keeps, lemma_appends_refl,
    lemma_begin_conditional, lemma_bind_leads, lemma_bind_params_leads, lemma_block_count_grows,
    lemma_block_leads, lemma_branch_leads, lemma_emit_leads, lemma_enter_function,
    lemma_eval_leads, lemma_expr_is_straight, lemma_if_else_unfolds, lemma_if_leads,
    lemma_leads_trans, lemma_open_conditional, lemma_stmt_leads, lemma_stmts_lead, live, opened,
};
use crate::ir::{BlockLabel, InstrView, IrType, Operand, Signature, Slot, UnitView, Value};
use crate::laws::{lemma_branch_follows, lemma_fn_decl_follows, lemma_if_follows};
use crate::lower::{
    default_value, lemma_emit_all_basics, lower_block, lower_branch, lower_expr, lower_fn_decl,
    lower_if, lower_param_types, lower_return_type, lower_stmt, lower_stmts, lower_type,
    GenState,
};
use crate::meaning::{
    assign, block_meaning, conditional_meaning, declared_by, declared_in, define, entry_store,
    function_meaning, lookup, program_meaning, returns_within, run_for, step, stmt_meaning, stmts_meaning, store_reader,
    value_in, value_in_env, Calls, Config, Env, Flow, Machine, Store, Variable,
};
use crate::scope::{resolve, ScopeView, VariableInfo};
use crate::semantics::{
    arg_values, expr_value, instr_value, lemma_expr_code_computes, run, slot_reader, wrap,
    Reader, Results, World,
};
use vstd::prelude::*;

verus! {

/// Running for some steps and then for some more is running for all of
/// them.
pub proof fn lemma_run_for_add(
    unit: UnitView,
    f: int,
    calls: Calls,
    params: Seq<int>,
    c: Config,
    k1: nat,
    k2: nat,
)
    requires
        run_for(unit, f, calls, params, c, k1) is Some,
    ensures
        run_for(unit, f, calls, params, c, k1 + k2) == run_for(
            unit,
            f,
            calls,
            params,
            run_for(unit, f, calls, params, c, k1)->Some_0,
            k2,
        ),
    decreases k1,
{
    if k1 == 0 {
    } else {
        match c {
            Config::Done(x) => {
                lemma_done_stays(unit, f, calls, params, x, k2);
                lemma_done_stays(unit, f, calls, params, x, k1 + k2);
            },
            Config::At { m, block, index } => {
                let next = step(unit, f, calls, params, m, block, index)->Some_0;
                lemma_run_for_add(unit, f, calls, params, next, (k1 - 1) as nat, k2);
            },
        }
    }
}

/// A function that is done stays done.
pub proof fn lemma_done_stays(
    unit: UnitView,
    f: int,
    calls: Calls,
    params: Seq<int>,
    x: Option<int>,
    k: nat,
)
    ensures
        run_for(unit, f, calls, params, Config::Done(x), k) == Some(Config::Done(x)),
{
}

/// Code that computes, where it stands in a block of the unit, runs there
/// as it runs by itself: in as many steps as it has instructions, it leaves
/// the function behind it with the results that it computes.
pub proof fn lemma_code_runs(
    unit: UnitView,
    f: int,
    calls: Calls,
    params: Seq<int>,
    m: Machine,
    block: int,
    base: int,
    code: Seq<InstrView>,
)
    requires
        live(unit, f, block),
        0 <= base,
        base + code.len() <= unit.block(f, block).instrs.len(),
        forall|j: int| 0 <= j < code.len() ==> unit.block(f, block).instrs[base + j] == #[trigger] code[j],
        run(World { memory: m.memory, calls }, block, base, code, m.results) is Some,
    ensures
        run_for(unit, f, calls, params, Config::At { m, block, index: base }, code.len()) == Some(
            Config::At {
                m: Machine {
                    results: run(
                        World { memory: m.memory, calls },
                        block,
                        base,
                        code,
                        m.results,
                    )->Some_0,
                    ..m
                },
                block,
                index: base + code.len(),
            },
        ),
    decreases code.len(),
{
    let world = World { memory: m.memory, calls };
    let start = Config::At { m, block, index: base };
    if code.len() == 0 {
    } else {
        let front = code.drop_last();
        assert forall|j: int| 0 <= j < front.len() implies unit.block(f, block).instrs[base + j]
            == #[trigger] front[j] by {
            assert(front[j] == code[j]);
        }
        lemma_code_runs(unit, f, calls, params, m, block, base, front);
        let before = run(world, block, base, front, m.results)->Some_0;
        let middle = Config::At {
            m: Machine { results: before, ..m },
            block,
            index: base + front.len(),
        };
        lemma_run_for_add(unit, f, calls, params, start, front.len(), 1);
        let instr = code.last();
        assert(unit.block(f, block).instrs[base + front.len()] == code[front.len() as int]);
        assert(instr_value(world, before, instr) is Some);
        assert(run_for(unit, f, calls, params, middle, 1) == step(
            unit,
            f,
            calls,
            params,
            Machine { results: before, ..m },
            block,
            base + front.len(),
        )) by {
            reveal_with_fuel(run_for, 2);
        }
    }
}

/// The value of an expression depends on its variables only through what
/// they hold: where every variable that holds something for one reader
/// holds the same for another, what has a value for the first has that
/// value for the other.
pub proof fn lemma_expr_value_agrees(
    first: Reader,
    second: Reader,
    sigs: Seq<Signature>,
    calls: Calls,
    e: ExprView,
)
    requires
        forall|name: Seq<char>| #[trigger] first(name) is Some ==> second(name) == first(name),
        expr_value(first, sigs, calls, e) is Some,
    ensures
        expr_value(second, sigs, calls, e) == expr_value(first, sigs, calls, e),
    decreases e, 0nat,
{
    match e {
        ExprView::IntLit(_) => {},
        ExprView::BoolLit(_) => {},
        ExprView::VarRef { name } => {
            assert(first(name) is Some);
        },
        ExprView::UnaryOp { op, expr } => {
            lemma_expr_value_agrees(first, second, sigs, calls, *expr);
        },
        ExprView::BinOp { lhs, op, rhs } => {
            lemma_expr_value_agrees(first, second, sigs, calls, *lhs);
            lemma_expr_value_agrees(first, second, sigs, calls, *rhs);
        },
        ExprView::FnCall { name, args } => {
            lemma_arg_values_agree(first, second, sigs, calls, args, args.len());
        },
    }
}

proof fn lemma_arg_values_agree(
    first: Reader,
    second: Reader,
    sigs: Seq<Signature>,
    calls: Calls,
    args: Seq<ExprView>,
    n: nat,
)
    requires
        forall|name: Seq<char>| #[trigger] first(name) is Some ==> second(name) == first(name),
        arg_values(first, sigs, calls, args, n) is Some,
    ensures
        arg_values(second, sigs, calls, args, n) == arg_values(first, sigs, calls, args, n),
    decreases args, n,
{
    if n == 0 || n > args.len() {
    } else {
        lemma_arg_values_agree(first, second, sigs, calls, args, (n - 1) as nat);
        lemma_expr_value_agrees(first, second, sigs, calls, args[n - 1]);
    }
}

/// Whether the variable of a running program is what the generator has
/// bound its name to: it has the type and the mutability of the binding,
/// the slot of the binding holds its value, and the slot has been allocated
/// in the function under construction.
pub open spec fn bound_as(
    variable: Variable,
    info: VariableInfo,
    st: GenState,
    memory: Map<Slot, int>,
) -> bool {
    &&& variable.ty == info.ty
    &&& variable.is_mutable == info.is_mutable
    &&& memory.contains_key(info.slot)
    &&& memory[info.slot] == variable.value
    &&& st.unit.has_block(st.cur_fn, info.slot.block as int)
    &&& info.slot.index < st.unit.block(st.cur_fn, info.slot.block as int).instrs.len()
}

/// Whether the variables of a running program are what the generator has
/// bound their names to, scope by scope, and no two of them share a slot.
#[verifier::opaque]
pub open spec fn stores_agree(
    store: Store,
    scopes: Seq<ScopeView>,
    st: GenState,
    memory: Map<Slot, int>,
) -> bool {
    &&& store.len() == scopes.len()
    &&& forall|i: int, name: Seq<char>|
        0 <= i < scopes.len() ==> store[i].contains_key(name)
            == #[trigger] scopes[i].contains_key(name)
    &&& forall|i: int, name: Seq<char>|
        0 <= i < scopes.len() && #[trigger] scopes[i].contains_key(name) ==> bound_as(
            store[i][name],
            scopes[i][name],
            st,
            memory,
        )
    &&& forall|i: int, name: Seq<char>, j: int, other: Seq<char>|
        0 <= i < scopes.len() && 0 <= j < scopes.len() && #[trigger] scopes[i].contains_key(name)
            && #[trigger] scopes[j].contains_key(other) && !(i == j && name == other)
            ==> scopes[i][name].slot != scopes[j][other].slot
}

/// Whether what a running program knows is what the generator knows: the
/// same functions, and the same variables, each held by its slot.
pub open spec fn agrees(env: Env, st: GenState, memory: Map<Slot, int>) -> bool {
    &&& env.sigs == st.unit.signatures()
    &&& stores_agree(env.store, st.scopes, st, memory)
}

/// A name is in sight for a running program where it is for the generator,
/// and the variable is what the name is bound to.
pub proof fn lemma_lookup_agrees(
    store: Store,
    scopes: Seq<ScopeView>,
    st: GenState,
    memory: Map<Slot, int>,
    name: Seq<char>,
)
    requires
        stores_agree(store, scopes, st, memory),
    ensures
        lookup(store, name) is Some == resolve(scopes, name) is Some,
        resolve(scopes, name) matches Some(info) ==> bound_as(
            lookup(store, name)->Some_0,
            info,
            st,
            memory,
        ),
    decreases scopes.len(),
{
    reveal(stores_agree);
    if scopes.len() == 0 {
    } else if scopes.last().contains_key(name) {
    } else {
        lemma_stores_agree_below(store, scopes, st, memory);
        lemma_lookup_agrees(store.drop_last(), scopes.drop_last(), st, memory, name);
    }
}

/// What agrees, agrees without the innermost scope.
pub proof fn lemma_stores_agree_below(
    store: Store,
    scopes: Seq<ScopeView>,
    st: GenState,
    memory: Map<Slot, int>,
)
    requires
        stores_agree(store, scopes, st, memory),
        scopes.len() > 0,
    ensures
        stores_agree(store.drop_last(), scopes.drop_last(), st, memory),
{
    reveal(stores_agree);
    let below = scopes.drop_last();
    let held = store.drop_last();
    assert forall|i: int, name: Seq<char>| 0 <= i < below.len() implies held[i].contains_key(name)
        == #[trigger] below[i].contains_key(name) by {
        assert(scopes[i].contains_key(name) == store[i].contains_key(name));
    }
    assert forall|i: int, name: Seq<char>|
        0 <= i < below.len() && #[trigger] below[i].contains_key(name) implies bound_as(
        held[i][name],
        below[i][name],
        st,
        memory,
    ) by {
        assert(scopes[i].contains_key(name));
    }
    assert forall|i: int, name: Seq<char>, j: int, other: Seq<char>|
        0 <= i < below.len() && 0 <= j < below.len() && #[trigger] below[i].contains_key(name)
            && #[trigger] below[j].contains_key(other) && !(i == j && name == other)
            implies below[i][name].slot != below[j][other].slot by {
        assert(scopes[i].contains_key(name) && scopes[j].contains_key(other));
    }
}

/// What agrees, agrees with a new, empty scope on both sides.
pub proof fn lemma_stores_agree_above(
    store: Store,
    scopes: Seq<ScopeView>,
    st: GenState,
    memory: Map<Slot, int>,
)
    requires
        stores_agree(store, scopes, st, memory),
    ensures
        stores_agree(store.push(Map::empty()), scopes.push(Map::empty()), st, memory),
{
    reveal(stores_agree);
    let above = scopes.push(Map::empty());
    let held = store.push(Map::empty());
    assert forall|i: int, name: Seq<char>| 0 <= i < above.len() implies held[i].contains_key(name)
        == #[trigger] above[i].contains_key(name) by {
        if i < scopes.len() {
            assert(scopes[i].contains_key(name) == store[i].contains_key(name));
        }
    }
    assert forall|i: int, name: Seq<char>|
        0 <= i < above.len() && #[trigger] above[i].contains_key(name) implies bound_as(
        held[i][name],
        above[i][name],
        st,
        memory,
    ) by {
        assert(scopes[i].contains_key(name));
    }
    assert forall|i: int, name: Seq<char>, j: int, other: Seq<char>|
        0 <= i < above.len() && 0 <= j < above.len() && #[trigger] above[i].contains_key(name)
            && #[trigger] above[j].contains_key(other) && !(i == j && name == other)
            implies above[i][name].slot != above[j][other].slot by {
        assert(scopes[i].contains_key(name) && scopes[j].contains_key(other));
    }
}

/// What agrees in a state, agrees in a later state of the same function:
/// slots that have been allocated stay allocated.
pub proof fn lemma_stores_agree_later(
    store: Store,
    scopes: Seq<ScopeView>,
    st: GenState,
    later: GenState,
    x: int,
    memory: Map<Slot, int>,
)
    requires
        stores_agree(store, scopes, st, memory),
        later.cur_fn == st.cur_fn,
        appends_at(st.unit, later.unit, st.cur_fn, x),
    ensures
        stores_agree(store, scopes, later, memory),
{
    lemma_appended_holds(st.unit, later.unit, st.cur_fn, x, st.cur_fn, 0, 0);
    lemma_stores_agree_held(store, scopes, st, later, 0, 0, memory);
}

/// What agrees in a state, agrees in a state whose unit holds the code of
/// the first.
pub proof fn lemma_stores_agree_held(
    store: Store,
    scopes: Seq<ScopeView>,
    st: GenState,
    later: GenState,
    low: int,
    cur: int,
    memory: Map<Slot, int>,
)
    requires
        stores_agree(store, scopes, st, memory),
        later.cur_fn == st.cur_fn,
        holds_code(st.unit, later.unit, st.cur_fn, low, cur),
    ensures
        stores_agree(store, scopes, later, memory),
{
    reveal(stores_agree);
    assert forall|i: int, name: Seq<char>|
        0 <= i < scopes.len() && #[trigger] scopes[i].contains_key(name) implies bound_as(
        store[i][name],
        scopes[i][name],
        later,
        memory,
    ) by {
        let info = scopes[i][name];
        assert(bound_as(store[i][name], info, st, memory));
        lemma_held_instr(st.unit, later.unit, st.cur_fn, low, cur, info.slot.block as int, 0);
    }
}

/// Every variable that holds something for a running program holds the
/// same for the code: its slot holds it.
pub proof fn lemma_readers_agree(
    store: Store,
    scopes: Seq<ScopeView>,
    st: GenState,
    memory: Map<Slot, int>,
)
    requires
        stores_agree(store, scopes, st, memory),
    ensures
        forall|name: Seq<char>| #[trigger]
            store_reader(store)(name) is Some ==> slot_reader(scopes, memory)(name) == store_reader(
                store,
            )(name),
{
    assert forall|name: Seq<char>| #[trigger] store_reader(store)(name) is Some implies slot_reader(
        scopes,
        memory,
    )(name) == store_reader(store)(name) by {
        lemma_lookup_agrees(store, scopes, st, memory, name);
    }
}

/// The scope in which `name` is in sight: the innermost that binds it; -1
/// where none does.
pub open spec fn level_of(scopes: Seq<ScopeView>, name: Seq<char>) -> int
    decreases scopes.len(),
{
    if scopes.len() == 0 {
        -1
    } else if scopes.last().contains_key(name) {
        scopes.len() - 1
    } else {
        level_of(scopes.drop_last(), name)
    }
}

proof fn lemma_level_of(scopes: Seq<ScopeView>, name: Seq<char>)
    ensures
        -1 <= level_of(scopes, name) < scopes.len(),
        resolve(scopes, name) is Some == (level_of(scopes, name) >= 0),
        level_of(scopes, name) >= 0 ==> scopes[level_of(scopes, name)].contains_key(name)
            && resolve(scopes, name) == Some(scopes[level_of(scopes, name)][name]),
    decreases scopes.len(),
{
    if scopes.len() == 0 {
    } else if scopes.last().contains_key(name) {
    } else {
        lemma_level_of(scopes.drop_last(), name);
    }
}

proof fn lemma_assign_at_level(store: Store, scopes: Seq<ScopeView>, name: Seq<char>, x: int)
    requires
        store.len() == scopes.len(),
        forall|i: int, n: Seq<char>|
            0 <= i < scopes.len() ==> store[i].contains_key(n) == #[trigger] scopes[i].contains_key(n),
        level_of(scopes, name) >= 0,
    ensures
        assign(store, name, x) == Some(
            store.update(
                level_of(scopes, name),
                store[level_of(scopes, name)].insert(
                    name,
                    Variable { value: x, ..store[level_of(scopes, name)][name] },
                ),
            ),
        ),
        lookup(store, name) == Some(store[level_of(scopes, name)][name]),
    decreases scopes.len(),
{
    lemma_level_of(scopes, name);
    assert(store.last().contains_key(name) == scopes.last().contains_key(name));
    if scopes.last().contains_key(name) {
    } else {
        let below = scopes.drop_last();
        let held = store.drop_last();
        assert forall|i: int, n: Seq<char>| 0 <= i < below.len() implies held[i].contains_key(n)
            == #[trigger] below[i].contains_key(n) by {
            assert(store[i].contains_key(n) == scopes[i].contains_key(n));
        }
        lemma_assign_at_level(held, below, name, x);
        lemma_level_of(below, name);
        let level = level_of(below, name);
        let changed = held.update(
            level,
            held[level].insert(name, Variable { value: x, ..held[level][name] }),
        );
        assert(changed.push(store.last()) =~= store.update(
            level,
            store[level].insert(name, Variable { value: x, ..store[level][name] }),
        ));
    }
}

/// A variable that is assigned to holds the new value, in its slot, and
/// every other variable holds what it held.
pub proof fn lemma_stores_agree_assigned(
    store: Store,
    scopes: Seq<ScopeView>,
    st: GenState,
    memory: Map<Slot, int>,
    name: Seq<char>,
    x: int,
)
    requires
        stores_agree(store, scopes, st, memory),
        resolve(scopes, name) is Some,
    ensures
        assign(store, name, x) is Some,
        lookup(store, name) is Some,
        bound_as(lookup(store, name)->Some_0, resolve(scopes, name)->Some_0, st, memory),
        stores_agree(
            assign(store, name, x)->Some_0,
            scopes,
            st,
            memory.insert(resolve(scopes, name)->Some_0.slot, x),
        ),
{
    reveal(stores_agree);
    lemma_level_of(scopes, name);
    lemma_assign_at_level(store, scopes, name, x);
    lemma_lookup_agrees(store, scopes, st, memory, name);
    let level = level_of(scopes, name);
    let info = scopes[level][name];
    let after = assign(store, name, x)->Some_0;
    let held = memory.insert(info.slot, x);
    assert forall|i: int, n: Seq<char>| 0 <= i < scopes.len() implies after[i].contains_key(n)
        == #[trigger] scopes[i].contains_key(n) by {
        assert(store[i].contains_key(n) == scopes[i].contains_key(n));
    }
    assert forall|i: int, n: Seq<char>|
        0 <= i < scopes.len() && #[trigger] scopes[i].contains_key(n) implies bound_as(
        after[i][n],
        scopes[i][n],
        st,
        held,
    ) by {
        assert(bound_as(store[i][n], scopes[i][n], st, memory));
        assert(scopes[level].contains_key(name));
        if i == level && n == name {
        } else {
            assert(scopes[i][n].slot != scopes[level][name].slot);
        }
    }
}

/// A variable that is made holds its first value, in a slot that no other
/// variable has, and every other variable holds what it held.
pub proof fn lemma_stores_agree_bound(
    store: Store,
    st: GenState,
    memory: Map<Slot, int>,
    name: Seq<char>,
    value: Value,
    is_mutable: bool,
    x: int,
)
    requires
        st.positioned(),
        st.scopes.len() > 0,
        stores_agree(store, st.scopes, st, memory),
        st.bind(name, value, is_mutable) is Ok,
        0 <= st.cur_block <= usize::MAX,
        st.next_index() + 2 <= usize::MAX,
    ensures
        define(store, name, Variable { ty: value.ty, value: x, is_mutable }) is Some,
        stores_agree(
            define(store, name, Variable { ty: value.ty, value: x, is_mutable })->Some_0,
            st.bind(name, value, is_mutable)->Ok_0.scopes,
            st.bind(name, value, is_mutable)->Ok_0,
            memory.insert(
                Slot { block: st.cur_block as usize, index: st.next_index() as usize },
                x,
            ),
        ),
{
    reveal(stores_agree);
    let slot = Slot { block: st.cur_block as usize, index: st.next_index() as usize };
    let bound = st.bind(name, value, is_mutable)->Ok_0;
    let scopes = st.scopes;
    let top = scopes.len() - 1;
    let info = VariableInfo { slot, ty: value.ty, is_mutable };
    let variable = Variable { ty: value.ty, value: x, is_mutable };
    let after = define(store, name, variable)->Some_0;
    let held = memory.insert(slot, x);
    lemma_bind_leads(st, name, value, is_mutable);
    assert(store.last().contains_key(name) == scopes.last().contains_key(name));
    lemma_emit_all_basics(st, seq![InstrView::Alloca { ty: value.ty }]);
    lemma_emit_all_basics(
        st.emit(InstrView::Alloca { ty: value.ty }),
        seq![InstrView::Store { slot, value }],
    );
    assert forall|i: int, n: Seq<char>| 0 <= i < bound.scopes.len() implies after[i].contains_key(n)
        == #[trigger] bound.scopes[i].contains_key(n) by {
        assert(store[i].contains_key(n) == scopes[i].contains_key(n));
    }
    assert forall|i: int, n: Seq<char>|
        0 <= i < bound.scopes.len() && #[trigger] bound.scopes[i].contains_key(n) implies bound_as(
        after[i][n],
        bound.scopes[i][n],
        bound,
        held,
    ) by {
        if i == top && n == name {
        } else {
            assert(scopes[i].contains_key(n));
            let other = scopes[i][n];
            assert(bound_as(store[i][n], other, st, memory));
            lemma_appends_keeps(
                st.unit,
                bound.unit,
                st.cur_fn,
                st.cur_block,
                st.cur_fn,
                other.slot.block as int,
            );
            assert(other.slot != slot);
        }
    }
    assert forall|i: int, n: Seq<char>, j: int, other: Seq<char>|
        0 <= i < bound.scopes.len() && 0 <= j < bound.scopes.len()
            && #[trigger] bound.scopes[i].contains_key(n) && #[trigger] bound.scopes[j].contains_key(
            other,
        ) && !(i == j && n == other) implies bound.scopes[i][n].slot != bound.scopes[j][other].slot by {
        if i == top && n == name {
            assert(scopes[j].contains_key(other));
            assert(bound_as(store[j][other], scopes[j][other], st, memory));
        } else if j == top && other == name {
            assert(scopes[i].contains_key(n));
            assert(bound_as(store[i][n], scopes[i][n], st, memory));
        } else {
            assert(scopes[i].contains_key(n) && scopes[j].contains_key(other));
        }
    }
}

/// The functions of the unit after an expression has been evaluated are
/// those before.
proof fn lemma_eval_declares(st: GenState, e: ExprView)
    requires
        st.positioned(),
        st.eval(e) is Ok,
    ensures
        st.eval(e)->Ok_0.0.unit.signatures() == st.unit.signatures(),
        st.eval(e)->Ok_0.0.positioned(),
{
    lemma_emit_all_basics(st, lower_expr(st.ctx(), st.next_index(), e)->Ok_0.0);
}

proof fn lemma_emit_declares(st: GenState, instr: InstrView)
    requires
        st.positioned(),
    ensures
        st.emit(instr).unit.signatures() == st.unit.signatures(),
        st.emit(instr).positioned(),
{
    lemma_emit_all_basics(st, seq![instr]);
}

proof fn lemma_bind_declares(st: GenState, name: Seq<char>, value: Value, is_mutable: bool)
    requires
        st.positioned(),
        st.bind(name, value, is_mutable) is Ok,
    ensures
        st.bind(name, value, is_mutable)->Ok_0.unit.signatures() == st.unit.signatures(),
        st.bind(name, value, is_mutable)->Ok_0.positioned(),
{
    let alloca = InstrView::Alloca { ty: value.ty };
    lemma_emit_declares(st, alloca);
    let slot = Slot { block: st.cur_block as usize, index: st.next_index() as usize };
    lemma_emit_declares(st.emit(alloca), InstrView::Store { slot, value });
}

proof fn lemma_bind_params_declares(st: GenState, params: Seq<ParamView>, n: nat)
    requires
        st.positioned(),
        st.bind_params(params, n) is Ok,
    ensures
        st.bind_params(params, n)->Ok_0.unit.signatures() == st.unit.signatures(),
        st.bind_params(params, n)->Ok_0.positioned(),
    decreases n,
{
    if n == 0 || n > params.len() {
    } else {
        lemma_bind_params_declares(st, params, (n - 1) as nat);
        let st1 = st.bind_params(params, (n - 1) as nat)->Ok_0;
        let ty = lower_type(params[n - 1].ty)->Ok_0;
        let value = Value { ty, source: Operand::Param((n - 1) as usize) };
        lemma_bind_declares(st1, params[n - 1].name, value, false);
    }
}

/// The functions of the unit after a statement has been lowered are those
/// before and those that the statement declares.
pub proof fn lemma_stmt_declares(st: GenState, s: StmtView, tail: bool)
    requires
        st.positioned(),
        lower_stmt(st, s, tail) is Ok,
    ensures
        lower_stmt(st, s, tail)->Ok_0.unit.signatures() == st.unit.signatures() + declared_by(s),
        lower_stmt(st, s, tail)->Ok_0.positioned(),
    decreases s, 1nat, 0nat,
{
    let sigs = st.unit.signatures();
    assert(sigs + Seq::<Signature>::empty() =~= sigs);
    match s {
        StmtView::ExprStmt { expr } => {
            lemma_eval_declares(st, expr);
        },
        StmtView::Expr { expr } => {
            lemma_eval_declares(st, expr);
            let (st1, v) = st.eval(expr)->Ok_0;
            lemma_emit_declares(st1, InstrView::Return { value: Some(v) });
        },
        StmtView::Return { expr } => match expr {
            None => {
                lemma_emit_declares(st, InstrView::Return { value: None });
            },
            Some(e) => {
                lemma_eval_declares(st, e);
                let (st1, v) = st.eval(e)->Ok_0;
                lemma_emit_declares(st1, InstrView::Return { value: Some(v) });
            },
        },
        StmtView::Assign { name, value } => {
            lemma_eval_declares(st, value);
            let info = resolve(st.scopes, name)->Some_0;
            let (st1, v) = st.eval(value)->Ok_0;
            lemma_emit_declares(st1, InstrView::Store { slot: info.slot, value: v });
        },
        StmtView::LetDecl { name, ty, value } => {
            let e = value->Some_0;
            lemma_eval_declares(st, e);
            let (st1, v) = st.eval(e)->Ok_0;
            lemma_bind_declares(st1, name, v, false);
        },
        StmtView::VarDecl { name, ty, value } => match value {
            Some(e) => {
                lemma_eval_declares(st, e);
                let (st1, v) = st.eval(e)->Ok_0;
                lemma_bind_declares(st1, name, v, true);
            },
            None => {
                let v = default_value(ty->Some_0)->Ok_0;
                lemma_bind_declares(st, name, v, true);
            },
        },
        StmtView::If { .. } => {
            lemma_if_declares(st, s, tail);
        },
        StmtView::FnDecl { .. } => {
            lemma_fn_decl_declares(st, s);
        },
    }
}

proof fn lemma_stmts_declare(
    st: GenState,
    stmts: Seq<StmtView>,
    i: nat,
    tail: bool,
    base: Seq<Signature>,
)
    requires
        st.positioned(),
        i <= stmts.len(),
        lower_stmts(st, stmts, i, tail) is Ok,
        st.unit.signatures() == base + declared_in(stmts, i),
    ensures
        lower_stmts(st, stmts, i, tail)->Ok_0.unit.signatures() == base + declared_in(
            stmts,
            stmts.len(),
        ),
        lower_stmts(st, stmts, i, tail)->Ok_0.positioned(),
    decreases stmts, 1nat, stmts.len() - i,
{
    if i >= stmts.len() {
    } else {
        let last = tail && i == stmts.len() - 1;
        lemma_stmt_declares(st, stmts[i as int], last);
        let st1 = lower_stmt(st, stmts[i as int], last)->Ok_0;
        assert(base + declared_in(stmts, i + 1) =~= (base + declared_in(stmts, i)) + declared_by(
            stmts[i as int],
        ));
        lemma_stmts_declare(st1, stmts, i + 1, tail, base);
    }
}

/// The functions of the unit after a block has been lowered are those
/// before and those that the statements of the block declare.
pub proof fn lemma_block_declares(st: GenState, stmts: Seq<StmtView>, tail: bool)
    requires
        st.positioned(),
        lower_block(st, stmts, tail) is Ok,
    ensures
        lower_block(st, stmts, tail)->Ok_0.unit.signatures() == st.unit.signatures() + declared_in(
            stmts,
            stmts.len(),
        ),
        lower_block(st, stmts, tail)->Ok_0.positioned(),
    decreases stmts, 2nat, 0nat,
{
    let entered = GenState { scopes: st.scopes.push(Map::empty()), ..st };
    let sigs = st.unit.signatures();
    assert(sigs + declared_in(stmts, 0) =~= sigs);
    lemma_stmts_declare(entered, stmts, 0, tail, sigs);
}

proof fn lemma_branch_declares(st: GenState, block: int, stmts: Seq<StmtView>, merge: int, tail: bool)
    requires
        st.unit.has_block(st.cur_fn, block),
        lower_branch(st, block, stmts, merge, tail) is Ok,
    ensures
        lower_branch(st, block, stmts, merge, tail)->Ok_0.0.unit.signatures()
            == st.unit.signatures() + declared_in(stmts, stmts.len()),
        lower_branch(st, block, stmts, merge, tail)->Ok_0.0.positioned(),
    decreases stmts, 3nat, 0nat,
{
    let start = st.at(st.cur_fn, block);
    lemma_block_declares(start, stmts, tail);
    let st1 = lower_block(start, stmts, tail)->Ok_0;
    if !st1.terminated() {
        lemma_emit_declares(st1, InstrView::Jump { target: merge as usize });
    }
}

proof fn lemma_begin_conditional_declares(st: GenState, condition: ExprView, has_else: bool)
    requires
        st.positioned(),
        st.begin_conditional(condition, has_else) is Ok,
    ensures
        st.begin_conditional(condition, has_else)->Ok_0.unit.signatures() == st.unit.signatures(),
        st.begin_conditional(condition, has_else)->Ok_0.positioned(),
        st.begin_conditional(condition, has_else)->Ok_0.cur_fn == st.cur_fn,
        st.begin_conditional(condition, has_else)->Ok_0.unit.has_block(st.cur_fn, st.block_count()),
        st.begin_conditional(condition, has_else)->Ok_0.unit.has_block(
            st.cur_fn,
            st.block_count() + 1,
        ),
{
    let f = st.cur_fn;
    let n = st.block_count();
    lemma_begin_conditional(st, condition, has_else);
    lemma_open_conditional(st, has_else);
    let st0 = st.open_conditional(has_else);
    assert(st0.unit.signatures() =~= st.unit.signatures());
    lemma_eval_declares(st0, condition);
    let (st1, v) = st0.eval(condition)->Ok_0;
    lemma_emit_declares(
        st1,
        InstrView::Branch { cond: v, then_target: n as usize, else_target: (n + 1) as usize },
    );
    assert(opened(st, has_else).contains((f, n)));
    assert(opened(st, has_else).contains((f, n + 1)));
}

/// The statements of a branch of the conditional `s`: of the `then` branch
/// where `then` is set, else of the `else` branch.
pub open spec fn branch_of(s: StmtView, then: bool) -> Seq<StmtView> {
    match s {
        StmtView::If { then_branch, else_branch, .. } => if then {
            then_branch
        } else {
            match else_branch {
                Some(stmts) => stmts,
                None => Seq::empty(),
            }
        },
        _ => Seq::empty(),
    }
}

proof fn lemma_branch_of_declares(
    st: GenState,
    block: int,
    s: StmtView,
    then: bool,
    merge: int,
    tail: bool,
)
    requires
        s matches StmtView::If { else_branch, .. } && (then || else_branch is Some),
        st.unit.has_block(st.cur_fn, block),
        lower_branch(st, block, branch_of(s, then), merge, tail) is Ok,
    ensures
        lower_branch(st, block, branch_of(s, then), merge, tail)->Ok_0.0.unit.signatures()
            == st.unit.signatures() + declared_in(branch_of(s, then), branch_of(s, then).len()),
        lower_branch(st, block, branch_of(s, then), merge, tail)->Ok_0.0.positioned(),
    decreases s, 0nat, 0nat,
{
    match s {
        StmtView::If { then_branch, else_branch, .. } => {
            if then {
                lemma_branch_declares(st, block, then_branch, merge, tail);
            } else {
                match else_branch {
                    Some(stmts) => {
                        lemma_branch_declares(st, block, stmts, merge, tail);
                    },
                    None => {},
                }
            }
        },
        _ => {},
    }
}

#[verifier::rlimit(30)]
proof fn lemma_if_declares(st: GenState, s: StmtView, tail: bool)
    requires
        st.positioned(),
        s is If,
        lower_if(st, s, tail) is Ok,
    ensures
        lower_if(st, s, tail)->Ok_0.unit.signatures() == st.unit.signatures() + declared_by(s),
        lower_if(st, s, tail)->Ok_0.positioned(),
    decreases s, 0nat, 1nat,
{
    match s {
        StmtView::If { condition, then_branch, else_branch } => {
            let f = st.cur_fn;
            let n = st.block_count();
            let sigs = st.unit.signatures();
            lemma_if_follows(st, s, tail);
            if else_branch is Some {
                let stmts = branch_of(s, false);
                lemma_if_else_unfolds(st, s, tail);
                let st2 = st.begin_conditional(condition, true)->Ok_0;
                lemma_begin_conditional_declares(st, condition, true);
                lemma_branch_of_declares(st2, n, s, true, n + 2, tail);
                let st3 = lower_branch(st2, n, then_branch, n + 2, tail)->Ok_0.0;
                lemma_branch_leads(st2, n, then_branch, n + 2, tail);
                lemma_appends_keeps(st2.unit, st3.unit, f, n, f, n + 1);
                lemma_branch_of_declares(st3, n + 1, s, false, n + 2, tail);
                let st4 = lower_branch(st3, n + 1, stmts, n + 2, tail)->Ok_0.0;
                let end = lower_if(st, s, tail)->Ok_0;
                assert(end.unit.signatures() =~= st4.unit.signatures());
                assert((sigs + declared_in(then_branch, then_branch.len())) + declared_in(
                    stmts,
                    stmts.len(),
                ) =~= sigs + declared_by(s));
            } else {
                let st2 = st.begin_conditional(condition, false)->Ok_0;
                lemma_begin_conditional_declares(st, condition, false);
                lemma_branch_of_declares(st2, n, s, true, n + 1, tail);
                assert(declared_by(s) =~= declared_in(then_branch, then_branch.len()));
            }
        },
        _ => {},
    }
}

proof fn lemma_fn_decl_declares(st: GenState, s: StmtView)
    requires
        st.positioned(),
        s is FnDecl,
        lower_fn_decl(st, s) is Ok,
    ensures
        lower_fn_decl(st, s)->Ok_0.unit.signatures() == st.unit.signatures() + declared_by(s),
        lower_fn_decl(st, s)->Ok_0.positioned(),
    decreases s, 0nat, 0nat,
{
    match s {
        StmtView::FnDecl { name, params, ty, body } => {
            let types = lower_param_types(params)->Ok_0;
            let ret = lower_return_type(ty)->Ok_0;
            let sigs = st.unit.signatures();
            let entered = st.enter_function(name, types, ret);
            lemma_enter_function(st, name, types, ret);
            assert(entered.unit.signatures() =~= sigs.push(Signature { name, ret }));
            lemma_bind_params_declares(entered, params, params.len());
            let st1 = entered.bind_params(params, params.len())->Ok_0;
            lemma_block_declares(st1, body, true);
            let st2 = lower_block(st1, body, true)->Ok_0;
            if !st2.terminated() {
                lemma_emit_declares(st2, InstrView::Return { value: None });
            }
            lemma_fn_decl_follows(st, s);
            assert(sigs.push(Signature { name, ret }) + declared_in(body, body.len()) =~= sigs
                + declared_by(s));
        },
        _ => {},
    }
}

/// Whether block `d` of function `f` in `unit` starts with the instructions
/// that it has in `a`, and, where it is block `cur` or one from index `low`
/// on, is part of the function in `unit` if it is in `a`.
pub open spec fn holds_block(a: UnitView, unit: UnitView, f: int, low: int, cur: int, d: int) -> bool {
    &&& unit.has_block(f, d)
    &&& a.block(f, d).instrs.len() <= unit.block(f, d).instrs.len()
    &&& unit.block(f, d).instrs.take(a.block(f, d).instrs.len() as int) == a.block(f, d).instrs
    &&& (d >= low || d == cur) ==> unit.block(f, d).pruned == a.block(f, d).pruned
}

/// Whether `unit` holds the code that `a` holds for function `f`: every
/// block of the function in `a` is a block in `unit` that starts with the
/// same instructions; and the blocks from index `low` on, and block `cur`,
/// are part of the function in `unit` if they are in `a`.
#[verifier::opaque]
pub open spec fn holds_code(a: UnitView, unit: UnitView, f: int, low: int, cur: int) -> bool {
    &&& a.functions.len() <= unit.functions.len()
    &&& forall|d: int| a.has_block(f, d) ==> #[trigger] holds_block(a, unit, f, low, cur, d)
}

/// Whether the places of the unit are machine integers: the indices of its
/// functions, of the blocks of function `f`, and of their instructions.
#[verifier::opaque]
pub open spec fn sized(unit: UnitView, f: int) -> bool {
    &&& unit.functions.len() <= usize::MAX
    &&& 0 <= f < unit.functions.len() ==> unit.functions[f].blocks.len() <= usize::MAX
    &&& forall|d: int| unit.has_block(f, d) ==> #[trigger] unit.block(f, d).instrs.len() <= usize::MAX
}

/// A unit that something has been appended to holds the code that it held.
pub proof fn lemma_appended_holds(a: UnitView, b: UnitView, g: int, x: int, f: int, low: int, cur: int)
    requires
        appends_at(a, b, g, x),
    ensures
        holds_code(a, b, f, low, cur),
{
    reveal(holds_code);
    assert(a.functions.len() <= b.functions.len()) by {
        reveal(appends_at);
    }
    assert forall|d: int| a.has_block(f, d) implies #[trigger] holds_block(a, b, f, low, cur, d) by {
        lemma_appends_keeps(a, b, g, x, f, d);
        if g == f && d == x {
            reveal(appends_at);
        } else {
            assert(b.block(f, d).instrs.take(a.block(f, d).instrs.len() as int) =~= a.block(
                f,
                d,
            ).instrs);
        }
    }
}

/// What holds the code of a unit holds the code of what that unit holds the
/// code of.
pub proof fn lemma_holds_trans(
    a: UnitView,
    b: UnitView,
    c: UnitView,
    f: int,
    low1: int,
    cur1: int,
    low2: int,
    cur2: int,
)
    requires
        holds_code(a, b, f, low1, cur1),
        holds_code(b, c, f, low2, cur2),
        low2 <= low1,
        cur1 >= low2 || cur1 == cur2,
    ensures
        holds_code(a, c, f, low1, cur1),
{
    reveal(holds_code);
    assert forall|d: int| a.has_block(f, d) implies #[trigger] holds_block(a, c, f, low1, cur1, d) by {
        assert(holds_block(a, b, f, low1, cur1, d));
        assert(holds_block(b, c, f, low2, cur2, d));
        let n = a.block(f, d).instrs.len() as int;
        let k = b.block(f, d).instrs.len() as int;
        assert(c.block(f, d).instrs.take(n) =~= c.block(f, d).instrs.take(k).take(n));
    }
}

/// An instruction of a unit is the same instruction in a unit that holds
/// its code, and a block that is part of the function stays so.
pub proof fn lemma_held_instr(a: UnitView, unit: UnitView, f: int, low: int, cur: int, d: int, i: int)
    requires
        holds_code(a, unit, f, low, cur),
        a.has_block(f, d),
    ensures
        unit.has_block(f, d),
        a.block(f, d).instrs.len() <= unit.block(f, d).instrs.len(),
        0 <= i < a.block(f, d).instrs.len() ==> unit.block(f, d).instrs[i] == a.block(f, d).instrs[i],
        (d >= low || d == cur) ==> live(unit, f, d) == live(a, f, d),
{
    reveal(holds_code);
    assert(holds_block(a, unit, f, low, cur, d));
    if 0 <= i < a.block(f, d).instrs.len() {
        assert(unit.block(f, d).instrs.take(a.block(f, d).instrs.len() as int)[i] == a.block(
            f,
            d,
        ).instrs[i]);
    }
}

/// The places of a unit are machine integers if those of a unit that holds
/// its code are.
pub proof fn lemma_held_sized(a: UnitView, unit: UnitView, f: int, low: int, cur: int)
    requires
        holds_code(a, unit, f, low, cur),
        sized(unit, f),
    ensures
        sized(a, f),
{
    reveal(holds_code);
    reveal(sized);
    assert forall|d: int| a.has_block(f, d) implies #[trigger] a.block(f, d).instrs.len()
        <= usize::MAX by {
        assert(holds_block(a, unit, f, low, cur, d));
        assert(unit.block(f, d).instrs.len() <= usize::MAX);
    }
    if 0 <= f < a.functions.len() {
        if a.functions[f].blocks.len() > 0 {
            let d = a.functions[f].blocks.len() - 1;
            assert(holds_block(a, unit, f, low, cur, d));
        }
    }
}

/// The bounds that follow where the places of a unit are machine integers.
pub proof fn lemma_sized(st: GenState)
    requires
        st.positioned(),
        sized(st.unit, st.cur_fn),
    ensures
        0 <= st.cur_block < usize::MAX,
        0 <= st.next_index() <= usize::MAX,
        st.block_count() <= usize::MAX,
        st.unit.signatures().len() <= usize::MAX,
{
    reveal(sized);
    assert(st.unit.block(st.cur_fn, st.cur_block).instrs.len() <= usize::MAX);
}

/// An expression is evaluated by the unit as the program evaluates it:
/// where the expression has a value for the program, the code of the
/// expression, where it stands in the unit, leaves behind it the function
/// with that value in the operand that stands for the expression.
pub proof fn lemma_eval_runs(
    unit: UnitView,
    calls: Calls,
    params: Seq<int>,
    st: GenState,
    e: ExprView,
    env: Env,
    m: Machine,
    low: int,
) -> (results: Results)
    requires
        st.positioned(),
        !st.terminated(),
        st.eval(e) is Ok,
        holds_code(st.eval(e)->Ok_0.0.unit, unit, st.cur_fn, low, st.cur_block),
        sized(unit, st.cur_fn),
        agrees(env, st, m.memory),
        value_in_env(env, calls, e) is Some,
    ensures
        run_for(
            unit,
            st.cur_fn,
            calls,
            params,
            Config::At { m, block: st.cur_block, index: st.next_index() },
            (st.eval(e)->Ok_0.0.next_index() - st.next_index()) as nat,
        ) == Some(
            Config::At {
                m: Machine { results, ..m },
                block: st.cur_block,
                index: st.eval(e)->Ok_0.0.next_index(),
            },
        ),
        st.next_index() <= st.eval(e)->Ok_0.0.next_index(),
        value_in(params, st.eval(e)->Ok_0.1, results) == Some(value_in_env(env, calls, e)->Some_0.1),
        st.eval(e)->Ok_0.1.ty == value_in_env(env, calls, e)->Some_0.0,
        !st.eval(e)->Ok_0.0.terminated(),
        st.eval(e)->Ok_0.0.positioned(),
        agrees(env, st.eval(e)->Ok_0.0, m.memory),
{
    reveal(value_in_env);
    let f = st.cur_fn;
    let block = st.cur_block;
    let base = st.next_index();
    let (st1, v) = st.eval(e)->Ok_0;
    let code = lower_expr(st.ctx(), base, e)->Ok_0.0;
    let world = World { memory: m.memory, calls };
    lemma_emit_all_basics(st, code);
    lemma_emit_leads(st, code);
    lemma_held_sized(st1.unit, unit, f, low, block);
    lemma_appended_holds(st.unit, st1.unit, f, block, f, low, block);
    lemma_held_sized(st.unit, st1.unit, f, low, block);
    lemma_sized(st1);
    lemma_sized(st);
    lemma_readers_agree(env.store, st.scopes, st, m.memory);
    lemma_expr_value_agrees(
        store_reader(env.store),
        slot_reader(st.scopes, m.memory),
        env.sigs,
        calls,
        e,
    );
    lemma_expr_code_computes(st.ctx(), world, base, e, m.results);
    let results = run(world, block, base, code, m.results)->Some_0;
    lemma_held_instr(st1.unit, unit, f, low, block, block, 0);
    assert forall|j: int| 0 <= j < code.len() implies unit.block(f, block).instrs[base + j]
        == #[trigger] code[j] by {
        lemma_held_instr(st1.unit, unit, f, low, block, block, base + j);
        assert(st1.here().instrs[base + j] == code[j]);
    }
    lemma_code_runs(unit, f, calls, params, m, block, base, code);
    lemma_stores_agree_later(env.store, st.scopes, st, st1, block, m.memory);
    lemma_expr_is_straight(st.ctx(), base, e);
    if code.len() > 0 {
        assert(st1.here().instrs.last() == code.last());
    } else {
        assert(st1.here().instrs =~= st.here().instrs);
    }
    results
}

/// Running for one step is taking the step.
pub proof fn lemma_one_step(
    unit: UnitView,
    f: int,
    calls: Calls,
    params: Seq<int>,
    m: Machine,
    block: int,
    index: int,
)
    ensures
        run_for(unit, f, calls, params, Config::At { m, block, index }, 1) == step(
            unit,
            f,
            calls,
            params,
            m,
            block,
            index,
        ),
{
    reveal_with_fuel(run_for, 2);
}

/// An instruction that has been emitted stands, in a unit that holds the
/// code, where it has been emitted.
pub proof fn lemma_emitted_is_held(unit: UnitView, st: GenState, instr: InstrView, low: int)
    requires
        st.positioned(),
        !st.here().pruned,
        holds_code(st.emit(instr).unit, unit, st.cur_fn, low, st.cur_block),
    ensures
        live(unit, st.cur_fn, st.cur_block),
        0 <= st.next_index() < unit.block(st.cur_fn, st.cur_block).instrs.len(),
        unit.block(st.cur_fn, st.cur_block).instrs[st.next_index()] == instr,
        st.emit(instr).positioned(),
        st.emit(instr).next_index() == st.next_index() + 1,
        st.emit(instr).here().instrs.last() == instr,
        !st.emit(instr).here().pruned,
{
    lemma_emit_all_basics(st, seq![instr]);
    lemma_held_instr(
        st.emit(instr).unit,
        unit,
        st.cur_fn,
        low,
        st.cur_block,
        st.cur_block,
        st.next_index(),
    );
}

/// A unit that holds the code of a state holds the code of every state
/// that has led to it.
pub proof fn lemma_holds_earlier(before: GenState, after: GenState, unit: UnitView, low: int, cur: int)
    requires
        before.positioned(),
        appends_at(before.unit, after.unit, before.cur_fn, before.cur_block),
        holds_code(after.unit, unit, before.cur_fn, low, cur),
    ensures
        holds_code(before.unit, unit, before.cur_fn, low, cur),
{
    lemma_appended_holds(before.unit, after.unit, before.cur_fn, before.cur_block, before.cur_fn, low, cur);
    lemma_holds_trans(before.unit, after.unit, unit, before.cur_fn, low, cur, low, cur);
}

/// Storing a value that has been evaluated: the step of the store.
proof fn lemma_store_runs(
    unit: UnitView,
    calls: Calls,
    params: Seq<int>,
    st: GenState,
    slot: Slot,
    value: Value,
    m: Machine,
    x: int,
    low: int,
)
    requires
        st.positioned(),
        !st.here().pruned,
        holds_code(st.emit(InstrView::Store { slot, value }).unit, unit, st.cur_fn, low, st.cur_block),
        value_in(params, value, m.results) == Some(x),
    ensures
        run_for(
            unit,
            st.cur_fn,
            calls,
            params,
            Config::At { m, block: st.cur_block, index: st.next_index() },
            1,
        ) == Some(
            Config::At {
                m: Machine { memory: m.memory.insert(slot, x), ..m },
                block: st.cur_block,
                index: st.next_index() + 1,
            },
        ),
{
    lemma_emitted_is_held(unit, st, InstrView::Store { slot, value }, low);
    lemma_one_step(unit, st.cur_fn, calls, params, m, st.cur_block, st.next_index());
}

/// Returning a value that has been evaluated: the step of the return.
proof fn lemma_return_runs(
    unit: UnitView,
    calls: Calls,
    params: Seq<int>,
    st: GenState,
    value: Option<Value>,
    m: Machine,
    x: Option<int>,
    low: int,
)
    requires
        st.positioned(),
        !st.here().pruned,
        holds_code(st.emit(InstrView::Return { value }).unit, unit, st.cur_fn, low, st.cur_block),
        match value {
            None => x is None,
            Some(v) => x is Some && value_in(params, v, m.results) == x,
        },
    ensures
        run_for(
            unit,
            st.cur_fn,
            calls,
            params,
            Config::At { m, block: st.cur_block, index: st.next_index() },
            1,
        ) == Some(Config::Done(x)),
{
    lemma_emitted_is_held(unit, st, InstrView::Return { value }, low);
    lemma_one_step(unit, st.cur_fn, calls, params, m, st.cur_block, st.next_index());
}

/// Making a variable of a value that has been evaluated: the steps of the
/// allocation and of the store.
proof fn lemma_bind_runs(
    unit: UnitView,
    calls: Calls,
    params: Seq<int>,
    st: GenState,
    name: Seq<char>,
    value: Value,
    is_mutable: bool,
    store: Store,
    m: Machine,
    x: int,
    low: int,
)
    requires
        st.positioned(),
        st.scopes.len() > 0,
        !st.here().pruned,
        st.bind(name, value, is_mutable) is Ok,
        holds_code(st.bind(name, value, is_mutable)->Ok_0.unit, unit, st.cur_fn, low, st.cur_block),
        sized(unit, st.cur_fn),
        stores_agree(store, st.scopes, st, m.memory),
        value_in(params, value, m.results) == Some(x),
    ensures
        define(store, name, Variable { ty: value.ty, value: x, is_mutable }) is Some,
        run_for(
            unit,
            st.cur_fn,
            calls,
            params,
            Config::At { m, block: st.cur_block, index: st.next_index() },
            2,
        ) == Some(
            Config::At {
                m: Machine {
                    memory: m.memory.insert(
                        Slot { block: st.cur_block as usize, index: st.next_index() as usize },
                        x,
                    ),
                    ..m
                },
                block: st.cur_block,
                index: st.bind(name, value, is_mutable)->Ok_0.next_index(),
            },
        ),
        stores_agree(
            define(store, name, Variable { ty: value.ty, value: x, is_mutable })->Some_0,
            st.bind(name, value, is_mutable)->Ok_0.scopes,
            st.bind(name, value, is_mutable)->Ok_0,
            m.memory.insert(
                Slot { block: st.cur_block as usize, index: st.next_index() as usize },
                x,
            ),
        ),
        !st.bind(name, value, is_mutable)->Ok_0.terminated(),
        st.bind(name, value, is_mutable)->Ok_0.positioned(),
        st.bind(name, value, is_mutable)->Ok_0.cur_block == st.cur_block,
        st.bind(name, value, is_mutable)->Ok_0.cur_fn == st.cur_fn,
        st.bind(name, value, is_mutable)->Ok_0.unit.signatures() == st.unit.signatures(),
{
    let f = st.cur_fn;
    let cur = st.cur_block;
    let slot = Slot { block: cur as usize, index: st.next_index() as usize };
    let alloca = InstrView::Alloca { ty: value.ty };
    let store_instr = InstrView::Store { slot, value };
    let allocated = st.emit(alloca);
    let stored = allocated.emit(store_instr);
    let bound = st.bind(name, value, is_mutable)->Ok_0;
    lemma_emit_all_basics(st, seq![alloca]);
    lemma_emit_all_basics(allocated, seq![store_instr]);
    lemma_emit_leads(st, seq![alloca]);
    lemma_emit_leads(allocated, seq![store_instr]);
    lemma_holds_earlier(allocated, stored, unit, low, cur);
    lemma_emitted_is_held(unit, st, alloca, low);
    lemma_one_step(unit, f, calls, params, m, cur, st.next_index());
    lemma_store_runs(unit, calls, params, allocated, slot, value, m, x, low);
    lemma_run_for_add(
        unit,
        f,
        calls,
        params,
        Config::At { m, block: cur, index: st.next_index() },
        1,
        1,
    );
    lemma_held_sized(bound.unit, unit, f, low, cur);
    lemma_sized(stored);
    lemma_stores_agree_bound(store, st, m.memory, name, value, is_mutable, x);
    lemma_bind_declares(st, name, value, is_mutable);
    lemma_emitted_is_held(unit, allocated, store_instr, low);
}

/// An expression statement, or a bare expression that is not returned, is
/// run by the unit as the program runs it.
proof fn lemma_expr_stmt_runs(
    unit: UnitView,
    calls: Calls,
    params: Seq<int>,
    st: GenState,
    s: StmtView,
    tail: bool,
    env: Env,
    m: Machine,
) -> (r: (nat, Machine))
    requires
        st.positioned(),
        st.scopes.len() > 0,
        !st.terminated(),
        s is ExprStmt || (s is Expr && !tail),
        lower_stmt(st, s, tail) is Ok,
        holds_code(lower_stmt(st, s, tail)->Ok_0.unit, unit, st.cur_fn, st.block_count(), st.cur_block),
        sized(unit, st.cur_fn),
        agrees(env, st, m.memory),
        stmt_meaning(env, calls, s, tail) is Some,
    ensures
        ran(
            unit,
            calls,
            params,
            st,
            m,
            lower_stmt(st, s, tail)->Ok_0,
            stmt_meaning(env, calls, s, tail)->Some_0,
            r,
        ),
{
    let f = st.cur_fn;
    let cur = st.cur_block;
    let low = st.block_count();
    let st1 = lower_stmt(st, s, tail)->Ok_0;
    let start = Config::At { m, block: cur, index: st.next_index() };
    let expr = match s {
        StmtView::ExprStmt { expr } => expr,
        StmtView::Expr { expr } => expr,
        _ => arbitrary(),
    };
    let results = lemma_eval_runs(unit, calls, params, st, expr, env, m, low);
    ((st1.next_index() - st.next_index()) as nat, Machine { results, ..m })
}

/// A `return`, or a bare expression that is returned, is run by the unit as
/// the program runs it.
proof fn lemma_return_stmt_runs(
    unit: UnitView,
    calls: Calls,
    params: Seq<int>,
    st: GenState,
    s: StmtView,
    tail: bool,
    env: Env,
    m: Machine,
) -> (r: (nat, Machine))
    requires
        st.positioned(),
        st.scopes.len() > 0,
        !st.terminated(),
        s is Return || (s is Expr && tail),
        lower_stmt(st, s, tail) is Ok,
        holds_code(lower_stmt(st, s, tail)->Ok_0.unit, unit, st.cur_fn, st.block_count(), st.cur_block),
        sized(unit, st.cur_fn),
        agrees(env, st, m.memory),
        stmt_meaning(env, calls, s, tail) is Some,
    ensures
        ran(
            unit,
            calls,
            params,
            st,
            m,
            lower_stmt(st, s, tail)->Ok_0,
            stmt_meaning(env, calls, s, tail)->Some_0,
            r,
        ),
{
    let f = st.cur_fn;
    let cur = st.cur_block;
    let low = st.block_count();
    let st1 = lower_stmt(st, s, tail)->Ok_0;
    let start = Config::At { m, block: cur, index: st.next_index() };
    let returned = match s {
        StmtView::Return { expr } => expr,
        StmtView::Expr { expr } => Some(expr),
        _ => arbitrary(),
    };
    match returned {
        None => {
            lemma_return_runs(unit, calls, params, st, None, m, None, low);
            (1, m)
        },
        Some(e) => {
            let (st_e, v) = st.eval(e)->Ok_0;
            let ret = InstrView::Return { value: Some(v) };
            lemma_eval_leads(st, e);
            lemma_emit_leads(st_e, seq![ret]);
            lemma_holds_earlier(st_e, st1, unit, low, cur);
            let results = lemma_eval_runs(unit, calls, params, st, e, env, m, low);
            let m_e = Machine { results, ..m };
            let k = (st_e.next_index() - st.next_index()) as nat;
            let x = value_in_env(env, calls, e)->Some_0.1;
            lemma_return_runs(unit, calls, params, st_e, Some(v), m_e, Some(x), low);
            lemma_run_for_add(unit, f, calls, params, start, k, 1);
            (k + 1, m_e)
        },
    }
}

/// An assignment is run by the unit as the program runs it.
proof fn lemma_assign_stmt_runs(
    unit: UnitView,
    calls: Calls,
    params: Seq<int>,
    st: GenState,
    s: StmtView,
    tail: bool,
    env: Env,
    m: Machine,
) -> (r: (nat, Machine))
    requires
        st.positioned(),
        st.scopes.len() > 0,
        !st.terminated(),
        s is Assign,
        lower_stmt(st, s, tail) is Ok,
        holds_code(lower_stmt(st, s, tail)->Ok_0.unit, unit, st.cur_fn, st.block_count(), st.cur_block),
        sized(unit, st.cur_fn),
        agrees(env, st, m.memory),
        stmt_meaning(env, calls, s, tail) is Some,
    ensures
        ran(
            unit,
            calls,
            params,
            st,
            m,
            lower_stmt(st, s, tail)->Ok_0,
            stmt_meaning(env, calls, s, tail)->Some_0,
            r,
        ),
{
    let f = st.cur_fn;
    let cur = st.cur_block;
    let low = st.block_count();
    let st1 = lower_stmt(st, s, tail)->Ok_0;
    let start = Config::At { m, block: cur, index: st.next_index() };
    match s {
        StmtView::Assign { name, value } => {
            let info = resolve(st.scopes, name)->Some_0;
            let (st_e, v) = st.eval(value)->Ok_0;
            let store_instr = InstrView::Store { slot: info.slot, value: v };
            lemma_eval_leads(st, value);
            lemma_emit_leads(st_e, seq![store_instr]);
            lemma_holds_earlier(st_e, st1, unit, low, cur);
            lemma_stores_agree_assigned(env.store, st.scopes, st, m.memory, name, 0);
            let results = lemma_eval_runs(unit, calls, params, st, value, env, m, low);
            let m_e = Machine { results, ..m };
            let k = (st_e.next_index() - st.next_index()) as nat;
            let x = value_in_env(env, calls, value)->Some_0.1;
            lemma_store_runs(unit, calls, params, st_e, info.slot, v, m_e, x, low);
            lemma_run_for_add(unit, f, calls, params, start, k, 1);
            lemma_stores_agree_assigned(env.store, st.scopes, st, m.memory, name, x);
            lemma_emitted_is_held(unit, st_e, store_instr, low);
            lemma_emit_declares(st_e, store_instr);
            lemma_eval_declares(st, value);
            lemma_leads_trans(st, st_e, st1);
            lemma_stores_agree_later(
                assign(env.store, name, x)->Some_0,
                st.scopes,
                st,
                st1,
                cur,
                m.memory.insert(info.slot, x),
            );
            (k + 1, Machine { memory: m.memory.insert(info.slot, x), results })
        },
        _ => (0, m),
    }
}

/// A declaration of a variable is run by the unit as the program runs it.
proof fn lemma_decl_stmt_runs(
    unit: UnitView,
    calls: Calls,
    params: Seq<int>,
    st: GenState,
    s: StmtView,
    tail: bool,
    env: Env,
    m: Machine,
) -> (r: (nat, Machine))
    requires
        st.positioned(),
        st.scopes.len() > 0,
        !st.terminated(),
        s is LetDecl || s is VarDecl,
        lower_stmt(st, s, tail) is Ok,
        holds_code(lower_stmt(st, s, tail)->Ok_0.unit, unit, st.cur_fn, st.block_count(), st.cur_block),
        sized(unit, st.cur_fn),
        agrees(env, st, m.memory),
        stmt_meaning(env, calls, s, tail) is Some,
    ensures
        ran(
            unit,
            calls,
            params,
            st,
            m,
            lower_stmt(st, s, tail)->Ok_0,
            stmt_meaning(env, calls, s, tail)->Some_0,
            r,
        ),
{
    let f = st.cur_fn;
    let cur = st.cur_block;
    let low = st.block_count();
    let st1 = lower_stmt(st, s, tail)->Ok_0;
    let start = Config::At { m, block: cur, index: st.next_index() };
    let (name, value, is_mutable) = match s {
        StmtView::LetDecl { name, value, .. } => (name, value, false),
        StmtView::VarDecl { name, value, .. } => (name, value, true),
        _ => arbitrary(),
    };
    match value {
        Some(e) => {
            let (st_e, v) = st.eval(e)->Ok_0;
            lemma_eval_leads(st, e);
            lemma_bind_leads(st_e, name, v, is_mutable);
            lemma_holds_earlier(st_e, st1, unit, low, cur);
            let results = lemma_eval_runs(unit, calls, params, st, e, env, m, low);
            let m_e = Machine { results, ..m };
            let k = (st_e.next_index() - st.next_index()) as nat;
            let x = value_in_env(env, calls, e)->Some_0.1;
            lemma_bind_runs(unit, calls, params, st_e, name, v, is_mutable, env.store, m_e, x, low);
            lemma_run_for_add(unit, f, calls, params, start, k, 2);
            lemma_eval_declares(st, e);
            let slot = Slot { block: cur as usize, index: st_e.next_index() as usize };
            (k + 2, Machine { memory: m.memory.insert(slot, x), results })
        },
        None => {
            let ty = match s {
                StmtView::VarDecl { ty, .. } => ty,
                _ => arbitrary(),
            };
            let v = default_value(ty->Some_0)->Ok_0;
            let x = wrap(v.ty, 0);
            lemma_bind_runs(unit, calls, params, st, name, v, true, env.store, m, x, low);
            let slot = Slot { block: cur as usize, index: st.next_index() as usize };
            (2, Machine { memory: m.memory.insert(slot, x), ..m })
        },
    }
}

/// A function declaration is run by the unit as the program runs it: it
/// does nothing.
proof fn lemma_fn_decl_stmt_runs(
    unit: UnitView,
    calls: Calls,
    params: Seq<int>,
    st: GenState,
    s: StmtView,
    tail: bool,
    env: Env,
    m: Machine,
) -> (r: (nat, Machine))
    requires
        st.positioned(),
        st.scopes.len() > 0,
        !st.terminated(),
        s is FnDecl,
        lower_stmt(st, s, tail) is Ok,
        holds_code(lower_stmt(st, s, tail)->Ok_0.unit, unit, st.cur_fn, st.block_count(), st.cur_block),
        sized(unit, st.cur_fn),
        agrees(env, st, m.memory),
        stmt_meaning(env, calls, s, tail) is Some,
    ensures
        ran(
            unit,
            calls,
            params,
            st,
            m,
            lower_stmt(st, s, tail)->Ok_0,
            stmt_meaning(env, calls, s, tail)->Some_0,
            r,
        ),
{
    let f = st.cur_fn;
    let cur = st.cur_block;
    let low = st.block_count();
    let st1 = lower_stmt(st, s, tail)->Ok_0;
    let start = Config::At { m, block: cur, index: st.next_index() };
    lemma_stmt_leads(st, s, tail);
    lemma_stmt_declares(st, s, tail);
    lemma_fn_decl_keeps_here(st, s);
    lemma_fn_decl_follows(st, s);
    lemma_stores_agree_later(env.store, st.scopes, st, st1, cur, m.memory);
    (0, m)
}

/// A statement is run by the unit as the program runs it.
///
/// Where the statement has a meaning for the program, the code of the
/// statement, where it stands in a unit that holds it, runs as the
/// statement does, in as many steps as the first part of `r` says, from
/// where the generator stood before the statement: where the statement
/// returns, the function returns the same; where the program goes on, the
/// function is where the generator stood after the statement, with the
/// second part of `r` in its slots and results; the block there is open,
/// and what the program knows is what the generator knows.
pub proof fn lemma_stmt_runs(
    unit: UnitView,
    calls: Calls,
    params: Seq<int>,
    st: GenState,
    s: StmtView,
    tail: bool,
    env: Env,
    m: Machine,
) -> (r: (nat, Machine))
    requires
        st.positioned(),
        st.scopes.len() > 0,
        !st.terminated(),
        lower_stmt(st, s, tail) is Ok,
        holds_code(lower_stmt(st, s, tail)->Ok_0.unit, unit, st.cur_fn, st.block_count(), st.cur_block),
        sized(unit, st.cur_fn),
        agrees(env, st, m.memory),
        stmt_meaning(env, calls, s, tail) is Some,
    ensures
        ran(
            unit,
            calls,
            params,
            st,
            m,
            lower_stmt(st, s, tail)->Ok_0,
            stmt_meaning(env, calls, s, tail)->Some_0,
            r,
        ),
    decreases s, 1nat, 0nat,
{
    match s {
        StmtView::ExprStmt { .. } => lemma_expr_stmt_runs(unit, calls, params, st, s, tail, env, m),
        StmtView::Expr { .. } => if tail {
            lemma_return_stmt_runs(unit, calls, params, st, s, tail, env, m)
        } else {
            lemma_expr_stmt_runs(unit, calls, params, st, s, tail, env, m)
        },
        StmtView::Return { .. } => lemma_return_stmt_runs(unit, calls, params, st, s, tail, env, m),
        StmtView::Assign { .. } => lemma_assign_stmt_runs(unit, calls, params, st, s, tail, env, m),
        StmtView::LetDecl { .. } => lemma_decl_stmt_runs(unit, calls, params, st, s, tail, env, m),
        StmtView::VarDecl { .. } => lemma_decl_stmt_runs(unit, calls, params, st, s, tail, env, m),
        StmtView::If { .. } => lemma_if_runs(unit, calls, params, st, s, tail, env, m),
        StmtView::FnDecl { .. } => lemma_fn_decl_stmt_runs(unit, calls, params, st, s, tail, env, m),
    }
}

/// Whether the unit has run as the program has: see
/// [`lemma_stmt_runs`].
pub open spec fn ran(
    unit: UnitView,
    calls: Calls,
    params: Seq<int>,
    st: GenState,
    m: Machine,
    st1: GenState,
    meaning: (Env, Flow),
    r: (nat, Machine),
) -> bool {
    let start = Config::At { m, block: st.cur_block, index: st.next_index() };
    match meaning.1 {
        Flow::Return(x) => run_for(unit, st.cur_fn, calls, params, start, r.0) == Some(
            Config::Done(x),
        ),
        Flow::Next => {
            &&& run_for(unit, st.cur_fn, calls, params, start, r.0) == Some(
                Config::At { m: r.1, block: st1.cur_block, index: st1.next_index() },
            )
            &&& st1.positioned()
            &&& st1.cur_fn == st.cur_fn
            &&& !st1.terminated()
            &&& agrees(meaning.0, st1, r.1.memory)
        },
    }
}

/// A function declaration leaves the block under construction as it is.
proof fn lemma_fn_decl_keeps_here(st: GenState, s: StmtView)
    requires
        st.positioned(),
        s is FnDecl,
        lower_fn_decl(st, s) is Ok,
    ensures
        lower_fn_decl(st, s)->Ok_0.here() == st.here(),
        lower_fn_decl(st, s)->Ok_0.cur_block == st.cur_block,
        lower_fn_decl(st, s)->Ok_0.cur_fn == st.cur_fn,
{
    match s {
        StmtView::FnDecl { name, params, ty, body } => {
            let f = st.cur_fn;
            let g = st.unit.functions.len() as int;
            let types = lower_param_types(params)->Ok_0;
            let ret = lower_return_type(ty)->Ok_0;
            let entered = st.enter_function(name, types, ret);
            lemma_enter_function(st, name, types, ret);
            lemma_bind_params_leads(entered, params, params.len());
            let st1 = entered.bind_params(params, params.len())->Ok_0;
            lemma_block_leads(st1, body, true);
            let st2 = lower_block(st1, body, true)->Ok_0;
            lemma_leads_trans(entered, st1, st2);
            if !st2.terminated() {
                lemma_emit_leads(st2, seq![InstrView::Return { value: None }]);
                lemma_leads_trans(entered, st2, st2.close());
            }
            lemma_appends_keeps(entered.unit, st2.close().unit, g, 0, f, st.cur_block);
        },
        _ => {},
    }
}

/// A unit that holds code holds it with fewer blocks said to be part of the
/// function.
pub proof fn lemma_holds_weaken(
    a: UnitView,
    unit: UnitView,
    f: int,
    low: int,
    cur: int,
    low2: int,
    cur2: int,
)
    requires
        holds_code(a, unit, f, low, cur),
        low <= low2,
        cur2 == cur || cur2 >= low,
    ensures
        holds_code(a, unit, f, low2, cur2),
{
    reveal(holds_code);
    assert forall|d: int| a.has_block(f, d) implies #[trigger] holds_block(a, unit, f, low2, cur2, d) by {
        assert(holds_block(a, unit, f, low, cur, d));
    }
}

/// A unit in which a block has been pruned holds the code that it held.
pub proof fn lemma_pruned_holds(a: UnitView, f: int, pruned: int, low: int, cur: int)
    requires
        a.has_block(f, pruned),
        pruned < low,
        pruned != cur,
    ensures
        holds_code(a, a.prune(f, pruned), f, low, cur),
{
    reveal(holds_code);
    let after = a.prune(f, pruned);
    assert forall|d: int| a.has_block(f, d) implies #[trigger] holds_block(a, after, f, low, cur, d) by {
        assert(after.block(f, d).instrs == a.block(f, d).instrs);
        assert(after.block(f, d).instrs.take(a.block(f, d).instrs.len() as int) =~= a.block(
            f,
            d,
        ).instrs);
    }
}

/// The statements of a block are run by the unit as the program runs them.
pub proof fn lemma_stmts_run(
    unit: UnitView,
    calls: Calls,
    params: Seq<int>,
    st: GenState,
    stmts: Seq<StmtView>,
    i: nat,
    tail: bool,
    env: Env,
    m: Machine,
) -> (r: (nat, Machine))
    requires
        st.positioned(),
        st.scopes.len() > 0,
        !st.terminated(),
        lower_stmts(st, stmts, i, tail) is Ok,
        holds_code(
            lower_stmts(st, stmts, i, tail)->Ok_0.unit,
            unit,
            st.cur_fn,
            st.block_count(),
            st.cur_block,
        ),
        sized(unit, st.cur_fn),
        agrees(env, st, m.memory),
        stmts_meaning(env, calls, stmts, i, tail) is Some,
    ensures
        ran(
            unit,
            calls,
            params,
            st,
            m,
            lower_stmts(st, stmts, i, tail)->Ok_0,
            stmts_meaning(env, calls, stmts, i, tail)->Some_0,
            r,
        ),
    decreases stmts, 1nat, stmts.len() - i,
{
    let f = st.cur_fn;
    let end = lower_stmts(st, stmts, i, tail)->Ok_0;
    let start = Config::At { m, block: st.cur_block, index: st.next_index() };
    if i >= stmts.len() {
        (0, m)
    } else {
        let last = tail && i == stmts.len() - 1;
        let s = stmts[i as int];
        let st1 = lower_stmt(st, s, last)->Ok_0;
        lemma_stmt_leads(st, s, last);
        lemma_stmts_lead(st1, stmts, i + 1, tail);
        lemma_holds_earlier(st1, end, unit, st.block_count(), st.cur_block);
        let r1 = lemma_stmt_runs(unit, calls, params, st, s, last, env, m);
        let (env1, flow) = stmt_meaning(env, calls, s, last)->Some_0;
        match flow {
            Flow::Return(x) => r1,
            Flow::Next => {
                lemma_block_count_grows(st, st1);
                lemma_holds_weaken(
                    end.unit,
                    unit,
                    f,
                    st.block_count(),
                    st.cur_block,
                    st1.block_count(),
                    st1.cur_block,
                );
                let r2 = lemma_stmts_run(unit, calls, params, st1, stmts, i + 1, tail, env1, r1.1);
                lemma_run_for_add(unit, f, calls, params, start, r1.0, r2.0);
                match stmts_meaning(env1, calls, stmts, i + 1, tail)->Some_0.1 {
                    Flow::Return(x) => {},
                    Flow::Next => {},
                }
                (r1.0 + r2.0, r2.1)
            },
        }
    }
}

/// A block is run by the unit as the program runs it.
pub proof fn lemma_block_runs(
    unit: UnitView,
    calls: Calls,
    params: Seq<int>,
    st: GenState,
    stmts: Seq<StmtView>,
    tail: bool,
    env: Env,
    m: Machine,
) -> (r: (nat, Machine))
    requires
        st.positioned(),
        !st.terminated(),
        lower_block(st, stmts, tail) is Ok,
        holds_code(
            lower_block(st, stmts, tail)->Ok_0.unit,
            unit,
            st.cur_fn,
            st.block_count(),
            st.cur_block,
        ),
        sized(unit, st.cur_fn),
        agrees(env, st, m.memory),
        block_meaning(env, calls, stmts, tail) is Some,
    ensures
        ran(
            unit,
            calls,
            params,
            st,
            m,
            lower_block(st, stmts, tail)->Ok_0,
            block_meaning(env, calls, stmts, tail)->Some_0,
            r,
        ),
    decreases stmts, 2nat, 0nat,
{
    let entered = GenState { scopes: st.scopes.push(Map::empty()), ..st };
    let inside = Env { store: env.store.push(Map::empty()), ..env };
    let end = lower_stmts(entered, stmts, 0, tail)->Ok_0;
    let left = lower_block(st, stmts, tail)->Ok_0;
    lemma_stores_agree_above(env.store, st.scopes, st, m.memory);
    lemma_appends_refl(st.unit, st.cur_fn, st.cur_block);
    lemma_stores_agree_later(inside.store, entered.scopes, st, entered, st.cur_block, m.memory);
    let r = lemma_stmts_run(unit, calls, params, entered, stmts, 0, tail, inside, m);
    let (env1, flow) = stmts_meaning(inside, calls, stmts, 0, tail)->Some_0;
    match flow {
        Flow::Return(x) => {},
        Flow::Next => {
            lemma_stmts_lead(entered, stmts, 0, tail);
            lemma_stores_agree_below(env1.store, end.scopes, end, r.1.memory);
            lemma_appends_refl(end.unit, end.cur_fn, end.cur_block);
            lemma_stores_agree_later(
                env1.store.drop_last(),
                left.scopes,
                end,
                left,
                end.cur_block,
                r.1.memory,
            );
        },
    }
    r
}

/// Whether the unit has run a branch of a conditional as the program has:
/// where the branch returns, the function returns the same; where the
/// program goes on, control has not run off the end of the branch, the
/// function is at the start of block `merge`, and what the program knows
/// is what the generator knows.
pub open spec fn branch_ran(
    unit: UnitView,
    calls: Calls,
    params: Seq<int>,
    f: int,
    m: Machine,
    block: int,
    merge: int,
    lowered: (GenState, bool),
    meaning: (Env, Flow),
    r: (nat, Machine),
) -> bool {
    let start = Config::At { m, block, index: 0 };
    match meaning.1 {
        Flow::Return(x) => run_for(unit, f, calls, params, start, r.0) == Some(Config::Done(x)),
        Flow::Next => {
            &&& run_for(unit, f, calls, params, start, r.0) == Some(
                Config::At { m: r.1, block: merge, index: 0 },
            )
            &&& !lowered.1
            &&& agrees(meaning.0, lowered.0, r.1.memory)
        },
    }
}

/// A branch of a conditional is run by the unit as the program runs it.
proof fn lemma_branch_runs(
    unit: UnitView,
    calls: Calls,
    params: Seq<int>,
    st: GenState,
    block: int,
    stmts: Seq<StmtView>,
    merge: int,
    tail: bool,
    env: Env,
    m: Machine,
) -> (r: (nat, Machine))
    requires
        st.positioned(),
        live(st.unit, st.cur_fn, block),
        st.unit.block(st.cur_fn, block).instrs.len() == 0,
        0 <= merge < st.block_count(),
        lower_branch(st, block, stmts, merge, tail) is Ok,
        holds_code(
            lower_branch(st, block, stmts, merge, tail)->Ok_0.0.unit,
            unit,
            st.cur_fn,
            st.block_count(),
            block,
        ),
        sized(unit, st.cur_fn),
        agrees(env, st.at(st.cur_fn, block), m.memory),
        block_meaning(env, calls, stmts, tail) is Some,
    ensures
        branch_ran(
            unit,
            calls,
            params,
            st.cur_fn,
            m,
            block,
            merge,
            lower_branch(st, block, stmts, merge, tail)->Ok_0,
            block_meaning(env, calls, stmts, tail)->Some_0,
            r,
        ),
    decreases stmts, 3nat, 0nat,
{
    let f = st.cur_fn;
    let low = st.block_count();
    let start = st.at(f, block);
    let st1 = lower_block(start, stmts, tail)->Ok_0;
    let (end, ends) = lower_branch(st, block, stmts, merge, tail)->Ok_0;
    let jump = InstrView::Jump { target: merge as usize };
    lemma_block_leads(start, stmts, tail);
    if !st1.terminated() {
        lemma_emit_leads(st1, seq![jump]);
        lemma_holds_earlier(st1, end, unit, low, block);
    }
    let r1 = lemma_block_runs(unit, calls, params, start, stmts, tail, env, m);
    let (env1, flow) = block_meaning(env, calls, stmts, tail)->Some_0;
    match flow {
        Flow::Return(x) => r1,
        Flow::Next => {
            lemma_holds_weaken(end.unit, unit, f, low, block, low, st1.cur_block);
            lemma_emitted_is_held(unit, st1, jump, low);
            lemma_one_step(unit, f, calls, params, r1.1, st1.cur_block, st1.next_index());
            lemma_run_for_add(
                unit,
                f,
                calls,
                params,
                Config::At { m, block, index: 0 },
                r1.0,
                1,
            );
            lemma_branch_leads(st, block, stmts, merge, tail);
            lemma_appended_holds(start.unit, end.unit, f, block, f, low, block);
            lemma_holds_trans(start.unit, end.unit, unit, f, low, block, low, block);
            lemma_held_sized(st.unit, unit, f, low, block);
            lemma_sized(st);
            lemma_emit_declares(st1, jump);
            lemma_stores_agree_later(env1.store, st1.scopes, st1, end, st1.cur_block, r1.1.memory);
            (r1.0 + 1, r1.1)
        },
    }
}

/// A branch of the conditional `s` is run by the unit as the program runs
/// it.
proof fn lemma_branch_of_runs(
    unit: UnitView,
    calls: Calls,
    params: Seq<int>,
    st: GenState,
    block: int,
    s: StmtView,
    then: bool,
    merge: int,
    tail: bool,
    env: Env,
    m: Machine,
) -> (r: (nat, Machine))
    requires
        s matches StmtView::If { else_branch, .. } && (then || else_branch is Some),
        st.positioned(),
        live(st.unit, st.cur_fn, block),
        st.unit.block(st.cur_fn, block).instrs.len() == 0,
        0 <= merge < st.block_count(),
        lower_branch(st, block, branch_of(s, then), merge, tail) is Ok,
        holds_code(
            lower_branch(st, block, branch_of(s, then), merge, tail)->Ok_0.0.unit,
            unit,
            st.cur_fn,
            st.block_count(),
            block,
        ),
        sized(unit, st.cur_fn),
        agrees(env, st.at(st.cur_fn, block), m.memory),
        block_meaning(env, calls, branch_of(s, then), tail) is Some,
    ensures
        branch_ran(
            unit,
            calls,
            params,
            st.cur_fn,
            m,
            block,
            merge,
            lower_branch(st, block, branch_of(s, then), merge, tail)->Ok_0,
            block_meaning(env, calls, branch_of(s, then), tail)->Some_0,
            r,
        ),
    decreases s, 0nat, 0nat,
{
    match s {
        StmtView::If { then_branch, else_branch, .. } => {
            if then {
                lemma_branch_runs(unit, calls, params, st, block, then_branch, merge, tail, env, m)
            } else {
                match else_branch {
                    Some(stmts) => lemma_branch_runs(
                        unit,
                        calls,
                        params,
                        st,
                        block,
                        stmts,
                        merge,
                        tail,
                        env,
                        m,
                    ),
                    None => (0, m),
                }
            }
        },
        _ => (0, m),
    }
}

/// The condition of a conditional is evaluated and branched on by the unit
/// as the program evaluates it: the function goes to the block of the
/// `then` branch where the condition holds, and to the block behind it
/// where it does not.
#[verifier::rlimit(30)]
proof fn lemma_if_head_runs(
    unit: UnitView,
    calls: Calls,
    params: Seq<int>,
    st: GenState,
    condition: ExprView,
    has_else: bool,
    env: Env,
    m: Machine,
    low: int,
) -> (r: (nat, Machine))
    requires
        st.positioned(),
        !st.terminated(),
        st.begin_conditional(condition, has_else) is Ok,
        holds_code(
            st.begin_conditional(condition, has_else)->Ok_0.unit,
            unit,
            st.cur_fn,
            low,
            st.cur_block,
        ),
        sized(unit, st.cur_fn),
        agrees(env, st, m.memory),
        value_in_env(env, calls, condition) is Some,
    ensures
        value_in_env(env, calls, condition)->Some_0.0 == IrType::I1,
        r.1.memory == m.memory,
        run_for(
            unit,
            st.cur_fn,
            calls,
            params,
            Config::At { m, block: st.cur_block, index: st.next_index() },
            r.0,
        ) == Some(
            Config::At {
                m: r.1,
                block: if value_in_env(env, calls, condition)->Some_0.1 != 0 {
                    st.block_count()
                } else {
                    st.block_count() + 1
                },
                index: 0,
            },
        ),
{
    let f = st.cur_fn;
    let cur = st.cur_block;
    let n = st.block_count();
    let st0 = st.open_conditional(has_else);
    let (st1, v) = st0.eval(condition)->Ok_0;
    let branch = InstrView::Branch {
        cond: v,
        then_target: n as usize,
        else_target: (n + 1) as usize,
    };
    let st2 = st1.emit(branch);
    lemma_open_conditional(st, has_else);
    lemma_begin_conditional(st, condition, has_else);
    assert(st0.here() == st.here());
    assert(st0.unit.signatures() =~= st.unit.signatures());
    lemma_stores_agree_later(env.store, st.scopes, st, st0, cur, m.memory);
    lemma_emit_leads(st1, seq![branch]);
    lemma_holds_earlier(st1, st2, unit, low, cur);
    let results = lemma_eval_runs(unit, calls, params, st0, condition, env, m, low);
    let m_e = Machine { results, ..m };
    let k = (st1.next_index() - st0.next_index()) as nat;
    lemma_emitted_is_held(unit, st1, branch, low);
    lemma_one_step(unit, f, calls, params, m_e, cur, st1.next_index());
    lemma_run_for_add(
        unit,
        f,
        calls,
        params,
        Config::At { m, block: cur, index: st.next_index() },
        k,
        1,
    );
    lemma_held_sized(st2.unit, unit, f, low, cur);
    lemma_sized(st2);
    (k + 1, m_e)
}

/// The states that the lowering of a conditional without an `else` branch
/// goes through, and what a unit that holds its code holds of them.
#[verifier::rlimit(30)]
proof fn lemma_if_then_states(st: GenState, s: StmtView, tail: bool, unit: UnitView)
    requires
        st.positioned(),
        s matches StmtView::If { else_branch, .. } && else_branch is None,
        lower_if(st, s, tail) is Ok,
        holds_code(lower_if(st, s, tail)->Ok_0.unit, unit, st.cur_fn, st.block_count(), st.cur_block),
    ensures
        s matches StmtView::If { condition, then_branch, else_branch } && ({
            let f = st.cur_fn;
            let n = st.block_count();
            let st2 = st.begin_conditional(condition, false)->Ok_0;
            let st3 = lower_branch(st2, n, then_branch, n + 1, tail)->Ok_0.0;
            let end = lower_if(st, s, tail)->Ok_0;
            &&& st.begin_conditional(condition, false) is Ok
            &&& lower_branch(st2, n, then_branch, n + 1, tail) is Ok
            &&& end == st3.close_conditional(n + 1, false)
            &&& 0 <= n
            &&& st2.positioned() && st2.cur_fn == f && st2.scopes == st.scopes
            &&& st2.unit.signatures() == st.unit.signatures()
            &&& st2.block_count() == n + 2
            &&& live(st2.unit, f, n) && st2.unit.block(f, n).instrs.len() == 0
            &&& holds_code(st.unit, st2.unit, f, 0, 0)
            &&& holds_code(st2.unit, unit, f, n + 2, st.cur_block)
            &&& holds_code(st3.unit, unit, f, n + 2, n)
            &&& holds_code(st.unit, end.unit, f, 0, 0)
            &&& holds_code(st3.unit, end.unit, f, 0, 0)
            &&& st3.cur_fn == f && st3.scopes == st.scopes
            &&& end.cur_fn == f && end.cur_block == n + 1 && end.next_index() == 0
            &&& end.positioned() && !end.terminated() && end.scopes == st.scopes
            &&& end.unit.signatures() == st.unit.signatures() + declared_by(s)
        }),
{
    match s {
        StmtView::If { condition, then_branch, else_branch } => {
            let f = st.cur_fn;
            let cur = st.cur_block;
            let n = st.block_count();
            let st2 = st.begin_conditional(condition, false)->Ok_0;
            let st3 = lower_branch(st2, n, then_branch, n + 1, tail)->Ok_0.0;
            let end = lower_if(st, s, tail)->Ok_0;
            let all = opened(st, false);
            lemma_if_follows(st, s, tail);
            lemma_if_leads(st, s, tail);
            lemma_begin_conditional(st, condition, false);
            lemma_begin_conditional_declares(st, condition, false);
            lemma_open_conditional(st, false);
            assert(all.contains((f, n)) && all.contains((f, n + 1)));
            lemma_branch_leads(st2, n, then_branch, n + 1, tail);
            lemma_branch_follows(st2, n, then_branch, n + 1, tail);
            lemma_appends_keeps(st2.unit, st3.unit, f, n, f, n + 1);
            lemma_stmt_declares(st, s, tail);
            lemma_appended_holds(st.unit, st2.unit, f, cur, f, 0, 0);
            lemma_appended_holds(st.unit, end.unit, f, cur, f, 0, 0);
            lemma_appended_holds(st2.unit, st3.unit, f, n, f, n + 2, cur);
            lemma_holds_trans(st2.unit, st3.unit, unit, f, n + 2, cur, n, cur);
            lemma_appends_refl(st3.unit, f, n);
            lemma_appended_holds(st3.unit, end.unit, f, n, f, n + 2, n);
            lemma_holds_trans(st3.unit, end.unit, unit, f, n + 2, n, n, cur);
            lemma_appended_holds(st3.unit, end.unit, f, n, f, 0, 0);
        },
        _ => {},
    }
}

/// A conditional without an `else` branch is run by the unit as the
/// program runs it.
#[verifier::rlimit(30)]
proof fn lemma_if_then_runs(
    unit: UnitView,
    calls: Calls,
    params: Seq<int>,
    st: GenState,
    s: StmtView,
    tail: bool,
    env: Env,
    m: Machine,
) -> (r: (nat, Machine))
    requires
        st.positioned(),
        st.scopes.len() > 0,
        !st.terminated(),
        s matches StmtView::If { else_branch, .. } && else_branch is None,
        lower_if(st, s, tail) is Ok,
        holds_code(lower_if(st, s, tail)->Ok_0.unit, unit, st.cur_fn, st.block_count(), st.cur_block),
        sized(unit, st.cur_fn),
        agrees(env, st, m.memory),
        conditional_meaning(env, calls, s, tail) is Some,
    ensures
        ran(
            unit,
            calls,
            params,
            st,
            m,
            lower_if(st, s, tail)->Ok_0,
            conditional_meaning(env, calls, s, tail)->Some_0,
            r,
        ),
    decreases s, 0nat, 1nat,
{
    match s {
        StmtView::If { condition, then_branch, else_branch } => {
            let f = st.cur_fn;
            let n = st.block_count();
            let st2 = st.begin_conditional(condition, false)->Ok_0;
            let (st3, then_ends) = lower_branch(st2, n, then_branch, n + 1, tail)->Ok_0;
            let end = lower_if(st, s, tail)->Ok_0;
            let start = Config::At { m, block: st.cur_block, index: st.next_index() };
            lemma_if_then_states(st, s, tail, unit);
            let head = lemma_if_head_runs(unit, calls, params, st, condition, false, env, m, n + 2);
            let c = value_in_env(env, calls, condition)->Some_0.1;
            let after = Env { sigs: env.sigs + declared_by(s), ..env };
            if c != 0 {
                lemma_stores_agree_held(env.store, st.scopes, st, st2.at(f, n), 0, 0, head.1.memory);
                let r = lemma_branch_of_runs(
                    unit,
                    calls,
                    params,
                    st2,
                    n,
                    s,
                    true,
                    n + 1,
                    tail,
                    env,
                    head.1,
                );
                lemma_run_for_add(unit, f, calls, params, start, head.0, r.0);
                let (taken, flow) = block_meaning(env, calls, then_branch, tail)->Some_0;
                match flow {
                    Flow::Return(x) => {},
                    Flow::Next => {
                        lemma_stores_agree_held(taken.store, st3.scopes, st3, end, 0, 0, r.1.memory);
                    },
                }
                (head.0 + r.0, r.1)
            } else {
                lemma_stores_agree_held(env.store, st.scopes, st, end, 0, 0, head.1.memory);
                head
            }
        },
        _ => (0, m),
    }
}

/// The states that the lowering of a conditional with an `else` branch goes
/// through, up to the end of the `then` branch.
#[verifier::rlimit(30)]
proof fn lemma_if_else_first(st: GenState, s: StmtView, tail: bool)
    requires
        st.positioned(),
        s matches StmtView::If { else_branch, .. } && else_branch is Some,
        lower_if(st, s, tail) is Ok,
    ensures
        s matches StmtView::If { condition, then_branch, else_branch } && ({
            let f = st.cur_fn;
            let n = st.block_count();
            let st2 = st.begin_conditional(condition, true)->Ok_0;
            let then_end = lower_branch(st2, n, then_branch, n + 2, tail);
            let st3 = then_end->Ok_0.0;
            &&& st.begin_conditional(condition, true) is Ok
            &&& then_end is Ok
            &&& 0 <= n && st.cur_block < n
            &&& st2.positioned() && st2.cur_fn == f && st2.scopes == st.scopes
            &&& st2.unit.signatures() == st.unit.signatures()
            &&& st2.block_count() == n + 3
            &&& live(st2.unit, f, n) && st2.unit.block(f, n).instrs.len() == 0
            &&& appends_at(st.unit, st2.unit, f, st.cur_block)
            &&& appends_at(st2.unit, st3.unit, f, n)
            &&& st3.positioned() && st3.cur_fn == f && st3.scopes == st.scopes
            &&& st3.unit.signatures() == st.unit.signatures() + declared_in(
                then_branch,
                then_branch.len(),
            )
            &&& n + 3 <= st3.block_count()
            &&& live(st3.unit, f, n + 1) && st3.unit.block(f, n + 1).instrs.len() == 0
            &&& live(st3.unit, f, n + 2) && st3.unit.block(f, n + 2).instrs.len() == 0
        }),
{
    match s {
        StmtView::If { condition, then_branch, else_branch } => {
            let f = st.cur_fn;
            let n = st.block_count();
            let st2 = st.begin_conditional(condition, true)->Ok_0;
            let st3 = lower_branch(st2, n, then_branch, n + 2, tail)->Ok_0.0;
            let all = opened(st, true);
            lemma_if_else_unfolds(st, s, tail);
            lemma_begin_conditional(st, condition, true);
            lemma_begin_conditional_declares(st, condition, true);
            assert(all.contains((f, n)) && all.contains((f, n + 1)) && all.contains((f, n + 2)));
            lemma_branch_leads(st2, n, then_branch, n + 2, tail);
            lemma_branch_follows(st2, n, then_branch, n + 2, tail);
            lemma_branch_declares(st2, n, then_branch, n + 2, tail);
            lemma_appends_keeps(st2.unit, st3.unit, f, n, f, n + 1);
            lemma_appends_keeps(st2.unit, st3.unit, f, n, f, n + 2);
            lemma_block_count_grows(st2.at(f, n), st3);
        },
        _ => {},
    }
}

/// The states that the lowering of a conditional with an `else` branch goes
/// through.
#[verifier::rlimit(30)]
proof fn lemma_if_else_shape(st: GenState, s: StmtView, tail: bool)
    requires
        st.positioned(),
        s matches StmtView::If { else_branch, .. } && else_branch is Some,
        lower_if(st, s, tail) is Ok,
    ensures
        s matches StmtView::If { condition, then_branch, else_branch } && ({
            let f = st.cur_fn;
            let n = st.block_count();
            let st2 = st.begin_conditional(condition, true)->Ok_0;
            let then_end = lower_branch(st2, n, then_branch, n + 2, tail);
            let st3 = then_end->Ok_0.0;
            let else_end = lower_branch(st3, n + 1, else_branch->Some_0, n + 2, tail);
            let st4 = else_end->Ok_0.0;
            let prune = tail && then_end->Ok_0.1 && else_end->Ok_0.1;
            let end = lower_if(st, s, tail)->Ok_0;
            &&& else_end is Ok
            &&& end == st4.close_conditional(n + 2, prune)
            &&& appends_at(st3.unit, st4.unit, f, n + 1)
            &&& appends_at(st.unit, end.unit, f, st.cur_block)
            &&& st4.unit.has_block(f, n + 2) && st4.unit.block(f, n + 2).instrs.len() == 0
            &&& !st4.unit.block(f, n + 2).pruned
            &&& st4.cur_fn == f && st4.scopes == st.scopes
            &&& end.unit.signatures() == st.unit.signatures() + declared_by(s)
        }),
{
    match s {
        StmtView::If { condition, then_branch, else_branch } => {
            let f = st.cur_fn;
            let n = st.block_count();
            let stmts = else_branch->Some_0;
            let st2 = st.begin_conditional(condition, true)->Ok_0;
            let st3 = lower_branch(st2, n, then_branch, n + 2, tail)->Ok_0.0;
            let st4 = lower_branch(st3, n + 1, stmts, n + 2, tail)->Ok_0.0;
            lemma_if_else_first(st, s, tail);
            lemma_if_else_unfolds(st, s, tail);
            lemma_if_leads(st, s, tail);
            lemma_branch_leads(st3, n + 1, stmts, n + 2, tail);
            lemma_branch_follows(st3, n + 1, stmts, n + 2, tail);
            lemma_appends_keeps(st3.unit, st4.unit, f, n + 1, f, n + 2);
            lemma_if_declares(st, s, tail);
        },
        _ => {},
    }
}

/// What the state after a conditional with an `else` branch is, and what
/// its unit holds.
proof fn lemma_if_else_end(st4: GenState, f: int, n: int, prune: bool, cur: int, low: int)
    requires
        st4.cur_fn == f,
        st4.unit.has_block(f, n + 2),
        st4.unit.block(f, n + 2).instrs.len() == 0,
        !st4.unit.block(f, n + 2).pruned,
        n + 2 < low,
        cur != n + 2,
    ensures
        holds_code(st4.unit, st4.close_conditional(n + 2, prune).unit, f, low, cur),
        st4.close_conditional(n + 2, prune).cur_fn == f,
        st4.close_conditional(n + 2, prune).cur_block == n + 2,
        st4.close_conditional(n + 2, prune).next_index() == 0,
        st4.close_conditional(n + 2, prune).positioned(),
        st4.close_conditional(n + 2, prune).terminated() == prune,
        st4.close_conditional(n + 2, prune).scopes == st4.scopes,
{
    let end = st4.close_conditional(n + 2, prune);
    if prune {
        lemma_pruned_holds(st4.unit, f, n + 2, low, cur);
    } else {
        lemma_appends_refl(st4.unit, f, n);
        lemma_appended_holds(st4.unit, end.unit, f, n, f, low, cur);
    }
}

/// What a unit that holds the code of a conditional with an `else` branch
/// holds of the states that its lowering goes through.
#[verifier::rlimit(30)]
proof fn lemma_if_else_states(st: GenState, s: StmtView, tail: bool, unit: UnitView)
    requires
        st.positioned(),
        s matches StmtView::If { else_branch, .. } && else_branch is Some,
        lower_if(st, s, tail) is Ok,
        holds_code(lower_if(st, s, tail)->Ok_0.unit, unit, st.cur_fn, st.block_count(), st.cur_block),
    ensures
        s matches StmtView::If { condition, then_branch, else_branch } && ({
            let f = st.cur_fn;
            let n = st.block_count();
            let st2 = st.begin_conditional(condition, true)->Ok_0;
            let then_end = lower_branch(st2, n, then_branch, n + 2, tail);
            let st3 = then_end->Ok_0.0;
            let else_end = lower_branch(st3, n + 1, else_branch->Some_0, n + 2, tail);
            let st4 = else_end->Ok_0.0;
            let prune = tail && then_end->Ok_0.1 && else_end->Ok_0.1;
            let end = lower_if(st, s, tail)->Ok_0;
            &&& holds_code(st.unit, st2.unit, f, 0, 0)
            &&& holds_code(st2.unit, unit, f, n + 3, st.cur_block)
            &&& holds_code(st3.unit, unit, f, n + 3, n)
            &&& holds_code(st.unit, st3.unit, f, 0, 0)
            &&& holds_code(st4.unit, unit, f, st3.block_count(), n + 1)
            &&& holds_code(st3.unit, end.unit, f, n + 3, n)
            &&& holds_code(st4.unit, end.unit, f, n + 3, n)
            &&& holds_code(st.unit, end.unit, f, 0, 0)
            &&& end.cur_fn == f && end.cur_block == n + 2 && end.next_index() == 0
            &&& end.positioned() && end.scopes == st.scopes
            &&& end.terminated() == prune
        }),
{
    match s {
        StmtView::If { condition, then_branch, else_branch } => {
            let f = st.cur_fn;
            let cur = st.cur_block;
            let n = st.block_count();
            let stmts = else_branch->Some_0;
            let st2 = st.begin_conditional(condition, true)->Ok_0;
            let (st3, then_ends) = lower_branch(st2, n, then_branch, n + 2, tail)->Ok_0;
            let (st4, else_ends) = lower_branch(st3, n + 1, stmts, n + 2, tail)->Ok_0;
            let prune = tail && then_ends && else_ends;
            let end = lower_if(st, s, tail)->Ok_0;
            lemma_if_else_first(st, s, tail);
            lemma_if_else_shape(st, s, tail);
            lemma_appended_holds(st.unit, st2.unit, f, cur, f, 0, 0);
            lemma_appended_holds(st2.unit, st3.unit, f, n, f, 0, 0);
            lemma_holds_trans(st.unit, st2.unit, st3.unit, f, 0, 0, 0, 0);
            lemma_appended_holds(st.unit, end.unit, f, cur, f, 0, 0);
            // from the second state
            lemma_if_else_end(st4, f, n, prune, cur, n + 3);
            lemma_appended_holds(st2.unit, st3.unit, f, n, f, n + 3, cur);
            lemma_appended_holds(st3.unit, st4.unit, f, n + 1, f, n + 3, cur);
            lemma_holds_trans(st2.unit, st3.unit, st4.unit, f, n + 3, cur, n + 3, cur);
            lemma_holds_trans(st2.unit, st4.unit, end.unit, f, n + 3, cur, n + 3, cur);
            lemma_holds_trans(st2.unit, end.unit, unit, f, n + 3, cur, n, cur);
            // from the third state
            lemma_if_else_end(st4, f, n, prune, n, n + 3);
            lemma_appended_holds(st3.unit, st4.unit, f, n + 1, f, n + 3, n);
            lemma_holds_trans(st3.unit, st4.unit, end.unit, f, n + 3, n, n + 3, n);
            lemma_holds_trans(st3.unit, end.unit, unit, f, n + 3, n, n, cur);
            // from the fourth state
            lemma_if_else_end(st4, f, n, prune, n + 1, st3.block_count());
            lemma_holds_trans(st4.unit, end.unit, unit, f, st3.block_count(), n + 1, n, cur);
        },
        _ => {},
    }
}

/// A conditional with an `else` branch whose condition holds is run by the
/// unit as the program runs it.
#[verifier::rlimit(30)]
proof fn lemma_if_else_taken(
    unit: UnitView,
    calls: Calls,
    params: Seq<int>,
    st: GenState,
    s: StmtView,
    tail: bool,
    env: Env,
    m: Machine,
) -> (r: (nat, Machine))
    requires
        st.positioned(),
        st.scopes.len() > 0,
        !st.terminated(),
        s matches StmtView::If { else_branch, .. } && else_branch is Some,
        lower_if(st, s, tail) is Ok,
        holds_code(lower_if(st, s, tail)->Ok_0.unit, unit, st.cur_fn, st.block_count(), st.cur_block),
        sized(unit, st.cur_fn),
        agrees(env, st, m.memory),
        conditional_meaning(env, calls, s, tail) is Some,
        s matches StmtView::If { condition, .. } && value_in_env(env, calls, condition) matches Some(
            v,
        ) && v.1 != 0,
    ensures
        ran(
            unit,
            calls,
            params,
            st,
            m,
            lower_if(st, s, tail)->Ok_0,
            conditional_meaning(env, calls, s, tail)->Some_0,
            r,
        ),
    decreases s, 0nat, 1nat,
{
    match s {
        StmtView::If { condition, then_branch, else_branch } => {
            let f = st.cur_fn;
            let n = st.block_count();
            let stmts = else_branch->Some_0;
            let st2 = st.begin_conditional(condition, true)->Ok_0;
            let (st3, then_ends) = lower_branch(st2, n, then_branch, n + 2, tail)->Ok_0;
            let (st4, else_ends) = lower_branch(st3, n + 1, stmts, n + 2, tail)->Ok_0;
            let end = lower_if(st, s, tail)->Ok_0;
            let start = Config::At { m, block: st.cur_block, index: st.next_index() };
            lemma_if_else_first(st, s, tail);
            lemma_if_else_shape(st, s, tail);
            lemma_if_else_states(st, s, tail, unit);
            let head = lemma_if_head_runs(unit, calls, params, st, condition, true, env, m, n + 3);
            lemma_stores_agree_held(env.store, st.scopes, st, st2.at(f, n), 0, 0, head.1.memory);
            let r = lemma_branch_of_runs(
                    unit,
                    calls,
                    params,
                    st2,
                    n,
                    s,
                    true,
                    n + 2,
                    tail,
                    env,
                    head.1,
                );
            lemma_run_for_add(unit, f, calls, params, start, head.0, r.0);
            let (taken, flow) = block_meaning(env, calls, then_branch, tail)->Some_0;
            match flow {
                Flow::Return(x) => {},
                Flow::Next => {
                    lemma_stores_agree_held(taken.store, st3.scopes, st3, end, n + 3, n, r.1.memory);
                },
            }
            (head.0 + r.0, r.1)
        },
        _ => (0, m),
    }
}

/// What the lowering of a conditional gives the run of its `else` branch to
/// start from.
#[verifier::rlimit(30)]
proof fn lemma_if_else_skipped_ready(
    unit: UnitView,
    calls: Calls,
    params: Seq<int>,
    st: GenState,
    s: StmtView,
    tail: bool,
    env: Env,
    m: Machine,
    memory: Map<Slot, int>,
)
    requires
        st.positioned(),
        st.scopes.len() > 0,
        !st.terminated(),
        s matches StmtView::If { else_branch, .. } && else_branch is Some,
        lower_if(st, s, tail) is Ok,
        holds_code(lower_if(st, s, tail)->Ok_0.unit, unit, st.cur_fn, st.block_count(), st.cur_block),
        sized(unit, st.cur_fn),
        agrees(env, st, m.memory),
        conditional_meaning(env, calls, s, tail) is Some,
        s matches StmtView::If { condition, .. } && value_in_env(env, calls, condition) matches Some(
            v,
        ) && v.1 == 0,
        memory == m.memory,
    ensures
        s matches StmtView::If { then_branch, else_branch: Some(stmts), .. } && ({
            let f = st.cur_fn;
            let n = st.block_count();
            let st2 = st.begin_conditional(s->If_condition, true)->Ok_0;
            let st3 = lower_branch(st2, n, then_branch, n + 2, tail)->Ok_0.0;
            let lowered = lower_branch(st3, n + 1, stmts, n + 2, tail);
            let end = lower_if(st, s, tail)->Ok_0;
            let other = Env { sigs: env.sigs + declared_in(then_branch, then_branch.len()), ..env };
            let meant = block_meaning(other, calls, stmts, tail);
            &&& holds_code(st2.unit, unit, f, n + 3, st.cur_block)
            &&& st.begin_conditional(s->If_condition, true) is Ok
            &&& st3.positioned()
            &&& st3.cur_fn == f
            &&& live(st3.unit, f, n + 1)
            &&& st3.unit.block(f, n + 1).instrs.len() == 0
            &&& 0 <= n + 2 < st3.block_count()
            &&& lowered is Ok
            &&& holds_code(lowered->Ok_0.0.unit, unit, f, st3.block_count(), n + 1)
            &&& agrees(other, st3.at(f, n + 1), memory)
            &&& meant is Some
            &&& conditional_meaning(env, calls, s, tail) == Some(
                (Env { store: meant->Some_0.0.store, sigs: env.sigs + declared_by(s) }, meant->Some_0.1),
            )
            &&& end.cur_fn == f
            &&& end.cur_block == n + 2
            &&& end.next_index() == 0
            &&& end.positioned()
            &&& !lowered->Ok_0.1 ==> !end.terminated()
            &&& end.scopes == lowered->Ok_0.0.scopes
            &&& lowered->Ok_0.0.cur_fn == f
            &&& holds_code(lowered->Ok_0.0.unit, end.unit, f, n + 3, n)
            &&& end.unit.signatures() == env.sigs + declared_by(s)
        }),
{
    match s {
        StmtView::If { condition, then_branch, else_branch: Some(stmts) } => {
            let f = st.cur_fn;
            let n = st.block_count();
            let st2 = st.begin_conditional(condition, true)->Ok_0;
            let st3 = lower_branch(st2, n, then_branch, n + 2, tail)->Ok_0.0;
            lemma_if_else_first(st, s, tail);
            lemma_if_else_shape(st, s, tail);
            lemma_if_else_states(st, s, tail, unit);
            lemma_skipped_meaning(env, calls, s, tail);
            lemma_stores_agree_held(env.store, st.scopes, st, st3.at(f, n + 1), 0, 0, memory);
        },
        _ => {},
    }
}

/// A conditional with an `else` branch whose condition does not hold is run
/// by the unit as the program runs it.
#[verifier::rlimit(30)]
proof fn lemma_if_else_skipped(
    unit: UnitView,
    calls: Calls,
    params: Seq<int>,
    st: GenState,
    s: StmtView,
    tail: bool,
    env: Env,
    m: Machine,
) -> (r: (nat, Machine))
    requires
        st.positioned(),
        st.scopes.len() > 0,
        !st.terminated(),
        s matches StmtView::If { else_branch, .. } && else_branch is Some,
        lower_if(st, s, tail) is Ok,
        holds_code(lower_if(st, s, tail)->Ok_0.unit, unit, st.cur_fn, st.block_count(), st.cur_block),
        sized(unit, st.cur_fn),
        agrees(env, st, m.memory),
        conditional_meaning(env, calls, s, tail) is Some,
        s matches StmtView::If { condition, .. } && value_in_env(env, calls, condition) matches Some(
            v,
        ) && v.1 == 0,
    ensures
        ran(
            unit,
            calls,
            params,
            st,
            m,
            lower_if(st, s, tail)->Ok_0,
            conditional_meaning(env, calls, s, tail)->Some_0,
            r,
        ),
    decreases s, 0nat, 1nat,
{
    match s {
        StmtView::If { condition, then_branch, else_branch: Some(stmts) } => {
            let f = st.cur_fn;
            let n = st.block_count();
            let st2 = st.begin_conditional(condition, true)->Ok_0;
            let st3 = lower_branch(st2, n, then_branch, n + 2, tail)->Ok_0.0;
            let (st4, else_ends) = lower_branch(st3, n + 1, stmts, n + 2, tail)->Ok_0;
            let end = lower_if(st, s, tail)->Ok_0;
            let other = Env { sigs: env.sigs + declared_in(then_branch, then_branch.len()), ..env };
            lemma_if_else_skipped_ready(unit, calls, params, st, s, tail, env, m, m.memory);
            let head = lemma_if_head_runs(unit, calls, params, st, condition, true, env, m, n + 3);
            let r = lemma_branch_of_runs(
                    unit,
                    calls,
                    params,
                    st3,
                    n + 1,
                    s,
                    false,
                    n + 2,
                    tail,
                    other,
                    head.1,
                );
            lemma_if_else_after(
                unit,
                calls,
                params,
                st,
                m,
                st4,
                else_ends,
                end,
                n,
                n + 1,
                head,
                r,
                block_meaning(other, calls, stmts, tail)->Some_0,
                env.sigs + declared_by(s),
            );
            (head.0 + r.0, r.1)
        },
        _ => (0, m),
    }
}

/// What a conditional means whose condition does not hold and that has an
/// `else` branch: what that branch means.
proof fn lemma_skipped_meaning(env: Env, calls: Calls, s: StmtView, tail: bool)
    requires
        s matches StmtView::If { else_branch, .. } && else_branch is Some,
        conditional_meaning(env, calls, s, tail) is Some,
        s matches StmtView::If { condition, .. } && value_in_env(env, calls, condition) matches Some(
            v,
        ) && v.1 == 0,
    ensures
        s matches StmtView::If { then_branch, else_branch, .. } && ({
            let other = Env { sigs: env.sigs + declared_in(then_branch, then_branch.len()), ..env };
            let meant = block_meaning(other, calls, else_branch->Some_0, tail);
            &&& meant is Some
            &&& conditional_meaning(env, calls, s, tail) == Some(
                (Env { store: meant->Some_0.0.store, sigs: env.sigs + declared_by(s) }, meant->Some_0.1),
            )
        }),
{
}

/// What follows of a branch that has run for the conditional that it is a
/// branch of.
proof fn lemma_if_else_after(
    unit: UnitView,
    calls: Calls,
    params: Seq<int>,
    st: GenState,
    m: Machine,
    st4: GenState,
    ends: bool,
    end: GenState,
    n: int,
    block: int,
    head: (nat, Machine),
    r: (nat, Machine),
    meaning: (Env, Flow),
    sigs: Seq<Signature>,
)
    requires
        run_for(
            unit,
            st.cur_fn,
            calls,
            params,
            Config::At { m, block: st.cur_block, index: st.next_index() },
            head.0,
        ) == Some(Config::At { m: head.1, block, index: 0 }),
        branch_ran(unit, calls, params, st.cur_fn, head.1, block, n + 2, (st4, ends), meaning, r),
        end.cur_fn == st.cur_fn,
        end.cur_block == n + 2,
        end.next_index() == 0,
        end.positioned(),
        !ends ==> !end.terminated(),
        end.scopes == st4.scopes,
        st4.cur_fn == st.cur_fn,
        holds_code(st4.unit, end.unit, st.cur_fn, n + 3, n),
        end.unit.signatures() == sigs,
    ensures
        ran(unit, calls, params, st, m, end, (Env { store: meaning.0.store, sigs }, meaning.1), r_sum(
            head,
            r,
        )),
{
    lemma_run_for_add(
        unit,
        st.cur_fn,
        calls,
        params,
        Config::At { m, block: st.cur_block, index: st.next_index() },
        head.0,
        r.0,
    );
    match meaning.1 {
        Flow::Return(x) => {},
        Flow::Next => {
            lemma_stores_agree_held(
                meaning.0.store,
                st4.scopes,
                st4,
                end,
                n + 3,
                n,
                r.1.memory,
            );
        },
    }
}

/// The steps of two runs, one after the other, and what the second leaves.
pub open spec fn r_sum(head: (nat, Machine), r: (nat, Machine)) -> (nat, Machine) {
    (head.0 + r.0, r.1)
}

/// A conditional with an `else` branch is run by the unit as the program
/// runs it.
proof fn lemma_if_else_runs(
    unit: UnitView,
    calls: Calls,
    params: Seq<int>,
    st: GenState,
    s: StmtView,
    tail: bool,
    env: Env,
    m: Machine,
) -> (r: (nat, Machine))
    requires
        st.positioned(),
        st.scopes.len() > 0,
        !st.terminated(),
        s matches StmtView::If { else_branch, .. } && else_branch is Some,
        lower_if(st, s, tail) is Ok,
        holds_code(lower_if(st, s, tail)->Ok_0.unit, unit, st.cur_fn, st.block_count(), st.cur_block),
        sized(unit, st.cur_fn),
        agrees(env, st, m.memory),
        conditional_meaning(env, calls, s, tail) is Some,
    ensures
        ran(
            unit,
            calls,
            params,
            st,
            m,
            lower_if(st, s, tail)->Ok_0,
            conditional_meaning(env, calls, s, tail)->Some_0,
            r,
        ),
    decreases s, 0nat, 2nat,
{
    match s {
        StmtView::If { condition, then_branch, else_branch } => {
            if value_in_env(env, calls, condition)->Some_0.1 != 0 {
                lemma_if_else_taken(unit, calls, params, st, s, tail, env, m)
            } else {
                lemma_if_else_skipped(unit, calls, params, st, s, tail, env, m)
            }
        },
        _ => (0, m),
    }
}

/// A conditional is run by the unit as the program runs it.
pub proof fn lemma_if_runs(
    unit: UnitView,
    calls: Calls,
    params: Seq<int>,
    st: GenState,
    s: StmtView,
    tail: bool,
    env: Env,
    m: Machine,
) -> (r: (nat, Machine))
    requires
        st.positioned(),
        st.scopes.len() > 0,
        !st.terminated(),
        s is If,
        lower_if(st, s, tail) is Ok,
        holds_code(lower_if(st, s, tail)->Ok_0.unit, unit, st.cur_fn, st.block_count(), st.cur_block),
        sized(unit, st.cur_fn),
        agrees(env, st, m.memory),
        conditional_meaning(env, calls, s, tail) is Some,
    ensures
        ran(
            unit,
            calls,
            params,
            st,
            m,
            lower_if(st, s, tail)->Ok_0,
            conditional_meaning(env, calls, s, tail)->Some_0,
            r,
        ),
    decreases s, 0nat, 3nat,
{
    match s {
        StmtView::If { condition, then_branch, else_branch } => {
            if else_branch is Some {
                lemma_if_else_runs(unit, calls, params, st, s, tail, env, m)
            } else {
                lemma_if_then_runs(unit, calls, params, st, s, tail, env, m)
            }
        },
        _ => (0, m),
    }
}

/// The parameters of a function are made variables as the function starts
/// to run: after the first `n` of them the function has taken two steps
/// for each, and its slots hold the arguments.
proof fn lemma_params_run(
    unit: UnitView,
    calls: Calls,
    args: Seq<int>,
    st: GenState,
    params: Seq<ParamView>,
    n: nat,
    around: nat,
    m: Machine,
) -> (memory: Map<Slot, int>)
    requires
        st.positioned(),
        !st.terminated(),
        st.scopes.len() > 0,
        n <= params.len() <= usize::MAX,
        st.bind_params(params, n) is Ok,
        holds_code(st.bind_params(params, n)->Ok_0.unit, unit, st.cur_fn, 1, st.cur_block),
        sized(unit, st.cur_fn),
        entry_store(around, params, args, n) is Some,
        stores_agree(entry_store(around, params, args, 0)->Some_0, st.scopes, st, m.memory),
    ensures
        run_for(
            unit,
            st.cur_fn,
            calls,
            args,
            Config::At { m, block: st.cur_block, index: st.next_index() },
            2 * n,
        ) == Some(
            Config::At {
                m: Machine { memory, ..m },
                block: st.cur_block,
                index: st.bind_params(params, n)->Ok_0.next_index(),
            },
        ),
        stores_agree(
            entry_store(around, params, args, n)->Some_0,
            st.bind_params(params, n)->Ok_0.scopes,
            st.bind_params(params, n)->Ok_0,
            memory,
        ),
        st.bind_params(params, n)->Ok_0.positioned(),
        !st.bind_params(params, n)->Ok_0.terminated(),
        st.bind_params(params, n)->Ok_0.cur_fn == st.cur_fn,
        st.bind_params(params, n)->Ok_0.cur_block == st.cur_block,
        st.bind_params(params, n)->Ok_0.unit.signatures() == st.unit.signatures(),
    decreases n,
{
    if n == 0 {
        m.memory
    } else {
        let k = (n - 1) as nat;
        let before = st.bind_params(params, k)->Ok_0;
        let after = st.bind_params(params, n)->Ok_0;
        let ty = lower_type(params[n - 1].ty)->Ok_0;
        let value = Value { ty, source: Operand::Param(k as usize) };
        let name = params[n - 1].name;
        let x = wrap(ty, args[n - 1]);
        lemma_bind_params_leads(st, params, k);
        lemma_bind_leads(before, name, value, false);
        assert(before.cur_fn == st.cur_fn) by {
            lemma_bind_params_declares(st, params, k);
        }
        lemma_holds_earlier(before, after, unit, 1, st.cur_block);
        let held = lemma_params_run(unit, calls, args, st, params, k, around, m);
        let m1 = Machine { memory: held, ..m };
        let store = entry_store(around, params, args, k)->Some_0;
        lemma_bind_runs(unit, calls, args, before, name, value, false, store, m1, x, 1);
        lemma_run_for_add(
            unit,
            st.cur_fn,
            calls,
            args,
            Config::At { m, block: st.cur_block, index: st.next_index() },
            2 * k,
            2,
        );
        held.insert(Slot { block: st.cur_block as usize, index: before.next_index() as usize }, x)
    }
}

/// A compiled function does what the function means.
///
/// Let the function that `s` declares be lowered in state `st`, where no
/// variable is in sight, and let `unit` hold its code. Where the function
/// has a meaning on the arguments `args`, it returns in `unit`, run on
/// them from its first block with nothing in its slots, within `steps`
/// steps what it means: the value of the `return` or of the tail
/// expression at which its body ends, or nothing where the body ends
/// otherwise. What calls return is the same for the program and for the
/// unit.
pub proof fn lemma_function_runs(
    st: GenState,
    s: StmtView,
    unit: UnitView,
    calls: Calls,
    args: Seq<int>,
) -> (steps: nat)
    requires
        st.positioned(),
        s is FnDecl,
        s->FnDecl_params.len() <= usize::MAX,
        lower_fn_decl(st, s) is Ok,
        forall|i: int, name: Seq<char>|
            0 <= i < st.scopes.len() ==> !(#[trigger] st.scopes[i].contains_key(name)),
        holds_code(lower_fn_decl(st, s)->Ok_0.unit, unit, st.unit.functions.len() as int, 1, 0),
        sized(unit, st.unit.functions.len() as int),
        function_meaning(st.unit.signatures(), st.scopes.len(), s, args, calls) is Some,
    ensures
        returns_within(unit, st.unit.functions.len() as int, calls, args, steps)
            == function_meaning(st.unit.signatures(), st.scopes.len(), s, args, calls),
{
    let g = st.unit.functions.len() as int;
    let around = st.scopes.len();
    let m = Machine { memory: Map::empty(), results: Map::empty() };
    let start = Config::At { m, block: 0, index: 0 };
    match s {
        StmtView::FnDecl { name, params, ty, body } => {
            let types = lower_param_types(params)->Ok_0;
            let ret = lower_return_type(ty)->Ok_0;
            let entered = st.enter_function(name, types, ret);
            let st1 = entered.bind_params(params, params.len())->Ok_0;
            let st2 = lower_block(st1, body, true)->Ok_0;
            let end = st2.close();
            let value = InstrView::Return { value: None };
            lemma_enter_function(st, name, types, ret);
            lemma_bind_params_leads(entered, params, params.len());
            lemma_block_leads(st1, body, true);
            if !st2.terminated() {
                lemma_emit_leads(st2, seq![value]);
            } else {
                lemma_appends_refl(st2.unit, st2.cur_fn, st2.cur_block);
            }
            lemma_appended_holds(st2.unit, end.unit, g, st2.cur_block, g, 1, 0);
            lemma_holds_trans(st2.unit, end.unit, unit, g, 1, 0, 1, 0);
            lemma_holds_earlier(st1, st2, unit, 1, 0);
            assert(stores_agree(
                entry_store(around, params, args, 0)->Some_0,
                entered.scopes,
                entered,
                m.memory,
            )) by {
                reveal(stores_agree);
            }
            let memory = lemma_params_run(
                unit,
                calls,
                args,
                entered,
                params,
                params.len(),
                around,
                m,
            );
            let m1 = Machine { memory, ..m };
            let env = Env {
                store: entry_store(around, params, args, params.len())->Some_0,
                sigs: st.unit.signatures().push(Signature { name, ret }),
            };
            assert(entered.unit.signatures() =~= env.sigs);
            lemma_block_count_grows(entered, st1);
            lemma_holds_weaken(st2.unit, unit, g, 1, 0, st1.block_count(), 0);
            let r = lemma_block_runs(unit, calls, args, st1, body, true, env, m1);
            lemma_run_for_add(unit, g, calls, args, start, 2 * params.len(), r.0);
            let (env1, flow) = block_meaning(env, calls, body, true)->Some_0;
            match flow {
                Flow::Return(x) => 2 * params.len() + r.0,
                Flow::Next => {
                    lemma_appends_refl(end.unit, g, st2.cur_block);
                    lemma_appended_holds(end.unit, end.unit, g, st2.cur_block, g, 1, st2.cur_block);
                    lemma_holds_trans(end.unit, end.unit, unit, g, 1, st2.cur_block, 1, 0);
                    lemma_return_runs(unit, calls, args, st2, None, r.1, None, 1);
                    lemma_run_for_add(unit, g, calls, args, start, 2 * params.len() + r.0, 1);
                    2 * params.len() + r.0 + 1
                },
            }
        },
        _ => 0,
    }
}

/// A compiled program does what the program means.
///
/// Where the program has a meaning, the function `main` of the unit of the
/// program compiled on its own, run from its first block with nothing in
/// its slots, returns within `steps` steps what the program returns: the
/// value of the `return` or of the tail expression at which the program
/// ends, or nothing where it ends otherwise. What calls return is the same
/// for the program and for the unit.
pub proof fn lemma_program_runs(name: Seq<char>, program: Seq<StmtView>, calls: Calls) -> (steps:
    nat)
    requires
        compiled_alone(name, program) is Ok,
        sized(compiled_alone(name, program)->Ok_0.unit, 0),
        program_meaning(program, calls) is Some,
    ensures
        returns_within(
            compiled_alone(name, program)->Ok_0.unit,
            0,
            calls,
            Seq::empty(),
            steps,
        ) == program_meaning(program, calls),
{
    let st = GenState {
        unit: UnitView { name, functions: Seq::empty() },
        scopes: seq![Map::empty()],
        cur_fn: 0,
        cur_block: 0,
    };
    let entered = GenState {
        unit: st.unit.add_function("main"@, Seq::empty(), Some(IrType::I32)).append_block(
            0,
            BlockLabel::Entry,
        ),
        cur_fn: 0,
        cur_block: 0,
        ..st
    };
    let st1 = lower_block(entered, program, true)->Ok_0;
    let end = st1.close();
    let unit = end.unit;
    let env = Env {
        store: seq![Map::empty()],
        sigs: seq![Signature { name: "main"@, ret: Some(IrType::I32) }],
    };
    let m = Machine { memory: Map::empty(), results: Map::empty() };
    let params = Seq::<int>::empty();
    let ret = InstrView::Return { value: None };
    assert(entered.unit.signatures() =~= env.sigs);
    assert(stores_agree(env.store, entered.scopes, entered, m.memory)) by {
        reveal(stores_agree);
    }
    lemma_block_leads(entered, program, true);
    if !st1.terminated() {
        lemma_emit_leads(st1, seq![ret]);
    } else {
        lemma_appends_refl(st1.unit, st1.cur_fn, st1.cur_block);
    }
    lemma_appended_holds(st1.unit, unit, 0, st1.cur_block, 0, 1, 0);
    let r = lemma_block_runs(unit, calls, params, entered, program, true, env, m);
    let (env1, flow) = block_meaning(env, calls, program, true)->Some_0;
    let start = Config::At { m, block: 0, index: 0 };
    match flow {
        Flow::Return(x) => r.0,
        Flow::Next => {
            lemma_appends_refl(unit, 0, st1.cur_block);
            lemma_appended_holds(unit, unit, 0, st1.cur_block, 0, 1, st1.cur_block);
            lemma_return_runs(unit, calls, params, st1, None, r.1, None, 1);
            lemma_run_for_add(unit, 0, calls, params, start, r.0, 1);
            r.0 + 1
        },
    }
}

} // verus!
