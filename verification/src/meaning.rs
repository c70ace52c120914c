//! What programs and units mean.
//!
//! The meaning of a program is given on its syntax tree: statements change a
//! store of named variables and go on, or return. The meaning of a unit is
//! given on its blocks: instructions run one after the other, and jumps go
//! from block to block. What a call returns is not defined here: both
//! meanings are relative to a table that gives, for a function and its
//! arguments, what the call returns.

use crate::ast::{ExprView, ParamView, StmtView};
use crate::flow::live;
use crate::ir::{InstrView, IrType, Operand, Signature, Slot, UnitView, Value};
use crate::lower::{check_declared, lower_return_type, lower_type};
use crate::semantics::{expr_value, instr_value, operand_value, wrap, Reader, Results, World};
use vstd::prelude::*;

verus! {

/// A variable of a running program.
pub struct Variable {
    /// The type of its value
    pub ty: IrType,
    /// What it holds
    pub value: int,
    /// Whether it may be assigned to
    pub is_mutable: bool,
}

/// The variables of a running program: a stack of scopes.
pub type Store = Seq<Map<Seq<char>, Variable>>;

/// The variable of the name `name` that is in sight: the one in the
/// innermost scope that has one of that name.
pub open spec fn lookup(store: Store, name: Seq<char>) -> Option<Variable>
    decreases store.len(),
{
    if store.len() == 0 {
        None
    } else if store.last().contains_key(name) {
        Some(store.last()[name])
    } else {
        lookup(store.drop_last(), name)
    }
}

/// What the variables of the store hold.
pub open spec fn store_reader(store: Store) -> Reader {
    |name: Seq<char>|
        match lookup(store, name) {
            None => None,
            Some(variable) => Some((variable.ty, variable.value)),
        }
}

/// The store with a new variable in its innermost scope; nothing where that
/// scope has one of the name already.
pub open spec fn define(store: Store, name: Seq<char>, variable: Variable) -> Option<Store> {
    if store.len() == 0 || store.last().contains_key(name) {
        None
    } else {
        Some(store.update(store.len() - 1, store.last().insert(name, variable)))
    }
}

/// The store with `value` in the variable of the name `name` that is in
/// sight; nothing where there is none.
pub open spec fn assign(store: Store, name: Seq<char>, value: int) -> Option<Store>
    decreases store.len(),
{
    if store.len() == 0 {
        None
    } else if store.last().contains_key(name) {
        Some(
            store.update(
                store.len() - 1,
                store.last().insert(name, Variable { value, ..store.last()[name] }),
            ),
        )
    } else {
        match assign(store.drop_last(), name, value) {
            None => None,
            Some(below) => Some(below.push(store.last())),
        }
    }
}

/// The functions that the statement `s` declares, in the order of their
/// declarations: a function before those that its body declares.
pub open spec fn declared_by(s: StmtView) -> Seq<Signature>
    decreases s, 1nat,
{
    match s {
        StmtView::FnDecl { name, ty, body, .. } => seq![
            Signature {
                name,
                ret: match lower_return_type(ty) {
                    Ok(ret) => ret,
                    Err(_) => None,
                },
            },
        ] + declared_in(body, body.len()),
        StmtView::If { then_branch, else_branch, .. } => declared_in(
            then_branch,
            then_branch.len(),
        ) + match else_branch {
            Some(stmts) => declared_in(stmts, stmts.len()),
            None => Seq::empty(),
        },
        _ => Seq::empty(),
    }
}

/// The functions that the first `n` of `stmts` declare.
pub open spec fn declared_in(stmts: Seq<StmtView>, n: nat) -> Seq<Signature>
    decreases stmts, 0nat, n,
{
    if n == 0 || n > stmts.len() {
        Seq::empty()
    } else {
        declared_in(stmts, (n - 1) as nat) + declared_by(stmts[n - 1])
    }
}

/// What a running program knows: its variables, and the functions declared
/// so far.
pub struct Env {
    pub store: Store,
    pub sigs: Seq<Signature>,
}

/// How a statement ends: the program goes on behind it, or the function
/// returns, with a value or without one.
pub enum Flow {
    Next,
    Return(Option<int>),
}

/// What `calls` returns on a call.
pub type Calls = spec_fn(int, Seq<int>) -> Option<int>;

/// The value of `e` and its type, in `env`.
#[verifier::opaque]
pub open spec fn value_in_env(env: Env, calls: Calls, e: ExprView) -> Option<(IrType, int)> {
    expr_value(store_reader(env.store), env.sigs, calls, e)
}

/// What the statement `s` does, in `env`: what the program knows after it,
/// and how it ends. Nothing where the statement has no meaning: where an
/// expression has no value, a name is unbound or bound twice, an immutable
/// variable is assigned to, or types disagree.
///
/// `tail` says whether the statement is in tail position: a bare
/// expression in tail position returns its value. A function declaration
/// does nothing but declare. The functions that either branch of a
/// conditional declares are declared after it, whichever branch is taken.
pub open spec fn stmt_meaning(env: Env, calls: Calls, s: StmtView, tail: bool) -> Option<(Env, Flow)>
    decreases s, 2nat, 0nat,
{
    let after = Env { sigs: env.sigs + declared_by(s), ..env };
    match s {
        StmtView::ExprStmt { expr } => match value_in_env(env, calls, expr) {
            None => None,
            Some(_) => Some((env, Flow::Next)),
        },
        StmtView::Expr { expr } => match value_in_env(env, calls, expr) {
            None => None,
            Some((_, x)) => if tail {
                Some((env, Flow::Return(Some(x))))
            } else {
                Some((env, Flow::Next))
            },
        },
        StmtView::Return { expr } => match expr {
            None => Some((env, Flow::Return(None))),
            Some(e) => match value_in_env(env, calls, e) {
                None => None,
                Some((_, x)) => Some((env, Flow::Return(Some(x)))),
            },
        },
        StmtView::LetDecl { name, ty, value } => match value {
            None => None,
            Some(e) => match value_in_env(env, calls, e) {
                None => None,
                Some((vty, x)) => if check_declared(ty, vty) is Ok {
                    match define(env.store, name, Variable { ty: vty, value: x, is_mutable: false }) {
                        None => None,
                        Some(store) => Some((Env { store, ..env }, Flow::Next)),
                    }
                } else {
                    None
                },
            },
        },
        StmtView::VarDecl { name, ty, value } => {
            let initial = match value {
                Some(e) => match value_in_env(env, calls, e) {
                    None => None,
                    Some((vty, x)) => if check_declared(ty, vty) is Ok {
                        Some((vty, x))
                    } else {
                        None
                    },
                },
                None => match ty {
                    None => None,
                    Some(t) => match lower_type(t) {
                        Err(_) => None,
                        Ok(vty) => Some((vty, wrap(vty, 0))),
                    },
                },
            };
            match initial {
                None => None,
                Some((vty, x)) => match define(
                    env.store,
                    name,
                    Variable { ty: vty, value: x, is_mutable: true },
                ) {
                    None => None,
                    Some(store) => Some((Env { store, ..env }, Flow::Next)),
                },
            }
        },
        StmtView::Assign { name, value } => match lookup(env.store, name) {
            None => None,
            Some(variable) => if !variable.is_mutable {
                None
            } else {
                match value_in_env(env, calls, value) {
                    None => None,
                    Some((vty, x)) => if vty != variable.ty {
                        None
                    } else {
                        match assign(env.store, name, x) {
                            None => None,
                            Some(store) => Some((Env { store, ..env }, Flow::Next)),
                        }
                    },
                }
            },
        },
        StmtView::If { .. } => conditional_meaning(env, calls, s, tail),
        StmtView::FnDecl { .. } => Some((after, Flow::Next)),
    }
}

/// What the conditional `s` does: what the branch does that is taken, in a
/// scope of its own. The `then` branch is taken where the condition, a
/// single bit, is set. The functions that either branch declares are
/// declared after the conditional, whichever branch is taken, and those of
/// the `then` branch are declared in the `else` branch.
pub open spec fn conditional_meaning(env: Env, calls: Calls, s: StmtView, tail: bool) -> Option<
    (Env, Flow),
>
    decreases s, 1nat, 0nat,
{
    let after = Env { sigs: env.sigs + declared_by(s), ..env };
    match s {
        StmtView::If { condition, then_branch, else_branch } => match value_in_env(
            env,
            calls,
            condition,
        ) {
            None => None,
            Some((ty, c)) => if ty != IrType::I1 {
                None
            } else if c != 0 {
                match block_meaning(env, calls, then_branch, tail) {
                    None => None,
                    Some((taken, flow)) => Some((Env { store: taken.store, ..after }, flow)),
                }
            } else {
                match else_branch {
                    None => Some((after, Flow::Next)),
                    Some(stmts) => match block_meaning(
                        Env {
                            sigs: env.sigs + declared_in(then_branch, then_branch.len()),
                            ..env
                        },
                        calls,
                        stmts,
                        tail,
                    ) {
                        None => None,
                        Some((taken, flow)) => Some((Env { store: taken.store, ..after }, flow)),
                    },
                }
            },
        },
        _ => None,
    }
}

/// What the statements of `stmts` from index `i` on do, one after the
/// other, until one of them returns.
pub open spec fn stmts_meaning(
    env: Env,
    calls: Calls,
    stmts: Seq<StmtView>,
    i: nat,
    tail: bool,
) -> Option<(Env, Flow)>
    decreases stmts, 2nat, stmts.len() - i,
{
    if i >= stmts.len() {
        Some((env, Flow::Next))
    } else {
        match stmt_meaning(env, calls, stmts[i as int], tail && i == stmts.len() - 1) {
            None => None,
            Some((env1, flow)) => match flow {
                Flow::Return(x) => Some((env1, Flow::Return(x))),
                Flow::Next => stmts_meaning(env1, calls, stmts, i + 1, tail),
            },
        }
    }
}

/// What the block `stmts` does: its statements, in a scope of their own.
pub open spec fn block_meaning(env: Env, calls: Calls, stmts: Seq<StmtView>, tail: bool) -> Option<
    (Env, Flow),
>
    decreases stmts, 3nat, 0nat,
{
    match stmts_meaning(Env { store: env.store.push(Map::empty()), ..env }, calls, stmts, 0, tail) {
        None => None,
        Some((env1, flow)) => Some((Env { store: env1.store.drop_last(), ..env1 }, flow)),
    }
}

/// What the program returns: what its statements return as the body of
/// `main`, and nothing where they return nothing. `None` where the program
/// has no meaning.
pub open spec fn program_meaning(program: Seq<StmtView>, calls: Calls) -> Option<Option<int>> {
    let env = Env {
        store: seq![Map::empty()],
        sigs: seq![Signature { name: "main"@, ret: Some(IrType::I32) }],
    };
    match block_meaning(env, calls, program, true) {
        None => None,
        Some((_, flow)) => match flow {
            Flow::Return(x) => Some(x),
            Flow::Next => Some(None),
        },
    }
}

/// The store of a function that starts to run on the arguments `args`, with
/// the first `n` of its parameters: `around` empty scopes, for the blocks
/// around the declaration, and the scope of the parameters, each an
/// immutable variable that holds its argument. Nothing where two of the
/// parameters have one name, where one has a type that values cannot have,
/// and where there are fewer arguments than parameters.
pub open spec fn entry_store(around: nat, params: Seq<ParamView>, args: Seq<int>, n: nat) -> Option<
    Store,
>
    decreases n,
{
    if n == 0 || n > params.len() {
        Some(Seq::new(around, |i: int| Map::empty()).push(Map::empty()))
    } else {
        match (entry_store(around, params, args, (n - 1) as nat), lower_type(params[n - 1].ty)) {
            (Some(store), Ok(ty)) => if n - 1 < args.len() {
                define(
                    store,
                    params[n - 1].name,
                    Variable { ty, value: wrap(ty, args[n - 1]), is_mutable: false },
                )
            } else {
                None
            },
            _ => None,
        }
    }
}

/// What the function that `s` declares returns on the arguments `args`:
/// what its body returns, and nothing where the body returns nothing.
/// `None` where the function has no meaning on them.
///
/// `sigs` are the functions declared before it, and `around` is the number
/// of scopes around the declaration. The function is declared in its body,
/// so that it can call itself. No variable from around the declaration is
/// in sight in the body.
pub open spec fn function_meaning(
    sigs: Seq<Signature>,
    around: nat,
    s: StmtView,
    args: Seq<int>,
    calls: Calls,
) -> Option<Option<int>> {
    match s {
        StmtView::FnDecl { name, params, ty, body } => match (
            entry_store(around, params, args, params.len()),
            lower_return_type(ty),
        ) {
            (Some(store), Ok(ret)) => match block_meaning(
                Env { store, sigs: sigs.push(Signature { name, ret }) },
                calls,
                body,
                true,
            ) {
                None => None,
                Some((_, flow)) => match flow {
                    Flow::Return(x) => Some(x),
                    Flow::Next => Some(None),
                },
            },
            _ => None,
        },
        _ => None,
    }
}

/// What a running function holds: the content of its slots, and the
/// results of the instructions that have run.
pub struct Machine {
    pub memory: Map<Slot, int>,
    pub results: Results,
}

/// The value of an operand of a function that runs on the arguments
/// `params`.
pub open spec fn value_in(params: Seq<int>, v: Value, results: Results) -> Option<int> {
    match v.source {
        Operand::Param(k) => if k < params.len() {
            Some(wrap(v.ty, params[k as int]))
        } else {
            None
        },
        _ => operand_value(v, results),
    }
}

/// Where a running function is: before the instruction at `index` in
/// block `block`, with what it holds; or done, with what it has returned.
pub enum Config {
    At { m: Machine, block: int, index: int },
    Done(Option<int>),
}

/// Where function `f` of the unit is after the instruction at `index` in
/// block `block` has run. Nothing where it gets stuck: where an operand has
/// no value, where control has run off the end of a block, and where it has
/// reached a block that is no part of the function.
pub open spec fn step(
    unit: UnitView,
    f: int,
    calls: Calls,
    params: Seq<int>,
    m: Machine,
    block: int,
    index: int,
) -> Option<Config> {
    if !live(unit, f, block) || !(0 <= index < unit.block(f, block).instrs.len()) {
        None
    } else {
        match unit.block(f, block).instrs[index] {
            InstrView::Alloca { .. } => Some(Config::At { m, block, index: index + 1 }),
            InstrView::Store { slot, value } => match value_in(params, value, m.results) {
                None => None,
                Some(x) => Some(
                    Config::At {
                        m: Machine { memory: m.memory.insert(slot, x), ..m },
                        block,
                        index: index + 1,
                    },
                ),
            },
            InstrView::Return { value } => match value {
                None => Some(Config::Done(None)),
                Some(v) => match value_in(params, v, m.results) {
                    None => None,
                    Some(x) => Some(Config::Done(Some(x))),
                },
            },
            InstrView::Jump { target } => Some(Config::At { m, block: target as int, index: 0 }),
            InstrView::Branch { cond, then_target, else_target } => match value_in(
                params,
                cond,
                m.results,
            ) {
                None => None,
                Some(c) => Some(
                    Config::At {
                        m,
                        block: if c != 0 {
                            then_target as int
                        } else {
                            else_target as int
                        },
                        index: 0,
                    },
                ),
            },
            instr => match instr_value(World { memory: m.memory, calls }, m.results, instr) {
                None => None,
                Some(x) => Some(
                    Config::At {
                        m: Machine { results: m.results.insert((block, index), x), ..m },
                        block,
                        index: index + 1,
                    },
                ),
            },
        }
    }
}

/// Where function `f` of the unit is after `k` steps from `c`; a function
/// that is done stays done. Nothing where it gets stuck on the way.
pub open spec fn run_for(
    unit: UnitView,
    f: int,
    calls: Calls,
    params: Seq<int>,
    c: Config,
    k: nat,
) -> Option<Config>
    decreases k,
{
    if k == 0 {
        Some(c)
    } else {
        match c {
            Config::Done(x) => Some(c),
            Config::At { m, block, index } => match step(unit, f, calls, params, m, block, index) {
                None => None,
                Some(next) => run_for(unit, f, calls, params, next, (k - 1) as nat),
            },
        }
    }
}

/// What function `f` of the unit returns on the arguments `params` within
/// `k` steps, if it does: it starts at its first block, with nothing in its
/// slots.
pub open spec fn returns_within(
    unit: UnitView,
    f: int,
    calls: Calls,
    params: Seq<int>,
    k: nat,
) -> Option<Option<int>> {
    match run_for(
        unit,
        f,
        calls,
        params,
        Config::At { m: Machine { memory: Map::empty(), results: Map::empty() }, block: 0, index: 0 },
        k,
    ) {
        Some(Config::Done(x)) => Some(x),
        _ => None,
    }
}

} // verus!
