//! What expressions and their code mean: the value of an expression of the
//! language, the effect of straight-line code of the unit, and the proof
//! that the code of an expression computes the value of the expression.
//!
//! Values are integers. What a call returns is not defined here: both
//! meanings are relative to a table that gives, for a function and its
//! arguments, what the call returns.

use crate::ast::{BinOp, ExprView, UnaryOp};
use crate::ir::{
    is_first_named, lookup_function, BinaryOp, InstrView, IrType, Operand, Predicate, Signature,
    Slot, Value,
};
use crate::lower::{binary_instr, lower_args, lower_expr, unary_instr, ExprCtx};
use crate::scope::{resolve, ScopeView};
use vstd::prelude::*;

verus! {

/// The integer of type `ty` that `n` is, reduced to the width of the type
/// in two's complement. A single bit that is set is the integer -1.
pub open spec fn wrap(ty: IrType, n: int) -> int {
    match ty {
        IrType::I1 => (n + 1) % 2 - 1,
        IrType::I32 => (n + 0x8000_0000) % 0x1_0000_0000 - 0x8000_0000,
        IrType::I64 => (n + 0x8000_0000_0000_0000) % 0x1_0000_0000_0000_0000
            - 0x8000_0000_0000_0000,
    }
}

/// The quotient of `a` by `b`, rounded towards zero.
pub open spec fn quotient(a: int, b: int) -> int
    recommends
        b != 0,
{
    if a >= 0 && b > 0 {
        a / b
    } else if a >= 0 {
        -(a / (-b))
    } else if b > 0 {
        -((-a) / b)
    } else {
        (-a) / (-b)
    }
}

/// What the operation `op` yields on two values of type `ty`; nothing for a
/// division by zero. The logical operations work bit by bit.
pub open spec fn binary_value(op: BinaryOp, ty: IrType, a: int, b: int) -> Option<int> {
    match op {
        BinaryOp::Add => Some(wrap(ty, a + b)),
        BinaryOp::Sub => Some(wrap(ty, a - b)),
        BinaryOp::Mul => Some(wrap(ty, a * b)),
        BinaryOp::SDiv => if b == 0 {
            None
        } else {
            Some(wrap(ty, quotient(a, b)))
        },
        BinaryOp::And => Some(wrap(ty, ((a as i64) & (b as i64)) as int)),
        BinaryOp::Or => Some(wrap(ty, ((a as i64) | (b as i64)) as int)),
    }
}

/// The single bit that says whether `holds` holds.
pub open spec fn truth(holds: bool) -> int {
    wrap(IrType::I1, if holds {
        1
    } else {
        0
    })
}

/// What the comparison `pred` yields on two values: a single bit.
pub open spec fn compare_value(pred: Predicate, a: int, b: int) -> int {
    truth(
        match pred {
            Predicate::Eq => a == b,
            Predicate::Ne => a != b,
            Predicate::Slt => a < b,
            Predicate::Sle => a <= b,
            Predicate::Sgt => a > b,
            Predicate::Sge => a >= b,
        },
    )
}

/// The bitwise complement of a value of type `ty`.
pub open spec fn not_value(ty: IrType, a: int) -> int {
    wrap(ty, -a - 1)
}

/// What a computation runs in: the content of the slots, and what calls
/// return.
pub struct World {
    /// The value that each slot holds
    pub memory: Map<Slot, int>,
    /// What a call of the function at an index of the unit returns on given
    /// arguments, if it returns
    pub calls: spec_fn(int, Seq<int>) -> Option<int>,
}

/// The results of the instructions that have run, each at the place of its
/// instruction: the block and the index in it.
pub type Results = Map<(int, int), int>;

/// The value of an operand, given the results so far.
pub open spec fn operand_value(v: Value, results: Results) -> Option<int> {
    match v.source {
        Operand::Const(n) => Some(wrap(v.ty, n as int)),
        Operand::Param(_) => None,
        Operand::Inst { block, index } => if results.contains_key((block as int, index as int)) {
            Some(results[(block as int, index as int)])
        } else {
            None
        },
    }
}

/// The values of the first `n` of `args`, if each has one.
pub open spec fn operand_values(args: Seq<Value>, results: Results, n: nat) -> Option<Seq<int>>
    decreases n,
{
    if n == 0 || n > args.len() {
        Some(Seq::empty())
    } else {
        match operand_values(args, results, (n - 1) as nat) {
            None => None,
            Some(values) => match operand_value(args[n - 1], results) {
                None => None,
                Some(x) => Some(values.push(x)),
            },
        }
    }
}

/// The result of an instruction that computes a value, at the place where
/// it stands; nothing where the instruction is stuck, or is not one of
/// straight-line code that only computes.
pub open spec fn instr_value(world: World, results: Results, instr: InstrView) -> Option<int> {
    match instr {
        InstrView::Load { ty, slot } => if world.memory.contains_key(slot) {
            Some(world.memory[slot])
        } else {
            None
        },
        InstrView::Binary { op, lhs, rhs } => match (
            operand_value(lhs, results),
            operand_value(rhs, results),
        ) {
            (Some(a), Some(b)) => binary_value(op, lhs.ty, a, b),
            _ => None,
        },
        InstrView::Compare { pred, lhs, rhs } => match (
            operand_value(lhs, results),
            operand_value(rhs, results),
        ) {
            (Some(a), Some(b)) => Some(compare_value(pred, a, b)),
            _ => None,
        },
        InstrView::Not { operand } => match operand_value(operand, results) {
            Some(a) => Some(not_value(operand.ty, a)),
            None => None,
        },
        InstrView::Call { callee, args } => match operand_values(args, results, args.len()) {
            Some(values) => (world.calls)(callee as int, values),
            None => None,
        },
        _ => None,
    }
}

/// The results after `code` has run, which stands at index `base` of block
/// `block`; nothing where an instruction is stuck.
pub open spec fn run(world: World, block: int, base: int, code: Seq<InstrView>, results: Results) -> Option<
    Results,
>
    decreases code.len(),
{
    if code.len() == 0 {
        Some(results)
    } else {
        match run(world, block, base, code.drop_last(), results) {
            None => None,
            Some(before) => match instr_value(world, before, code.last()) {
                None => None,
                Some(x) => Some(before.insert((block, base + code.len() - 1), x)),
            },
        }
    }
}

/// What a binary operator of the language yields on two values of type
/// `ty`, and the type of what it yields: a comparison yields a single bit,
/// every other operator a value of the type of its operands.
pub open spec fn operator_value(op: BinOp, ty: IrType, a: int, b: int) -> Option<(IrType, int)> {
    match op {
        BinOp::Add => Some((ty, wrap(ty, a + b))),
        BinOp::Sub => Some((ty, wrap(ty, a - b))),
        BinOp::Mul => Some((ty, wrap(ty, a * b))),
        BinOp::Div => if b == 0 {
            None
        } else {
            Some((ty, wrap(ty, quotient(a, b))))
        },
        BinOp::And => Some((ty, wrap(ty, ((a as i64) & (b as i64)) as int))),
        BinOp::Or => Some((ty, wrap(ty, ((a as i64) | (b as i64)) as int))),
        BinOp::Equal => Some((IrType::I1, truth(a == b))),
        BinOp::NotEqual => Some((IrType::I1, truth(a != b))),
        BinOp::LessThan => Some((IrType::I1, truth(a < b))),
        BinOp::LessThanOrEqual => Some((IrType::I1, truth(a <= b))),
        BinOp::GreaterThan => Some((IrType::I1, truth(a > b))),
        BinOp::GreaterThanOrEqual => Some((IrType::I1, truth(a >= b))),
    }
}

/// What a variable holds: a value and its type.
pub type Reader = spec_fn(Seq<char>) -> Option<(IrType, int)>;

/// The value of an expression and its type; nothing where the expression
/// has none: where a name is unbound or the types of operands disagree,
/// where a variable holds nothing, a call does not return, or a division
/// is by zero.
///
/// `read` says what each variable holds, `sigs` which functions there are,
/// and `calls` what a call returns. An integer literal is a 32-bit integer,
/// a boolean literal a single bit, which is set for `true`. Negation is
/// subtraction from zero. Both operands of a logical operator are
/// evaluated.
pub open spec fn expr_value(
    read: Reader,
    sigs: Seq<Signature>,
    calls: spec_fn(int, Seq<int>) -> Option<int>,
    e: ExprView,
) -> Option<(IrType, int)>
    decreases e, 0nat,
{
    match e {
        ExprView::IntLit(n) => Some((IrType::I32, wrap(IrType::I32, n as int))),
        ExprView::BoolLit(b) => Some((IrType::I1, truth(b))),
        ExprView::VarRef { name } => read(name),
        ExprView::UnaryOp { op, expr } => match expr_value(read, sigs, calls, *expr) {
            None => None,
            Some((ty, x)) => match op {
                UnaryOp::Neg => Some((ty, wrap(ty, wrap(ty, 0) - x))),
                UnaryOp::Not => Some((ty, wrap(ty, -x - 1))),
            },
        },
        ExprView::BinOp { lhs, op, rhs } => match (
            expr_value(read, sigs, calls, *lhs),
            expr_value(read, sigs, calls, *rhs),
        ) {
            (Some((ty1, a)), Some((ty2, b))) => if ty1 == ty2 {
                operator_value(op, ty1, a, b)
            } else {
                None
            },
            _ => None,
        },
        ExprView::FnCall { name, args } => match lookup_function(sigs, name) {
            None => None,
            Some(callee) => match (sigs[callee].ret, arg_values(read, sigs, calls, args, args.len())) {
                (Some(ty), Some(values)) => match calls(callee, values) {
                    Some(x) => Some((ty, x)),
                    None => None,
                },
                _ => None,
            },
        },
    }
}

/// The values of the first `n` of `args`, if each has one.
pub open spec fn arg_values(
    read: Reader,
    sigs: Seq<Signature>,
    calls: spec_fn(int, Seq<int>) -> Option<int>,
    args: Seq<ExprView>,
    n: nat,
) -> Option<Seq<int>>
    decreases args, n,
{
    if n == 0 || n > args.len() {
        Some(Seq::empty())
    } else {
        match (
            arg_values(read, sigs, calls, args, (n - 1) as nat),
            expr_value(read, sigs, calls, args[n - 1]),
        ) {
            (Some(values), Some((_, x))) => Some(values.push(x)),
            _ => None,
        }
    }
}

/// What the variables in sight hold, where each variable holds what its
/// slot holds.
pub open spec fn slot_reader(scopes: Seq<ScopeView>, memory: Map<Slot, int>) -> Reader {
    |name: Seq<char>|
        match resolve(scopes, name) {
            None => None,
            Some(info) => if memory.contains_key(info.slot) {
                Some((info.ty, memory[info.slot]))
            } else {
                None
            },
        }
}

/// Whether `v` is a constant, or the result of one of the `len`
/// instructions that stand from index `base` on in block `block`.
pub open spec fn comes_from(v: Value, block: int, base: int, len: int) -> bool {
    match v.source {
        Operand::Const(_) => true,
        Operand::Param(_) => false,
        Operand::Inst { block: b, index } => b == block && base <= index < base + len,
    }
}

/// Whether `after` holds what `before` holds, but for the results of the
/// `len` instructions that stand from index `base` on in block `block`.
pub open spec fn same_but(before: Results, after: Results, block: int, base: int, len: int) -> bool {
    forall|key: (int, int)|
        !(key.0 == block && base <= key.1 < base + len) ==> (before.contains_key(key)
            == #[trigger] after.contains_key(key)) && (before.contains_key(key) ==> before[key]
            == after[key])
}

/// What holds but for the results of two pieces of code that stand one
/// behind the other holds but for those of their concatenation.
proof fn lemma_same_but_both(
    a: Results,
    b: Results,
    c: Results,
    block: int,
    base: int,
    first: int,
    second: int,
)
    requires
        0 <= first,
        0 <= second,
        same_but(a, b, block, base, first),
        same_but(b, c, block, base + first, second),
    ensures
        same_but(a, c, block, base, first + second),
{
    assert forall|key: (int, int)|
        !(key.0 == block && base <= key.1 < base + first + second) implies (a.contains_key(key)
        == #[trigger] c.contains_key(key)) && (a.contains_key(key) ==> a[key] == c[key]) by {
        assert(!(key.0 == block && base <= key.1 < base + first));
        assert(!(key.0 == block && base + first <= key.1 < base + first + second));
        assert(a.contains_key(key) == b.contains_key(key));
        assert(b.contains_key(key) == c.contains_key(key));
    }
}

/// What holds but for the results of code holds, with the result of one
/// more instruction, but for those of the code and the instruction.
proof fn lemma_same_but_one_more(a: Results, b: Results, block: int, base: int, len: int, x: int)
    requires
        0 <= len,
        same_but(a, b, block, base, len),
    ensures
        same_but(a, b.insert((block, base + len), x), block, base, len + 1),
{
    let c = b.insert((block, base + len), x);
    assert forall|key: (int, int)|
        !(key.0 == block && base <= key.1 < base + len + 1) implies (a.contains_key(key)
        == #[trigger] c.contains_key(key)) && (a.contains_key(key) ==> a[key] == c[key]) by {
        assert(a.contains_key(key) == b.contains_key(key));
    }
}

/// Running two pieces of code one after the other is running their
/// concatenation.
pub proof fn lemma_run_concat(
    world: World,
    block: int,
    base: int,
    first: Seq<InstrView>,
    second: Seq<InstrView>,
    results: Results,
)
    ensures
        run(world, block, base, first + second, results) == match run(
            world,
            block,
            base,
            first,
            results,
        ) {
            None => None,
            Some(between) => run(world, block, base + first.len(), second, between),
        },
    decreases second.len(),
{
    if second.len() == 0 {
        assert(first + second =~= first);
    } else {
        lemma_run_concat(world, block, base, first, second.drop_last(), results);
        assert((first + second).drop_last() =~= first + second.drop_last());
        assert((first + second).last() == second.last());
    }
}

/// Running code and then one instruction is running the code with the
/// instruction at its end.
pub proof fn lemma_run_push(
    world: World,
    block: int,
    base: int,
    code: Seq<InstrView>,
    instr: InstrView,
    results: Results,
)
    ensures
        run(world, block, base, code.push(instr), results) == match run(
            world,
            block,
            base,
            code,
            results,
        ) {
            None => None,
            Some(before) => match instr_value(world, before, instr) {
                None => None,
                Some(x) => Some(before.insert((block, base + code.len()), x)),
            },
        },
{
    assert(code.push(instr).drop_last() =~= code);
}

/// The value of an operand that comes from earlier code is not changed by
/// later code.
proof fn lemma_operand_stays(
    v: Value,
    before: Results,
    after: Results,
    block: int,
    base: int,
    len: int,
    later: int,
    more: int,
)
    requires
        comes_from(v, block, base, len),
        base + len <= later,
        same_but(before, after, block, later, more),
    ensures
        operand_value(v, after) == operand_value(v, before),
{
    match v.source {
        Operand::Inst { block: b, index } => {
            assert(after.contains_key((b as int, index as int)) == before.contains_key(
                (b as int, index as int),
            ));
        },
        _ => {},
    }
}

proof fn lemma_operands_stay(
    args: Seq<Value>,
    n: nat,
    before: Results,
    after: Results,
    block: int,
    base: int,
    len: int,
    later: int,
    more: int,
)
    requires
        n <= args.len(),
        forall|i: int| 0 <= i < n ==> comes_from(#[trigger] args[i], block, base, len),
        base + len <= later,
        same_but(before, after, block, later, more),
    ensures
        operand_values(args, after, n) == operand_values(args, before, n),
    decreases n,
{
    if n > 0 {
        lemma_operands_stay(args, (n - 1) as nat, before, after, block, base, len, later, more);
        lemma_operand_stays(args[n - 1], before, after, block, base, len, later, more);
    }
}

/// The values of the first operands do not depend on the later ones.
proof fn lemma_operand_values_prefix(a: Seq<Value>, b: Seq<Value>, results: Results, n: nat)
    requires
        n <= a.len(),
        n <= b.len(),
        forall|i: int| 0 <= i < n ==> a[i] == b[i],
    ensures
        operand_values(a, results, n) == operand_values(b, results, n),
    decreases n,
{
    if n > 0 {
        lemma_operand_values_prefix(a, b, results, (n - 1) as nat);
    }
}

/// What the instruction for a binary operator yields on the values of its
/// operands is what the operator yields on them.
proof fn lemma_binary_instr_computes(
    world: World,
    results: Results,
    op: BinOp,
    lhs: Value,
    rhs: Value,
    a: int,
    b: int,
)
    requires
        binary_instr(op, lhs, rhs) is Ok,
        operand_value(lhs, results) == Some(a),
        operand_value(rhs, results) == Some(b),
    ensures
        lhs.ty == rhs.ty,
        operator_value(op, lhs.ty, a, b) matches Some(r) ==> instr_value(
            world,
            results,
            binary_instr(op, lhs, rhs)->Ok_0.0,
        ) == Some(r.1) && binary_instr(op, lhs, rhs)->Ok_0.1 == r.0,
{
}

/// The code of an expression computes the value of the expression.
///
/// Where the expression has a value, its code, run at the place for which
/// it was made, gets stuck nowhere; the operand that stands for the
/// expression then has that value and the type of that value; it is a
/// constant or the result of an instruction of the code; and the code
/// changes no result but those of its own instructions.
#[verifier::rlimit(30)]
pub proof fn lemma_expr_code_computes(
    ctx: ExprCtx,
    world: World,
    base: int,
    e: ExprView,
    results: Results,
)
    requires
        lower_expr(ctx, base, e) is Ok,
        expr_value(slot_reader(ctx.scopes, world.memory), ctx.sigs, world.calls, e) is Some,
        0 <= ctx.block <= usize::MAX,
        0 <= base,
        base + lower_expr(ctx, base, e)->Ok_0.0.len() <= usize::MAX,
        ctx.sigs.len() <= usize::MAX,
    ensures
        run(world, ctx.block, base, lower_expr(ctx, base, e)->Ok_0.0, results) is Some,
        lower_expr(ctx, base, e)->Ok_0.1.ty == expr_value(
            slot_reader(ctx.scopes, world.memory),
            ctx.sigs,
            world.calls,
            e,
        )->Some_0.0,
        operand_value(
            lower_expr(ctx, base, e)->Ok_0.1,
            run(world, ctx.block, base, lower_expr(ctx, base, e)->Ok_0.0, results)->Some_0,
        ) == Some(expr_value(slot_reader(ctx.scopes, world.memory), ctx.sigs, world.calls, e)->Some_0.1),
        comes_from(
            lower_expr(ctx, base, e)->Ok_0.1,
            ctx.block,
            base,
            lower_expr(ctx, base, e)->Ok_0.0.len() as int,
        ),
        same_but(
            results,
            run(world, ctx.block, base, lower_expr(ctx, base, e)->Ok_0.0, results)->Some_0,
            ctx.block,
            base,
            lower_expr(ctx, base, e)->Ok_0.0.len() as int,
        ),
    decreases e, 0nat,
{
    let read = slot_reader(ctx.scopes, world.memory);
    let block = ctx.block;
    match e {
        ExprView::IntLit(n) => {},
        ExprView::BoolLit(b) => {},
        ExprView::VarRef { name } => {
            let info = resolve(ctx.scopes, name)->Some_0;
            let load = InstrView::Load { ty: info.ty, slot: info.slot };
            lemma_run_push(world, block, base, Seq::empty(), load, results);
            assert(Seq::<InstrView>::empty().push(load) =~= seq![load]);
            lemma_same_but_one_more(results, results, block, base, 0, world.memory[info.slot]);
        },
        ExprView::UnaryOp { op, expr } => {
            lemma_expr_code_computes(ctx, world, base, *expr, results);
            let (code, v) = lower_expr(ctx, base, *expr)->Ok_0;
            lemma_run_push(world, block, base, code, unary_instr(op, v), results);
            let r1 = run(world, block, base, code, results)->Some_0;
            lemma_same_but_one_more(
                results,
                r1,
                block,
                base,
                code.len() as int,
                instr_value(world, r1, unary_instr(op, v))->Some_0,
            );
        },
        ExprView::BinOp { lhs, op, rhs } => {
            let (code1, v1) = lower_expr(ctx, base, *lhs)->Ok_0;
            let (code2, v2) = lower_expr(ctx, base + code1.len(), *rhs)->Ok_0;
            let (instr, ty) = binary_instr(op, v1, v2)->Ok_0;
            lemma_expr_code_computes(ctx, world, base, *lhs, results);
            let r1 = run(world, block, base, code1, results)->Some_0;
            lemma_expr_code_computes(ctx, world, base + code1.len(), *rhs, r1);
            let r2 = run(world, block, base + code1.len(), code2, r1)->Some_0;
            lemma_run_concat(world, block, base, code1, code2, results);
            lemma_run_push(world, block, base, code1 + code2, instr, results);
            lemma_operand_stays(
                v1,
                r1,
                r2,
                block,
                base,
                code1.len() as int,
                base + code1.len(),
                code2.len() as int,
            );
            let a = expr_value(read, ctx.sigs, world.calls, *lhs)->Some_0.1;
            let b = expr_value(read, ctx.sigs, world.calls, *rhs)->Some_0.1;
            lemma_binary_instr_computes(world, r2, op, v1, v2, a, b);
            lemma_same_but_both(
                results,
                r1,
                r2,
                block,
                base,
                code1.len() as int,
                code2.len() as int,
            );
            lemma_same_but_one_more(
                results,
                r2,
                block,
                base,
                (code1 + code2).len() as int,
                instr_value(world, r2, instr)->Some_0,
            );
        },
        ExprView::FnCall { name, args } => {
            let callee = lookup_function(ctx.sigs, name)->Some_0;
            let (code, values) = lower_args(ctx, base, args, args.len())->Ok_0;
            lemma_args_code_computes(ctx, world, base, args, args.len(), results);
            let call = InstrView::Call { callee: callee as usize, args: values };
            lemma_run_push(world, block, base, code, call, results);
            let r1 = run(world, block, base, code, results)->Some_0;
            lemma_same_but_one_more(
                results,
                r1,
                block,
                base,
                code.len() as int,
                instr_value(world, r1, call)->Some_0,
            );
            assert(0 <= callee < ctx.sigs.len()) by {
                assert(is_first_named(ctx.sigs, name, callee));
            }
        },
    }
}

/// The code of the arguments of a call computes their values, one after
/// the other.
proof fn lemma_args_code_computes(
    ctx: ExprCtx,
    world: World,
    base: int,
    args: Seq<ExprView>,
    n: nat,
    results: Results,
)
    requires
        n <= args.len(),
        lower_args(ctx, base, args, n) is Ok,
        arg_values(slot_reader(ctx.scopes, world.memory), ctx.sigs, world.calls, args, n) is Some,
        0 <= ctx.block <= usize::MAX,
        0 <= base,
        base + lower_args(ctx, base, args, n)->Ok_0.0.len() <= usize::MAX,
        ctx.sigs.len() <= usize::MAX,
    ensures
        run(world, ctx.block, base, lower_args(ctx, base, args, n)->Ok_0.0, results) is Some,
        lower_args(ctx, base, args, n)->Ok_0.1.len() == n,
        operand_values(
            lower_args(ctx, base, args, n)->Ok_0.1,
            run(world, ctx.block, base, lower_args(ctx, base, args, n)->Ok_0.0, results)->Some_0,
            n,
        ) == arg_values(slot_reader(ctx.scopes, world.memory), ctx.sigs, world.calls, args, n),
        forall|i: int|
            0 <= i < n ==> comes_from(
                #[trigger] lower_args(ctx, base, args, n)->Ok_0.1[i],
                ctx.block,
                base,
                lower_args(ctx, base, args, n)->Ok_0.0.len() as int,
            ),
        same_but(
            results,
            run(world, ctx.block, base, lower_args(ctx, base, args, n)->Ok_0.0, results)->Some_0,
            ctx.block,
            base,
            lower_args(ctx, base, args, n)->Ok_0.0.len() as int,
        ),
    decreases args, n,
{
    let read = slot_reader(ctx.scopes, world.memory);
    let block = ctx.block;
    if n == 0 {
    } else {
        let (code, values) = lower_args(ctx, base, args, (n - 1) as nat)->Ok_0;
        let (code1, v) = lower_expr(ctx, base + code.len(), args[n - 1])->Ok_0;
        lemma_args_code_computes(ctx, world, base, args, (n - 1) as nat, results);
        let r1 = run(world, block, base, code, results)->Some_0;
        lemma_expr_code_computes(ctx, world, base + code.len(), args[n - 1], r1);
        let r2 = run(world, block, base + code.len(), code1, r1)->Some_0;
        lemma_run_concat(world, block, base, code, code1, results);
        lemma_operands_stay(
            values,
            (n - 1) as nat,
            r1,
            r2,
            block,
            base,
            code.len() as int,
            base + code.len(),
            code1.len() as int,
        );
        lemma_operand_values_prefix(values.push(v), values, r2, (n - 1) as nat);
        lemma_same_but_both(results, r1, r2, block, base, code.len() as int, code1.len() as int);
    }
}

} // verus!
