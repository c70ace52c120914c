//! The intermediate representation: a unit of functions, each a list of
//! basic blocks of typed instructions, and the operations that build one.
//!
//! A value is named by the place of the instruction that defines it, a stack
//! slot by the place of the instruction that allocates it, and a block by its
//! index in its function. A block that is pruned keeps its index, so that the
//! places of all other blocks stay as they are; it is no longer part of the
//! function.

use vstd::prelude::*;
use vstd::string::StringSliceAdditionalSpecFns;

verus! {

/// The type of a value.
#[derive(Debug, Clone, Copy, PartialEq, Eq, Structural)]
pub enum IrType {
    /// A single-bit integer, the representation of a truth value
    I1,
    /// A 32-bit integer
    I32,
    /// A 64-bit integer
    I64,
}

/// Where a value comes from.
#[derive(Debug, Clone, Copy, PartialEq, Eq, Structural)]
pub enum Operand {
    /// A constant
    Const(i64),
    /// The incoming parameter of the enclosing function at this position
    Param(usize),
    /// The result of the instruction at `index` in block `block` of the
    /// enclosing function
    Inst { block: usize, index: usize },
}

/// A typed value.
#[derive(Debug, Clone, Copy, PartialEq, Eq, Structural)]
pub struct Value {
    pub ty: IrType,
    pub source: Operand,
}

/// A stack slot, named by the place of the instruction that allocates it.
#[derive(Debug, Clone, Copy, PartialEq, Eq, Structural)]
pub struct Slot {
    pub block: usize,
    pub index: usize,
}

/// The operation of a two-operand instruction.
#[derive(Debug, Clone, Copy, PartialEq, Eq, Structural)]
pub enum BinaryOp {
    Add,
    Sub,
    Mul,
    /// Signed division
    SDiv,
    /// Bitwise and
    And,
    /// Bitwise or
    Or,
}

/// The predicate of a comparison; the orderings are signed.
#[derive(Debug, Clone, Copy, PartialEq, Eq, Structural)]
pub enum Predicate {
    Eq,
    Ne,
    Slt,
    Sle,
    Sgt,
    Sge,
}

/// An instruction.
#[allow(inconsistent_fields)]
#[derive(Debug, Clone, PartialEq, Eq)]
pub enum Instr {
    /// Allocates a stack slot for a value of type `ty`
    Alloca { ty: IrType },
    /// Stores `value` into `slot`
    Store { slot: Slot, value: Value },
    /// Loads a value of type `ty` from `slot`
    Load { ty: IrType, slot: Slot },
    /// Applies `op` to two operands of one type
    Binary { op: BinaryOp, lhs: Value, rhs: Value },
    /// Compares two operands of one type; the result is a single bit
    Compare { pred: Predicate, lhs: Value, rhs: Value },
    /// The bitwise complement of `operand`
    Not { operand: Value },
    /// Calls the function at index `callee` of the unit
    Call { callee: usize, args: Vec<Value> },
    /// Returns from the function
    Return { value: Option<Value> },
    /// Continues at block `target`
    Jump { target: usize },
    /// Continues at `then_target` if `cond` is set, else at `else_target`
    Branch { cond: Value, then_target: usize, else_target: usize },
}

/// The mathematical value of an [`Instr`].
#[allow(inconsistent_fields)]
pub enum InstrView {
    Alloca { ty: IrType },
    Store { slot: Slot, value: Value },
    Load { ty: IrType, slot: Slot },
    Binary { op: BinaryOp, lhs: Value, rhs: Value },
    Compare { pred: Predicate, lhs: Value, rhs: Value },
    Not { operand: Value },
    Call { callee: usize, args: Seq<Value> },
    Return { value: Option<Value> },
    Jump { target: usize },
    Branch { cond: Value, then_target: usize, else_target: usize },
}

impl InstrView {
    /// Whether the instruction ends a block.
    pub open spec fn is_terminator(self) -> bool {
        self is Return || self is Jump || self is Branch
    }
}

impl View for Instr {
    type V = InstrView;

    open spec fn view(&self) -> InstrView {
        match *self {
            Instr::Alloca { ty } => InstrView::Alloca { ty },
            Instr::Store { slot, value } => InstrView::Store { slot, value },
            Instr::Load { ty, slot } => InstrView::Load { ty, slot },
            Instr::Binary { op, lhs, rhs } => InstrView::Binary { op, lhs, rhs },
            Instr::Compare { pred, lhs, rhs } => InstrView::Compare { pred, lhs, rhs },
            Instr::Not { operand } => InstrView::Not { operand },
            Instr::Call { callee, args } => InstrView::Call { callee, args: args@ },
            Instr::Return { value } => InstrView::Return { value },
            Instr::Jump { target } => InstrView::Jump { target },
            Instr::Branch { cond, then_target, else_target } => InstrView::Branch {
                cond,
                then_target,
                else_target,
            },
        }
    }
}

impl Instr {
    /// Whether the instruction ends a block.
    pub fn is_terminator(&self) -> (r: bool)
        ensures
            r == self@.is_terminator(),
    {
        match self {
            Instr::Return { .. } => true,
            Instr::Jump { .. } => true,
            Instr::Branch { .. } => true,
            _ => false,
        }
    }
}

/// What a block is for.
#[derive(Debug, Clone, Copy, PartialEq, Eq, Structural)]
pub enum BlockLabel {
    /// The first block of a function
    Entry,
    /// The branch of a conditional that is taken when the condition holds
    Then,
    /// The branch of a conditional that is taken when it does not
    Else,
    /// Where control continues after a conditional
    IfCont,
}

/// A basic block.
#[derive(Debug, Clone, PartialEq, Eq)]
pub struct Block {
    pub label: BlockLabel,
    pub instrs: Vec<Instr>,
    /// Whether the block has been removed from its function
    pub pruned: bool,
}

/// The mathematical value of a [`Block`].
pub struct BlockView {
    pub label: BlockLabel,
    pub instrs: Seq<InstrView>,
    pub pruned: bool,
}

impl BlockView {
    /// Whether control cannot run off the end of the block: it ends in a
    /// terminator, or it has been pruned and control never reaches it.
    pub open spec fn terminated(self) -> bool {
        self.pruned || (self.instrs.len() > 0 && self.instrs.last().is_terminator())
    }
}

impl View for Block {
    type V = BlockView;

    open spec fn view(&self) -> BlockView {
        BlockView {
            label: self.label,
            instrs: self.instrs@.map_values(|i: Instr| i@),
            pruned: self.pruned,
        }
    }
}

/// A function of the unit.
#[derive(Debug, Clone, PartialEq, Eq)]
pub struct Function<'a> {
    pub name: &'a str,
    pub params: Vec<IrType>,
    /// The type of the result; `None` for a function that returns nothing
    pub ret: Option<IrType>,
    pub blocks: Vec<Block>,
}

/// The mathematical value of a [`Function`].
pub struct FunctionView {
    pub name: Seq<char>,
    pub params: Seq<IrType>,
    pub ret: Option<IrType>,
    pub blocks: Seq<BlockView>,
}

impl<'a> View for Function<'a> {
    type V = FunctionView;

    open spec fn view(&self) -> FunctionView {
        FunctionView {
            name: self.name@,
            params: self.params@,
            ret: self.ret,
            blocks: self.blocks@.map_values(|b: Block| b@),
        }
    }
}

/// What a caller needs to know of a function.
pub struct Signature {
    pub name: Seq<char>,
    pub ret: Option<IrType>,
}

/// Whether `i` is the first position of `sigs` that bears `name`.
pub open spec fn is_first_named(sigs: Seq<Signature>, name: Seq<char>, i: int) -> bool {
    &&& 0 <= i < sigs.len()
    &&& sigs[i].name == name
    &&& forall|j: int| 0 <= j < i ==> sigs[j].name != name
}

/// The first position of `sigs` that bears `name`, if there is one.
pub open spec fn lookup_function(sigs: Seq<Signature>, name: Seq<char>) -> Option<int> {
    if exists|i: int| is_first_named(sigs, name, i) {
        Some(choose|i: int| is_first_named(sigs, name, i))
    } else {
        None
    }
}

/// A unit: the functions of one compilation.
#[derive(Debug, Clone, PartialEq, Eq)]
pub struct Unit<'a> {
    pub name: &'a str,
    pub functions: Vec<Function<'a>>,
}

/// The mathematical value of a [`Unit`].
pub struct UnitView {
    pub name: Seq<char>,
    pub functions: Seq<FunctionView>,
}

impl UnitView {
    /// Whether `f` and `b` name a block of the unit.
    pub open spec fn has_block(self, f: int, b: int) -> bool {
        0 <= f < self.functions.len() && 0 <= b < self.functions[f].blocks.len()
    }

    /// The block at index `b` of function `f`.
    pub open spec fn block(self, f: int, b: int) -> BlockView
        recommends
            self.has_block(f, b),
    {
        self.functions[f].blocks[b]
    }

    /// The names and result types of the functions, in order.
    pub open spec fn signatures(self) -> Seq<Signature> {
        self.functions.map_values(|f: FunctionView| Signature { name: f.name, ret: f.ret })
    }

    /// The unit with one more function, which has no block yet.
    pub open spec fn add_function(
        self,
        name: Seq<char>,
        params: Seq<IrType>,
        ret: Option<IrType>,
    ) -> UnitView {
        UnitView {
            functions: self.functions.push(
                FunctionView { name, params, ret, blocks: Seq::empty() },
            ),
            ..self
        }
    }

    /// The unit with one more, empty, block at the end of function `f`.
    pub open spec fn append_block(self, f: int, label: BlockLabel) -> UnitView
        recommends
            0 <= f < self.functions.len(),
    {
        let old_fn = self.functions[f];
        let block = BlockView { label, instrs: Seq::empty(), pruned: false };
        UnitView {
            functions: self.functions.update(
                f,
                FunctionView { blocks: old_fn.blocks.push(block), ..old_fn },
            ),
            ..self
        }
    }

    /// The unit with block `b` of function `f` replaced by `block`.
    pub open spec fn with_block(self, f: int, b: int, block: BlockView) -> UnitView
        recommends
            self.has_block(f, b),
    {
        let old_fn = self.functions[f];
        UnitView {
            functions: self.functions.update(
                f,
                FunctionView { blocks: old_fn.blocks.update(b, block), ..old_fn },
            ),
            ..self
        }
    }

    /// The unit with `code` at the end of block `b` of function `f`.
    pub open spec fn emit_all(self, f: int, b: int, code: Seq<InstrView>) -> UnitView
        recommends
            self.has_block(f, b),
    {
        let old_block = self.block(f, b);
        self.with_block(f, b, BlockView { instrs: old_block.instrs + code, ..old_block })
    }

    /// The unit with `instr` at the end of block `b` of function `f`.
    pub open spec fn emit(self, f: int, b: int, instr: InstrView) -> UnitView
        recommends
            self.has_block(f, b),
    {
        self.emit_all(f, b, seq![instr])
    }

    /// The unit with block `b` of function `f` pruned.
    pub open spec fn prune(self, f: int, b: int) -> UnitView
        recommends
            self.has_block(f, b),
    {
        let old_block = self.block(f, b);
        self.with_block(f, b, BlockView { pruned: true, ..old_block })
    }
}

impl<'a> View for Unit<'a> {
    type V = UnitView;

    open spec fn view(&self) -> UnitView {
        UnitView { name: self.name@, functions: self.functions@.map_values(|f: Function| f@) }
    }
}

/// Whether two strings hold the same characters.
pub fn str_eq(a: &str, b: &str) -> (r: bool)
    ensures
        r == (a@ == b@),
{
    let x = a.as_bytes();
    let y = b.as_bytes();
    proof {
        vstd::utf8::encode_utf8_decode_utf8(a@);
        vstd::utf8::encode_utf8_decode_utf8(b@);
    }
    if x.len() != y.len() {
        return false;
    }
    let mut i: usize = 0;
    while i < x.len()
        invariant
            x@ == a.spec_bytes(),
            y@ == b.spec_bytes(),
            x.len() == y.len(),
            0 <= i <= x.len(),
            forall|j: int| 0 <= j < i ==> x@[j] == y@[j],
        decreases x.len() - i,
    {
        if x[i] != y[i] {
            assert(a.spec_bytes()[i as int] != b.spec_bytes()[i as int]);
            return false;
        }
        i += 1;
    }
    assert(x@ =~= y@);
    true
}

impl<'a> Unit<'a> {
    /// An empty unit.
    pub fn new(name: &'a str) -> (unit: Self)
        ensures
            unit@ == (UnitView { name: name@, functions: Seq::empty() }),
    {
        let unit = Unit { name, functions: Vec::new() };
        assert(unit@.functions =~= Seq::empty());
        unit
    }

    /// Adds a function without blocks and returns its index.
    pub fn add_function(&mut self, name: &'a str, params: Vec<IrType>, ret: Option<IrType>) -> (index:
        usize)
        ensures
            index == old(self)@.functions.len(),
            final(self)@ == old(self)@.add_function(name@, params@, ret),
    {
        let index = self.functions.len();
        let function = Function { name, params, ret, blocks: Vec::new() };
        assert(function@.blocks =~= Seq::empty());
        self.functions.push(function);
        assert(self@.functions =~= old(self)@.functions.push(function@));
        index
    }

    /// Appends an empty block to function `f` and returns its index.
    pub fn append_block(&mut self, f: usize, label: BlockLabel) -> (index: usize)
        requires
            f < old(self)@.functions.len(),
        ensures
            index == old(self)@.functions[f as int].blocks.len(),
            final(self)@ == old(self)@.append_block(f as int, label),
    {
        let index = self.functions[f].blocks.len();
        let block = Block { label, instrs: Vec::new(), pruned: false };
        assert(block@.instrs =~= Seq::empty());
        self.functions[f].blocks.push(block);
        assert(self.functions[f as int]@.blocks =~= old(self).functions[f as int]@.blocks.push(
            block@,
        ));
        assert(self@.functions =~= old(self)@.append_block(f as int, label).functions);
        index
    }

    /// Appends `instr` to block `b` of function `f` and returns its index in
    /// the block.
    pub fn emit(&mut self, f: usize, b: usize, instr: Instr) -> (index: usize)
        requires
            old(self)@.has_block(f as int, b as int),
        ensures
            index == old(self)@.block(f as int, b as int).instrs.len(),
            final(self)@ == old(self)@.emit(f as int, b as int, instr@),
    {
        let index = self.functions[f].blocks[b].instrs.len();
        let ghost iv = instr@;
        self.functions[f].blocks[b].instrs.push(instr);
        proof {
            let ob = old(self).functions[f as int].blocks[b as int];
            let nb = self.functions[f as int].blocks[b as int];
            assert(nb@.instrs =~= ob@.instrs + seq![iv]);
            assert(self.functions[f as int]@.blocks =~= old(self).functions[f as int]@.blocks.update(
                b as int,
                nb@,
            ));
            assert(self@.functions =~= old(self)@.emit(f as int, b as int, iv).functions);
        }
        index
    }

    /// Whether control cannot run off the end of block `b` of function `f`.
    pub fn is_terminated(&self, f: usize, b: usize) -> (r: bool)
        requires
            self@.has_block(f as int, b as int),
        ensures
            r == self@.block(f as int, b as int).terminated(),
    {
        let block = &self.functions[f].blocks[b];
        if block.pruned {
            return true;
        }
        let n = block.instrs.len();
        if n == 0 {
            return false;
        }
        block.instrs[n - 1].is_terminator()
    }

    /// Removes block `b` from function `f`. The block keeps its index.
    pub fn prune_block(&mut self, f: usize, b: usize)
        requires
            old(self)@.has_block(f as int, b as int),
        ensures
            final(self)@ == old(self)@.prune(f as int, b as int),
    {
        self.functions[f].blocks[b].pruned = true;
        proof {
            let nb = self.functions[f as int].blocks[b as int];
            assert(nb@.instrs =~= old(self).functions[f as int].blocks[b as int]@.instrs);
            assert(self.functions[f as int]@.blocks =~= old(self).functions[f as int]@.blocks.update(
                b as int,
                nb@,
            ));
            assert(self@.functions =~= old(self)@.prune(f as int, b as int).functions);
        }
    }

    /// The index of the first function called `name`, if there is one.
    pub fn find_function(&self, name: &str) -> (found: Option<usize>)
        ensures
            match found {
                Some(i) => lookup_function(self@.signatures(), name@) == Some(i as int),
                None => lookup_function(self@.signatures(), name@) is None,
            },
    {
        let ghost sigs = self@.signatures();
        let mut i: usize = 0;
        while i < self.functions.len()
            invariant
                0 <= i <= self.functions.len(),
                sigs == self@.signatures(),
                forall|j: int| 0 <= j < i ==> sigs[j].name != name@,
            decreases self.functions.len() - i,
        {
            if str_eq(self.functions[i].name, name) {
                assert(is_first_named(sigs, name@, i as int));
                return Some(i);
            }
            i += 1;
        }
        None
    }

    /// The result type of function `f`.
    pub fn return_type(&self, f: usize) -> (ret: Option<IrType>)
        requires
            f < self@.functions.len(),
        ensures
            ret == self@.signatures()[f as int].ret,
    {
        self.functions[f].ret
    }
}

} // verus!
