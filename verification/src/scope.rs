//! The environment of lowering: a stack of lexical scopes, each a map from a
//! name to the slot that holds the variable, the type stored there, and
//! whether the variable may be assigned to.

use crate::error::CodegenError;
use crate::ir::{str_eq, IrType, Slot};
use vstd::prelude::*;

verus! {

/// What the environment knows of a variable.
#[derive(Debug, Clone, Copy, PartialEq, Eq, Structural)]
pub struct VariableInfo {
    /// The slot that holds the variable
    pub slot: Slot,
    /// The type of the value stored in the slot
    pub ty: IrType,
    /// Whether the variable may be assigned to
    pub is_mutable: bool,
}

/// One scope: the bindings made in one block.
pub type ScopeView = Map<Seq<char>, VariableInfo>;

/// The binding of `name` that is in sight: the one in the innermost scope
/// that binds the name.
pub open spec fn resolve(scopes: Seq<ScopeView>, name: Seq<char>) -> Option<VariableInfo>
    decreases scopes.len(),
{
    if scopes.len() == 0 {
        None
    } else if scopes.last().contains_key(name) {
        Some(scopes.last()[name])
    } else {
        resolve(scopes.drop_last(), name)
    }
}

/// `scopes` with `name` bound to `info` in the innermost scope, or
/// `DuplicateBinding` if that scope binds the name already.
pub open spec fn declare(scopes: Seq<ScopeView>, name: Seq<char>, info: VariableInfo) -> Result<
    Seq<ScopeView>,
    CodegenError,
>
    recommends
        scopes.len() > 0,
{
    if scopes.last().contains_key(name) {
        Err(CodegenError::DuplicateBinding)
    } else {
        Ok(scopes.update(scopes.len() - 1, scopes.last().insert(name, info)))
    }
}

struct Entry<'a> {
    name: &'a str,
    info: VariableInfo,
}

spec fn scope_view(entries: Seq<Entry>) -> ScopeView
    decreases entries.len(),
{
    if entries.len() == 0 {
        Map::empty()
    } else {
        scope_view(entries.drop_last()).insert(entries.last().name@, entries.last().info)
    }
}

/// A stack of lexical scopes.
pub struct Env<'a> {
    scopes: Vec<Vec<Entry<'a>>>,
}

impl<'a> View for Env<'a> {
    type V = Seq<ScopeView>;

    closed spec fn view(&self) -> Seq<ScopeView> {
        Seq::new(self.scopes@.len(), |i: int| scope_view(self.scopes@[i]@))
    }
}

fn find_in_scope(entries: &Vec<Entry>, name: &str) -> (found: Option<VariableInfo>)
    ensures
        match found {
            Some(info) => scope_view(entries@).contains_key(name@) && scope_view(entries@)[name@]
                == info,
            None => !scope_view(entries@).contains_key(name@),
        },
{
    let mut found: Option<VariableInfo> = None;
    let mut i: usize = 0;
    while i < entries.len()
        invariant
            0 <= i <= entries.len(),
            match found {
                Some(info) => scope_view(entries@.take(i as int)).contains_key(name@) && scope_view(
                    entries@.take(i as int),
                )[name@] == info,
                None => !scope_view(entries@.take(i as int)).contains_key(name@),
            },
        decreases entries.len() - i,
    {
        assert(entries@.take(i + 1).drop_last() =~= entries@.take(i as int));
        if str_eq(entries[i].name, name) {
            found = Some(entries[i].info);
        }
        i += 1;
    }
    assert(entries@.take(i as int) =~= entries@);
    found
}

impl<'a> Env<'a> {
    /// An environment of one empty scope.
    pub fn new() -> (env: Self)
        ensures
            env@ == seq![Map::<Seq<char>, VariableInfo>::empty()],
    {
        let mut scopes: Vec<Vec<Entry<'a>>> = Vec::new();
        scopes.push(Vec::new());
        let env = Env { scopes };
        assert(env@ =~= seq![Map::<Seq<char>, VariableInfo>::empty()]);
        env
    }

    /// Enters a block: a new, empty scope becomes the innermost one.
    pub fn push_scope(&mut self)
        ensures
            final(self)@ == old(self)@.push(Map::empty()),
    {
        self.scopes.push(Vec::new());
        assert(self@ =~= old(self)@.push(Map::empty()));
    }

    /// Leaves a block: the innermost scope and its bindings are dropped.
    pub fn pop_scope(&mut self)
        ensures
            old(self)@.len() > 0 ==> final(self)@ == old(self)@.drop_last(),
            old(self)@.len() == 0 ==> final(self)@ == old(self)@,
    {
        self.scopes.pop();
        assert(old(self)@.len() > 0 ==> self@ =~= old(self)@.drop_last());
        assert(old(self)@.len() == 0 ==> self@ =~= old(self)@);
    }

    /// Binds `name` in the innermost scope. Fails, and leaves the
    /// environment as it is, if that scope binds the name already.
    pub fn declare_var(&mut self, name: &'a str, slot: Slot, ty: IrType, is_mutable: bool) -> (r:
        Result<(), CodegenError>)
        requires
            old(self)@.len() > 0,
        ensures
            match r {
                Ok(()) => declare(old(self)@, name@, VariableInfo { slot, ty, is_mutable }) == Ok::<
                    Seq<ScopeView>,
                    CodegenError,
                >(final(self)@),
                Err(e) => declare(old(self)@, name@, VariableInfo { slot, ty, is_mutable }) == Err::<
                    Seq<ScopeView>,
                    CodegenError,
                >(e) && final(self)@ == old(self)@,
            },
    {
        let top = self.scopes.len() - 1;
        if find_in_scope(&self.scopes[top], name).is_some() {
            return Err(CodegenError::DuplicateBinding);
        }
        let info = VariableInfo { slot, ty, is_mutable };
        let entry = Entry { name, info };
        self.scopes[top].push(entry);
        proof {
            let before = old(self).scopes@[top as int]@;
            assert(self.scopes@[top as int]@.drop_last() =~= before);
            assert(self@ =~= old(self)@.update(top as int, old(self)@.last().insert(name@, info)));
        }
        Ok(())
    }

    /// The binding of `name` that is in sight, or `UnboundName`.
    pub fn resolve_var(&self, name: &str) -> (r: Result<VariableInfo, CodegenError>)
        ensures
            match r {
                Ok(info) => resolve(self@, name@) == Some(info),
                Err(e) => resolve(self@, name@) is None && e == CodegenError::UnboundName,
            },
    {
        let mut i: usize = self.scopes.len();
        assert(self@.take(i as int) =~= self@);
        while i > 0
            invariant
                0 <= i <= self.scopes.len(),
                resolve(self@, name@) == resolve(self@.take(i as int), name@),
            decreases i,
        {
            assert(self@.take(i as int).drop_last() =~= self@.take(i - 1));
            match find_in_scope(&self.scopes[i - 1], name) {
                Some(info) => {
                    return Ok(info);
                },
                None => {},
            }
            i -= 1;
        }
        Err(CodegenError::UnboundName)
    }
}

/// A variable declared in a block is in sight until the block ends, and not
/// after it: if no scope binds `name`, then binding it in a scope newly
/// entered makes it resolve to that binding, and leaving the scope makes it
/// unresolvable again.
pub proof fn lemma_binding_ends_with_its_block(
    scopes: Seq<ScopeView>,
    name: Seq<char>,
    info: VariableInfo,
)
    requires
        resolve(scopes, name) is None,
    ensures
        declare(scopes.push(Map::empty()), name, info) is Ok,
        resolve(declare(scopes.push(Map::empty()), name, info)->Ok_0, name) == Some(info),
        declare(scopes.push(Map::empty()), name, info)->Ok_0.drop_last() == scopes,
        resolve(declare(scopes.push(Map::empty()), name, info)->Ok_0.drop_last(), name) is None,
{
    let entered = scopes.push(Map::empty());
    let inner = declare(entered, name, info)->Ok_0;
    assert(inner.drop_last() =~= scopes);
}

/// A binding in an inner scope hides one of the same name further out, and
/// the outer one is in sight again when the inner scope is left.
pub proof fn lemma_inner_binding_shadows(
    scopes: Seq<ScopeView>,
    name: Seq<char>,
    info: VariableInfo,
)
    ensures
        resolve(declare(scopes.push(Map::empty()), name, info)->Ok_0, name) == Some(info),
        resolve(declare(scopes.push(Map::empty()), name, info)->Ok_0.drop_last(), name) == resolve(
            scopes,
            name,
        ),
{
    let entered = scopes.push(Map::empty());
    let inner = declare(entered, name, info)->Ok_0;
    assert(inner.drop_last() =~= scopes);
}

/// A name cannot be bound twice in one scope.
pub proof fn lemma_redeclaration_fails(
    scopes: Seq<ScopeView>,
    name: Seq<char>,
    first: VariableInfo,
    second: VariableInfo,
)
    requires
        scopes.len() > 0,
        declare(scopes, name, first) is Ok,
    ensures
        declare(declare(scopes, name, first)->Ok_0, name, second) == Err::<
            Seq<ScopeView>,
            CodegenError,
        >(CodegenError::DuplicateBinding),
{
}

} // verus!
