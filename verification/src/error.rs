//! The errors of lowering.

use vstd::prelude::*;

verus! {

/// Why a program could not be lowered. The first error found ends the
/// compilation.
#[derive(Debug, Clone, Copy, PartialEq, Eq, Structural)]
pub enum CodegenError {
    /// A name is declared twice in one scope
    DuplicateBinding,
    /// A variable or a function is used that no declaration in sight binds
    UnboundName,
    /// Two operands, or a value and the type declared for it, disagree
    TypeMismatch,
    /// A type is used for a value that has no representation as one
    UnsupportedType,
    /// A binding made with `let` is assigned to
    ImmutableAssignment,
    /// A `let` declaration has no initializer
    MissingInitializer,
    /// A `var` declaration has neither an initializer nor a type
    MissingTypeAnnotation,
}

impl CodegenError {
    /// The text of the error's message.
    pub open spec fn text(self) -> Seq<char> {
        match self {
            CodegenError::DuplicateBinding => "variable already declared in this scope"@,
            CodegenError::UnboundName => "name not found"@,
            CodegenError::TypeMismatch => "type mismatch"@,
            CodegenError::UnsupportedType => "type cannot be used for a value"@,
            CodegenError::ImmutableAssignment => "cannot assign to immutable variable"@,
            CodegenError::MissingInitializer => "initial value required for let declaration"@,
            CodegenError::MissingTypeAnnotation =>
                "type annotation required for var declaration without initializer"@,
        }
    }

    /// The error's message.
    pub fn message(&self) -> (r: &'static str)
        ensures
            r@ == self.text(),
    {
        match self {
            CodegenError::DuplicateBinding => "variable already declared in this scope",
            CodegenError::UnboundName => "name not found",
            CodegenError::TypeMismatch => "type mismatch",
            CodegenError::UnsupportedType => "type cannot be used for a value",
            CodegenError::ImmutableAssignment => "cannot assign to immutable variable",
            CodegenError::MissingInitializer => "initial value required for let declaration",
            CodegenError::MissingTypeAnnotation =>
                "type annotation required for var declaration without initializer",
        }
    }
}

} // verus!
