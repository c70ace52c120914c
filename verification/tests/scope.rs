use aic::error::CodegenError;
use aic::ir::{IrType, Slot};
use aic::scope::{Env, VariableInfo};

fn slot(index: usize) -> Slot {
    Slot { block: 0, index }
}

#[test]
fn a_new_environment_binds_nothing() {
    let env = Env::new();
    assert_eq!(env.resolve_var("x"), Err(CodegenError::UnboundName));
}

#[test]
fn a_declared_name_resolves_to_its_binding() {
    let mut env = Env::new();
    assert_eq!(env.declare_var("x", slot(3), IrType::I32, true), Ok(()));
    assert_eq!(env.declare_var("y", slot(5), IrType::I64, false), Ok(()));
    assert_eq!(
        env.resolve_var("x"),
        Ok(VariableInfo { slot: slot(3), ty: IrType::I32, is_mutable: true })
    );
    assert_eq!(
        env.resolve_var("y"),
        Ok(VariableInfo { slot: slot(5), ty: IrType::I64, is_mutable: false })
    );
    assert_eq!(env.resolve_var("z"), Err(CodegenError::UnboundName));
}

#[test]
fn a_name_cannot_be_declared_twice_in_one_scope() {
    let mut env = Env::new();
    assert_eq!(env.declare_var("x", slot(0), IrType::I32, false), Ok(()));
    assert_eq!(
        env.declare_var("x", slot(1), IrType::I64, true),
        Err(CodegenError::DuplicateBinding)
    );
    assert_eq!(
        env.resolve_var("x"),
        Ok(VariableInfo { slot: slot(0), ty: IrType::I32, is_mutable: false })
    );
}

#[test]
fn an_inner_binding_shadows_an_outer_one() {
    let mut env = Env::new();
    assert_eq!(env.declare_var("x", slot(0), IrType::I32, false), Ok(()));
    env.push_scope();
    assert_eq!(
        env.resolve_var("x"),
        Ok(VariableInfo { slot: slot(0), ty: IrType::I32, is_mutable: false })
    );
    assert_eq!(env.declare_var("x", slot(1), IrType::I1, true), Ok(()));
    assert_eq!(
        env.resolve_var("x"),
        Ok(VariableInfo { slot: slot(1), ty: IrType::I1, is_mutable: true })
    );
    env.pop_scope();
    assert_eq!(
        env.resolve_var("x"),
        Ok(VariableInfo { slot: slot(0), ty: IrType::I32, is_mutable: false })
    );
}

#[test]
fn a_binding_ends_with_its_scope() {
    let mut env = Env::new();
    env.push_scope();
    assert_eq!(env.declare_var("x", slot(0), IrType::I32, true), Ok(()));
    assert!(env.resolve_var("x").is_ok());
    env.pop_scope();
    assert_eq!(env.resolve_var("x"), Err(CodegenError::UnboundName));
    assert_eq!(env.declare_var("x", slot(1), IrType::I32, true), Ok(()));
}

#[test]
fn leaving_the_last_scope_leaves_nothing_to_resolve() {
    let mut env = Env::new();
    assert_eq!(env.declare_var("x", slot(0), IrType::I32, true), Ok(()));
    env.pop_scope();
    assert_eq!(env.resolve_var("x"), Err(CodegenError::UnboundName));
    env.pop_scope();
    assert_eq!(env.resolve_var("x"), Err(CodegenError::UnboundName));
}

#[test]
fn the_message_of_each_error() {
    assert_eq!(CodegenError::DuplicateBinding.message(), "variable already declared in this scope");
    assert_eq!(CodegenError::UnboundName.message(), "name not found");
    assert_eq!(CodegenError::TypeMismatch.message(), "type mismatch");
    assert_eq!(CodegenError::UnsupportedType.message(), "type cannot be used for a value");
    assert_eq!(CodegenError::ImmutableAssignment.message(), "cannot assign to immutable variable");
    assert_eq!(
        CodegenError::MissingInitializer.message(),
        "initial value required for let declaration"
    );
    assert_eq!(
        CodegenError::MissingTypeAnnotation.message(),
        "type annotation required for var declaration without initializer"
    );
}
