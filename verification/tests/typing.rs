use remap_engine::{Block, CompileError, Expr, ExternalEnv, LocalEnv, TypeDef, Value};

fn lit_int(i: i64) -> Expr {
    Expr::Literal(Value::Integer(i))
}

fn set_var(id: u32, e: Expr) -> Expr {
    Expr::Assignment(id, Box::new(e))
}

fn fail_if(cond: Expr, code: i64) -> Expr {
    Expr::FailIf { condition: Box::new(cond), code }
}

fn external() -> ExternalEnv {
    ExternalEnv::new(TypeDef::null())
}

/// A block of infallible children is infallible and not abortable, and its
/// type is the last child's.
#[test]
fn all_infallible_children_make_an_infallible_block() {
    let block = Block::new(
        vec![lit_int(1), Expr::Literal(Value::Boolean(true))],
        LocalEnv::new(),
    );
    let td = block.compile(&external()).unwrap();
    assert!(!td.is_fallible());
    assert!(!td.is_abortable());
    assert!(!td.is_nullable());
    assert!(td.contains(&Value::Boolean(false)));
    assert!(!td.contains(&Value::Integer(1)));
}

/// One fallible child makes the whole block fallible; one abortable child
/// makes it abortable.
#[test]
fn flags_aggregate_across_children() {
    let block = Block::new(
        vec![fail_if(Expr::Literal(Value::Boolean(false)), 1), lit_int(2)],
        LocalEnv::new(),
    );
    let td = block.compile(&external()).unwrap();
    assert!(td.is_fallible());
    assert!(!td.is_abortable());

    let block = Block::new(
        vec![lit_int(1), Expr::Abort(2)],
        LocalEnv::new(),
    );
    let td = block.compile(&external()).unwrap();
    assert!(td.is_abortable());
    assert!(td.is_never());
}

/// An empty block is a compile-time error, not a run-time case.
#[test]
fn empty_block_is_rejected() {
    let block = Block::new(vec![], LocalEnv::new());
    assert_eq!(block.compile(&external()), Err(CompileError::EmptyBlock));
}

/// Nothing may be sequenced after a "never"-typed expression.
#[test]
fn expression_after_abort_is_rejected() {
    let block = Block::new(vec![Expr::Abort(1), lit_int(5)], LocalEnv::new());
    assert_eq!(
        block.compile(&external()),
        Err(CompileError::UnreachableExpression)
    );
}

/// A lone abort compiles: its type is "never" and abortable.
#[test]
fn trailing_abort_is_allowed() {
    let block = Block::new(vec![Expr::Abort(1)], LocalEnv::new());
    let td = block.compile(&external()).unwrap();
    assert!(td.is_never());
    assert!(td.is_abortable());
    assert!(!td.is_fallible());
}

/// The violation reported is the first one found in evaluation order: the
/// dead code inside the nested block comes before the outer one.
#[test]
fn first_violation_wins() {
    let inner = Block::new(vec![Expr::Abort(1), lit_int(5)], LocalEnv::new());
    let block = Block::new(vec![Expr::Block(inner)], LocalEnv::new());
    assert_eq!(
        block.compile(&external()),
        Err(CompileError::UnreachableExpression)
    );
}

/// Typing a block leaves the caller's environment untouched, even though an
/// assignment inside the block is visible to its later siblings.
#[test]
fn block_typing_restores_parent_scope() {
    let block = Block::new(
        vec![set_var(1, lit_int(1)), Expr::Variable(1)],
        LocalEnv::new(),
    );
    let ext = external();
    let mut parent = LocalEnv::new();
    let td = block.type_def(&mut parent, &ext);
    // the variable read inside the block saw the integer binding
    assert!(td.contains(&Value::Integer(0)));
    assert!(!td.is_nullable());
    // the binding is invisible after the block
    assert_eq!(parent.variable(1), None);
}

/// A variable that is not in scope types as null, exactly as it reads at
/// run time.
#[test]
fn unbound_variable_types_as_null() {
    let block = Block::new(vec![Expr::Variable(9)], LocalEnv::new());
    let td = block.compile(&external()).unwrap();
    assert!(td.is_nullable());
    assert!(!td.is_fallible());
}

/// The record's type is whatever the external environment declares.
#[test]
fn target_takes_external_type() {
    let ext = ExternalEnv::new(TypeDef::integer());
    let block = Block::new(vec![Expr::Target], LocalEnv::new());
    let td = block.compile(&ext).unwrap();
    assert!(td.contains(&Value::Integer(3)));
    assert!(!td.is_nullable());
}

/// The join of two types unions the shapes and ORs the flags.
#[test]
fn union_joins_shapes_and_flags() {
    let a = TypeDef::integer().with_fallibility(true);
    let b = TypeDef::boolean().with_abortability(true);
    let u = a.union(b);
    assert!(u.contains(&Value::Integer(0)));
    assert!(u.contains(&Value::Boolean(true)));
    assert!(!u.contains(&Value::Null));
    assert!(u.is_fallible());
    assert!(u.is_abortable());
    assert_eq!(a.union(b), b.union(a));
    assert_eq!(a.union(a), a);
}

/// "Never" is the empty shape set.
#[test]
fn never_is_the_empty_shape_set() {
    assert!(TypeDef::never().is_never());
    assert!(!TypeDef::null().is_never());
    assert!(!TypeDef::never().contains(&Value::Null));
}

/// Rendering: one open brace, each child on its own indented line, a
/// closing brace.
#[test]
fn block_renders_one_child_per_line() {
    let block = Block::new(
        vec![
            set_var(1, lit_int(1)),
            Expr::Add(Box::new(Expr::Variable(1)), Box::new(lit_int(1))),
        ],
        LocalEnv::new(),
    );
    assert_eq!(
        block.render(),
        "{\n\tvariable = literal\n\tvariable + literal\n}"
    );
}

/// Rendering of the other constructs.
#[test]
fn expression_rendering_forms() {
    assert_eq!(Expr::Target.render(), ".");
    assert_eq!(Expr::Abort(1).render(), "abort");
    assert_eq!(
        fail_if(Expr::Literal(Value::Boolean(true)), 1).render(),
        "fail_if(literal)"
    );
    assert_eq!(
        Expr::Equals(Box::new(Expr::Target), Box::new(lit_int(0))).render(),
        ". == literal"
    );
}
