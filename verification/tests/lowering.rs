use remap_engine::{Block, CodegenContext, Expr, ExternalEnv, Inst, LocalEnv, TypeDef, Value};

fn lit_int(i: i64) -> Expr {
    Expr::Literal(Value::Integer(i))
}

fn fail_if(cond: Expr, code: i64) -> Expr {
    Expr::FailIf { condition: Box::new(cond), code }
}

fn external() -> ExternalEnv {
    ExternalEnv::new(TypeDef::null())
}

/// Lowering a block of infallible children: entry and exit blocks are
/// allocated, the function's original block branches into the entry block,
/// the children are emitted in order into it, and it falls through to the
/// exit block.
#[test]
fn infallible_children_lower_to_a_straight_line() {
    let block = Block::new(vec![lit_int(1), lit_int(2)], LocalEnv::new());
    let mut ctx = CodegenContext::new();
    assert!(block.emit_native(&external(), &mut ctx).is_ok());
    // block 0: the original insertion point; 1: entry; 2: exit
    assert_eq!(ctx.blocks_len(), 3);
    assert_eq!(ctx.inst_count(0), 1);
    assert_eq!(ctx.inst_at(0, 0), Inst::Branch { target: 1 });
    assert_eq!(ctx.inst_count(1), 3);
    assert_eq!(ctx.inst_at(1, 0), Inst::Resolve { child: 0 });
    assert_eq!(ctx.inst_at(1, 1), Inst::Resolve { child: 1 });
    assert_eq!(ctx.inst_at(1, 2), Inst::Branch { target: 2 });
    assert_eq!(ctx.inst_count(2), 0);
}

/// A statically fallible child is followed by a branch to the exit block on
/// error and to a fresh block on success.
#[test]
fn fallible_child_branches_to_the_exit_block() {
    let block = Block::new(
        vec![fail_if(Expr::Literal(Value::Boolean(true)), 9), lit_int(5)],
        LocalEnv::new(),
    );
    let mut ctx = CodegenContext::new();
    assert!(block.emit_native(&external(), &mut ctx).is_ok());
    // 0: original; 1: entry; 2: exit; 3: after the fallible child
    assert_eq!(ctx.blocks_len(), 4);
    assert_eq!(ctx.inst_at(1, 0), Inst::Resolve { child: 0 });
    assert_eq!(ctx.inst_at(1, 1), Inst::BranchIfError { on_err: 2, on_ok: 3 });
    assert_eq!(ctx.inst_at(3, 0), Inst::Resolve { child: 1 });
    assert_eq!(ctx.inst_at(3, 1), Inst::Branch { target: 2 });
}

/// A child that cannot fail recoverably but can abort is lowered with a
/// branch on the abort state instead.
#[test]
fn abortable_child_branches_on_abort() {
    let block = Block::new(vec![Expr::Abort(1)], LocalEnv::new());
    let mut ctx = CodegenContext::new();
    assert!(block.emit_native(&external(), &mut ctx).is_ok());
    assert_eq!(ctx.blocks_len(), 4);
    assert_eq!(ctx.inst_at(1, 0), Inst::Resolve { child: 0 });
    assert_eq!(ctx.inst_at(1, 1), Inst::BranchIfAbort { on_abort: 2, on_ok: 3 });
}
