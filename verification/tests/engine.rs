use remap_engine::{BatchContext, Block, Context, Error, Expr, LocalEnv, Value};
use remap_engine::expression::{INTEGER_OVERFLOW, NON_INTEGER_OPERAND};

fn set_var(id: u32, e: Expr) -> Expr {
    Expr::Assignment(id, Box::new(e))
}

fn add(a: Expr, b: Expr) -> Expr {
    Expr::Add(Box::new(a), Box::new(b))
}

fn fail_if(cond: Expr, code: i64) -> Expr {
    Expr::FailIf { condition: Box::new(cond), code }
}

fn lit_int(i: i64) -> Expr {
    Expr::Literal(Value::Integer(i))
}

/// Block `[ set(x, 1), x + 1 ]` resolves to `2` for any record.
#[test]
fn assignment_then_use_resolves_to_two() {
    for target in [Value::Null, Value::Boolean(true), Value::Integer(41), Value::Timestamp(7)] {
        let block = Block::new(
            vec![set_var(1, lit_int(1)), add(Expr::Variable(1), lit_int(1))],
            LocalEnv::new(),
        );
        let mut ctx = Context::new(target);
        assert_eq!(block.resolve(&mut ctx), Ok(Value::Integer(2)));
    }
}

/// The same block over a batch of three identical records yields `[2, 2, 2]`.
#[test]
fn assignment_then_use_batch_of_three() {
    let block = Block::new(
        vec![set_var(1, lit_int(1)), add(Expr::Variable(1), lit_int(1))],
        LocalEnv::new(),
    );
    let mut batch = BatchContext::new(vec![Value::Null, Value::Null, Value::Null]);
    block.resolve_batch(&mut batch, &[0, 1, 2]);
    for i in 0..3 {
        assert_eq!(batch.resolved_of(i), Ok(Value::Integer(2)));
    }
}

/// Block `[ fail_if(true), 5 ]` yields the error from `fail_if`; the `5` is
/// never reached.
#[test]
fn fail_if_true_short_circuits() {
    let block = Block::new(
        vec![fail_if(Expr::Literal(Value::Boolean(true)), 9), lit_int(5)],
        LocalEnv::new(),
    );
    let mut ctx = Context::new(Value::Null);
    assert_eq!(block.resolve(&mut ctx), Err(Error::Recoverable { code: 9 }));
}

/// On a three-row batch where only row 1 satisfies a row-dependent failing
/// condition, rows 0 and 2 yield `5` and row 1 yields the error.
#[test]
fn row_dependent_failure_in_batch() {
    // fail when the record equals Integer(1); records are 0, 1, 2
    let block = Block::new(
        vec![
            fail_if(
                Expr::Equals(Box::new(Expr::Target), Box::new(lit_int(1))),
                9,
            ),
            lit_int(5),
        ],
        LocalEnv::new(),
    );
    let mut batch = BatchContext::new(vec![
        Value::Integer(0),
        Value::Integer(1),
        Value::Integer(2),
    ]);
    block.resolve_batch(&mut batch, &[0, 1, 2]);
    assert_eq!(batch.resolved_of(0), Ok(Value::Integer(5)));
    assert_eq!(batch.resolved_of(1), Err(Error::Recoverable { code: 9 }));
    assert_eq!(batch.resolved_of(2), Ok(Value::Integer(5)));
}

/// Fail-fast ordering, observed through a variable in the enclosing scope:
/// the assignment sequenced after the failing child must not run.
#[test]
fn failing_child_stops_later_side_effects() {
    let block = Block::new(
        vec![
            fail_if(Expr::Literal(Value::Boolean(true)), 3),
            set_var(1, lit_int(5)),
        ],
        LocalEnv::new(),
    );
    let mut ctx = Context::new(Value::Null);
    ctx.assign(1, Value::Integer(0));
    assert_eq!(block.resolve(&mut ctx), Err(Error::Recoverable { code: 3 }));
    // had set(x, 5) run, the outer binding would read back as 5
    assert_eq!(ctx.variable(1), Some(Value::Integer(0)));
}

/// An assignment to a variable already bound outside the block persists,
/// while a variable first bound inside the block vanishes when it ends.
#[test]
fn outer_assignment_persists_inner_binding_vanishes() {
    let block = Block::new(
        vec![set_var(1, lit_int(5)), set_var(2, lit_int(6))],
        LocalEnv::new(),
    );
    let mut ctx = Context::new(Value::Null);
    ctx.assign(1, Value::Integer(0));
    assert_eq!(block.resolve(&mut ctx), Ok(Value::Integer(6)));
    assert_eq!(ctx.variable(1), Some(Value::Integer(5)));
    assert_eq!(ctx.variable(2), None);
}

/// Backend equivalence: a one-row batch and a single-record run return the
/// same outcome, for a succeeding and for a failing program.
#[test]
fn one_row_batch_equals_single_record() {
    let programs: Vec<Vec<Expr>> = vec![
        vec![set_var(1, lit_int(1)), add(Expr::Variable(1), lit_int(1))],
        vec![fail_if(Expr::Literal(Value::Boolean(true)), 9), lit_int(5)],
        vec![add(Expr::Target, lit_int(10))],
        vec![Expr::Abort(4)],
    ];
    for inner in programs {
        let inner_copy: Vec<Expr> = inner.iter().map(rebuild).collect();
        let block = Block::new(inner, LocalEnv::new());
        let single_block = Block::new(inner_copy, LocalEnv::new());
        let target = Value::Integer(30);
        let mut ctx = Context::new(target);
        let single = single_block.resolve(&mut ctx);
        let mut batch = BatchContext::new(vec![target]);
        block.resolve_batch(&mut batch, &[0]);
        assert_eq!(batch.resolved_of(0), single);
    }
}

/// Batch/row independence: row 0 failing leaves row 1's outcome exactly what
/// single-record execution of row 1 in isolation produces.
#[test]
fn failing_row_does_not_disturb_others() {
    let make = || {
        Block::new(
            vec![
                fail_if(
                    Expr::Equals(Box::new(Expr::Target), Box::new(lit_int(0))),
                    9,
                ),
                add(Expr::Target, lit_int(100)),
            ],
            LocalEnv::new(),
        )
    };
    let mut batch = BatchContext::new(vec![Value::Integer(0), Value::Integer(1)]);
    make().resolve_batch(&mut batch, &[0, 1]);
    assert_eq!(batch.resolved_of(0), Err(Error::Recoverable { code: 9 }));
    let mut ctx = Context::new(Value::Integer(1));
    let isolated = make().resolve(&mut ctx);
    assert_eq!(batch.resolved_of(1), isolated);
    assert_eq!(isolated, Ok(Value::Integer(101)));
}

/// Rows outside the selection vector are left untouched.
#[test]
fn unselected_rows_are_untouched() {
    let block = Block::new(vec![lit_int(7)], LocalEnv::new());
    let mut batch = BatchContext::new(vec![Value::Null, Value::Null, Value::Null]);
    block.resolve_batch(&mut batch, &[0, 2]);
    assert_eq!(batch.resolved_of(0), Ok(Value::Integer(7)));
    assert_eq!(batch.resolved_of(1), Ok(Value::Null));
    assert_eq!(batch.resolved_of(2), Ok(Value::Integer(7)));
}

/// An abort is reported as an abort-triggering error; a `fail_if` error is
/// recoverable.
#[test]
fn error_kinds_are_distinguished() {
    let mut ctx = Context::new(Value::Null);
    let r = Expr::Abort(4).resolve(&mut ctx);
    assert_eq!(r, Err(Error::Abort { code: 4 }));
    assert!(r.unwrap_err().is_abort());
    let r = fail_if(Expr::Literal(Value::Boolean(true)), 2).resolve(&mut ctx);
    assert_eq!(r, Err(Error::Recoverable { code: 2 }));
    assert!(!r.unwrap_err().is_abort());
}

/// Addition errors: a non-integer operand, and a sum that does not fit.
#[test]
fn addition_error_cases() {
    let mut ctx = Context::new(Value::Null);
    let r = add(Expr::Literal(Value::Null), lit_int(1)).resolve(&mut ctx);
    assert_eq!(r, Err(Error::Recoverable { code: NON_INTEGER_OPERAND }));
    let r = add(lit_int(i64::MAX), lit_int(1)).resolve(&mut ctx);
    assert_eq!(r, Err(Error::Recoverable { code: INTEGER_OVERFLOW }));
    let r = add(lit_int(i64::MIN), lit_int(-1)).resolve(&mut ctx);
    assert_eq!(r, Err(Error::Recoverable { code: INTEGER_OVERFLOW }));
    let r = add(lit_int(i64::MAX), lit_int(-1)).resolve(&mut ctx);
    assert_eq!(r, Ok(Value::Integer(i64::MAX - 1)));
}

/// `into_inner` hands the children back in order.
#[test]
fn into_inner_returns_children() {
    let block = Block::new(vec![lit_int(1), lit_int(2)], LocalEnv::new());
    let inner = block.into_inner();
    assert_eq!(inner.len(), 2);
    assert!(matches!(inner[0], Expr::Literal(Value::Integer(1))));
    assert!(matches!(inner[1], Expr::Literal(Value::Integer(2))));
}

fn rebuild(e: &Expr) -> Expr {
    match e {
        Expr::Literal(v) => Expr::Literal(*v),
        Expr::Target => Expr::Target,
        Expr::Variable(id) => Expr::Variable(*id),
        Expr::Assignment(id, rhs) => Expr::Assignment(*id, Box::new(rebuild(rhs))),
        Expr::Add(a, b) => Expr::Add(Box::new(rebuild(a)), Box::new(rebuild(b))),
        Expr::Equals(a, b) => Expr::Equals(Box::new(rebuild(a)), Box::new(rebuild(b))),
        Expr::FailIf { condition, code } => Expr::FailIf {
            condition: Box::new(rebuild(condition)),
            code: *code,
        },
        Expr::Abort(code) => Expr::Abort(*code),
        Expr::Block(_) => panic!("not used by these tests"),
    }
}

/// A variable bound inside a nested block is invisible at run time once the
/// block ends, while an update to an enclosing variable persists.
#[test]
fn nested_block_scope_is_restored_at_run_time() {
    let inner = Block::new(
        vec![set_var(2, lit_int(2)), set_var(1, lit_int(5))],
        LocalEnv::new(),
    );
    let outer = Block::new(
        vec![
            set_var(1, lit_int(1)),
            Expr::Block(inner),
            add(Expr::Variable(1), lit_int(1)),
        ],
        LocalEnv::new(),
    );
    let mut ctx = Context::new(Value::Null);
    // the nested block updated the outer variable to 5; its own binding vanished
    assert_eq!(outer.resolve(&mut ctx), Ok(Value::Integer(6)));

    let inner = Block::new(vec![set_var(2, lit_int(2))], LocalEnv::new());
    let outer = Block::new(
        vec![Expr::Block(inner), add(Expr::Variable(2), lit_int(1))],
        LocalEnv::new(),
    );
    let mut ctx = Context::new(Value::Null);
    // the nested binding is gone: the variable reads as null, which cannot be added
    assert_eq!(
        outer.resolve(&mut ctx),
        Err(Error::Recoverable { code: NON_INTEGER_OPERAND })
    );
}

/// The verified equivalence entry points: both backends agree on any input
/// handed to them.
#[test]
fn verified_equivalence_entry_points() {
    let e = add(Expr::Target, lit_int(1));
    let (single, from_batch) = remap_engine::expression::backend_equivalence(&e, Value::Integer(4));
    assert_eq!(single, from_batch);
    assert_eq!(single, Ok(Value::Integer(5)));

    let e = add(Expr::Target, lit_int(1));
    let (isolated, from_batch) =
        remap_engine::expression::batch_row_independence(&e, Value::Null, Value::Integer(4));
    assert_eq!(isolated, from_batch);
    assert_eq!(isolated, Ok(Value::Integer(5)));
}
