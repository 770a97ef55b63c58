use vstd::prelude::*;
use vstd::string::*;
use crate::value::{Value, Error, Resolved};
use crate::type_def::TypeDef;
use crate::env::{
    LocalEnv, ExternalEnv, spec_get, spec_bind, spec_find, lemma_find_props, lemma_bind_ids,
    lemma_find_same_ids,
};
use crate::context::{Context, BatchContext};

verus! {

/// Error code carried by an arithmetic expression whose operand is not an
/// integer.
pub const NON_INTEGER_OPERAND: i64 = 1;

/// Error code carried by an integer addition whose result does not fit.
pub const INTEGER_OVERFLOW: i64 = 2;

/// One construct of the expression language. Every variant implements the
/// same capability set: single-record resolution, batch resolution against a
/// selection vector, and static type inference.
#[derive(Debug)]
pub enum Expr {
    /// A constant value.
    Literal(Value),
    /// The whole input record.
    Target,
    /// A variable read; a variable that is not in scope reads as null.
    Variable(u32),
    /// Binds the value of the sub-expression to a variable; the assignment
    /// itself evaluates to that value.
    Assignment(u32, Box<Expr>),
    /// Integer addition; fails recoverably on a non-integer operand or on
    /// overflow.
    Add(Box<Expr>, Box<Expr>),
    /// Structural equality of the two operands' values.
    Equals(Box<Expr>, Box<Expr>),
    /// Fails with a recoverable error carrying `code` when the condition
    /// evaluates to boolean true; evaluates to null otherwise.
    FailIf { condition: Box<Expr>, code: i64 },
    /// Terminates the whole program: an abort-triggering error carrying the
    /// given code. Its type is "never": it cannot produce a value.
    Abort(i64),
    /// An ordered sequence of expressions with its own lexical scope.
    Block(Block),
}

/// A sequence of expressions evaluated for their side effects except the
/// last, whose value is the block's value. Evaluation is fail-fast: the
/// first child that errors ends the block. The block carries the snapshot of
/// the local typing environment taken where it was built; its children are
/// typed against that snapshot, and bindings they introduce are discarded
/// when the block ends.
#[derive(Debug)]
pub struct Block {
    inner: Vec<Expr>,
    local_env: LocalEnv,
}

impl Block {
    pub closed spec fn spec_inner(self) -> Seq<Expr> {
        self.inner@
    }

    pub closed spec fn spec_local_env(self) -> Seq<(u32, TypeDef)> {
        self.local_env@
    }

    #[must_use]
    pub fn new(inner: Vec<Expr>, local_env: LocalEnv) -> (b: Block)
        ensures
            b.spec_inner() == inner@,
            b.spec_local_env() == local_env@,
    {
        Block { inner, local_env }
    }

    #[must_use]
    pub fn into_inner(self) -> (v: Vec<Expr>)
        ensures
            v@ == self.spec_inner(),
    {
        self.inner
    }

    /// The number of child expressions.
    pub fn inner_len(&self) -> (n: usize)
        ensures
            n == self.spec_inner().len(),
    {
        self.inner.len()
    }

    /// The child expression at the given position.
    pub fn child_at(&self, i: usize) -> (e: &Expr)
        requires
            i < self.spec_inner().len(),
        ensures
            *e == self.spec_inner()[i as int],
    {
        &self.inner[i]
    }

    /// An independent copy of the block's scope snapshot, for passes that
    /// thread their own environment through the children.
    pub fn local_env_snapshot(&self) -> (e: LocalEnv)
        ensures
            e@ == self.spec_local_env(),
    {
        self.local_env.snapshot()
    }
}

/// What evaluating one expression against one record leaves behind: the
/// outcome handed to the caller and the variable store as the expression
/// left it.
pub ghost struct EvalOut {
    pub result: Resolved,
    pub vars: Seq<(u32, Value)>,
}

/// The value a variable read yields: the bound value, or null when the
/// variable is not in scope.
pub open spec fn read_var(vars: Seq<(u32, Value)>, id: u32) -> Value {
    match spec_get(vars, id) {
        Some(v) => v,
        None => Value::Null,
    }
}

/// Integer addition on values: defined exactly when both operands are
/// integers and the mathematical sum fits the machine integer.
pub open spec fn add_values(a: Value, b: Value) -> Resolved {
    match (a, b) {
        (Value::Integer(x), Value::Integer(y)) => if i64::MIN <= x + y <= i64::MAX {
            Ok(Value::Integer((x + y) as i64))
        } else {
            Err(Error::Recoverable { code: INTEGER_OVERFLOW })
        },
        _ => Err(Error::Recoverable { code: NON_INTEGER_OPERAND }),
    }
}

/// The single-record semantics of the language: what resolving `e` against
/// the record `target`, with the variable store `vars`, returns and leaves
/// behind. Both execution backends are verified against this one function.
pub open spec fn eval(e: Expr, target: Value, vars: Seq<(u32, Value)>) -> EvalOut
    decreases e,
{
    match e {
        Expr::Literal(v) => EvalOut { result: Ok(v), vars },
        Expr::Target => EvalOut { result: Ok(target), vars },
        Expr::Variable(id) => EvalOut { result: Ok(read_var(vars, id)), vars },
        Expr::Assignment(id, rhs) => {
            let o = eval(*rhs, target, vars);
            match o.result {
                Ok(v) => EvalOut { result: Ok(v), vars: spec_bind(o.vars, id, v) },
                Err(_) => o,
            }
        },
        Expr::Add(a, b) => {
            let oa = eval(*a, target, vars);
            match oa.result {
                Ok(va) => {
                    let ob = eval(*b, target, oa.vars);
                    match ob.result {
                        Ok(vb) => EvalOut { result: add_values(va, vb), vars: ob.vars },
                        Err(_) => ob,
                    }
                },
                Err(_) => oa,
            }
        },
        Expr::Equals(a, b) => {
            let oa = eval(*a, target, vars);
            match oa.result {
                Ok(va) => {
                    let ob = eval(*b, target, oa.vars);
                    match ob.result {
                        Ok(vb) => EvalOut { result: Ok(Value::Boolean(va == vb)), vars: ob.vars },
                        Err(_) => ob,
                    }
                },
                Err(_) => oa,
            }
        },
        Expr::FailIf { condition, code } => {
            let o = eval(*condition, target, vars);
            match o.result {
                Ok(v) => if v == Value::Boolean(true) {
                    EvalOut { result: Err(Error::Recoverable { code }), vars: o.vars }
                } else {
                    EvalOut { result: Ok(Value::Null), vars: o.vars }
                },
                Err(_) => o,
            }
        },
        Expr::Abort(code) => EvalOut { result: Err(Error::Abort { code }), vars },
        Expr::Block(b) => eval_block(b, target, vars),
    }
}

/// Fail-fast evaluation of a child sequence: children run strictly in
/// order; the first error ends the sequence and is its outcome; otherwise
/// the last child's value is the outcome. An empty sequence (rejected at
/// compile time) is given the vacuous outcome null.
pub open spec fn eval_seq(children: Seq<Expr>, target: Value, vars: Seq<(u32, Value)>) -> EvalOut
    decreases children,
{
    if children.len() == 0 {
        EvalOut { result: Ok(Value::Null), vars }
    } else {
        let o = eval(children[0], target, vars);
        if children.len() == 1 {
            o
        } else {
            match o.result {
                Ok(_) => eval_seq(
                    children.subrange(1, children.len() as int),
                    target,
                    o.vars,
                ),
                Err(_) => o,
            }
        }
    }
}

/// A block's semantics: its children run fail-fast under the block's scope,
/// and the scope is restored afterwards — every binding past the parent's
/// entry length is dropped, whether the block succeeded or failed.
pub open spec fn eval_block(b: Block, target: Value, vars: Seq<(u32, Value)>) -> EvalOut
    decreases b,
{
    let o = eval_seq(b.spec_inner(), target, vars);
    EvalOut { result: o.result, vars: o.vars.subrange(0, vars.len() as int) }
}

/// Evaluation only grows the variable store at its end and never disturbs
/// the identifier already at any position: the foundation of scope
/// restoration by truncation.
pub proof fn lemma_eval_extends(e: Expr, target: Value, vars: Seq<(u32, Value)>)
    ensures
        eval(e, target, vars).vars.len() >= vars.len(),
        forall|j: int|
            0 <= j < vars.len() ==> (#[trigger] eval(e, target, vars).vars[j]).0 == vars[j].0,
    decreases e,
{
    let out = eval(e, target, vars);
    match e {
        Expr::Assignment(id, rhs) => {
            lemma_eval_extends(*rhs, target, vars);
            let o = eval(*rhs, target, vars);
            assert(out == (match o.result {
                Ok(v) => EvalOut { result: Ok(v), vars: spec_bind(o.vars, id, v) },
                Err(_) => o,
            }));
            if o.result is Ok {
                let v = o.result->Ok_0;
                lemma_bind_ids::<Value>(o.vars, id, v);
                assert forall|j: int| 0 <= j < vars.len() implies (#[trigger] out.vars[j]).0
                    == vars[j].0 by {
                    assert(out.vars[j].0 == o.vars[j].0);
                    assert(o.vars[j].0 == vars[j].0);
                }
            }
        },
        Expr::Add(a, b) => {
            lemma_eval_extends(*a, target, vars);
            let oa = eval(*a, target, vars);
            if oa.result is Ok {
                lemma_eval_extends(*b, target, oa.vars);
                let ob = eval(*b, target, oa.vars);
                assert(out.vars == ob.vars);
                assert forall|j: int| 0 <= j < vars.len() implies (#[trigger] out.vars[j]).0
                    == vars[j].0 by {
                    assert(ob.vars[j].0 == oa.vars[j].0);
                    assert(oa.vars[j].0 == vars[j].0);
                }
            } else {
                assert(out == oa);
            }
        },
        Expr::Equals(a, b) => {
            lemma_eval_extends(*a, target, vars);
            let oa = eval(*a, target, vars);
            if oa.result is Ok {
                lemma_eval_extends(*b, target, oa.vars);
                let ob = eval(*b, target, oa.vars);
                assert(out.vars == ob.vars);
                assert forall|j: int| 0 <= j < vars.len() implies (#[trigger] out.vars[j]).0
                    == vars[j].0 by {
                    assert(ob.vars[j].0 == oa.vars[j].0);
                    assert(oa.vars[j].0 == vars[j].0);
                }
            } else {
                assert(out == oa);
            }
        },
        Expr::FailIf { condition, code } => {
            lemma_eval_extends(*condition, target, vars);
            let o = eval(*condition, target, vars);
            assert(out.vars == o.vars);
        },
        Expr::Block(b) => {
            lemma_eval_seq_extends(b.inner@, target, vars);
            let o = eval_seq(b.inner@, target, vars);
            assert(out == eval_block(b, target, vars));
            assert(out.vars == o.vars.subrange(0, vars.len() as int));
            assert forall|j: int| 0 <= j < vars.len() implies (#[trigger] out.vars[j]).0
                == vars[j].0 by {
                assert(out.vars[j] == o.vars[j]);
            }
        },
        _ => {},
    }
}

pub proof fn lemma_eval_seq_extends(children: Seq<Expr>, target: Value, vars: Seq<(u32, Value)>)
    ensures
        eval_seq(children, target, vars).vars.len() >= vars.len(),
        forall|j: int|
            0 <= j < vars.len() ==> (#[trigger] eval_seq(children, target, vars).vars[j]).0
                == vars[j].0,
    decreases children,
{
    if children.len() > 0 {
        lemma_eval_extends(children[0], target, vars);
        let o = eval(children[0], target, vars);
        if children.len() > 1 && o.result is Ok {
            lemma_eval_seq_extends(children.subrange(1, children.len() as int), target, o.vars);
            let rest = eval_seq(children.subrange(1, children.len() as int), target, o.vars);
            assert forall|j: int|
                0 <= j < vars.len() implies (#[trigger] eval_seq(children, target, vars).vars[j]).0
                == vars[j].0 by {
                assert(rest.vars[j].0 == o.vars[j].0);
                assert(o.vars[j].0 == vars[j].0);
            }
        }
    }
}

/// Decomposition of fail-fast sequencing: running a sequence equals running
/// its first `k` children and, only when they all succeeded, running the
/// rest from the state they left.
pub proof fn lemma_eval_seq_split(s: Seq<Expr>, k: int, target: Value, vars: Seq<(u32, Value)>)
    requires
        0 < k < s.len(),
    ensures
        eval_seq(s, target, vars) == ({
            let o = eval_seq(s.subrange(0, k), target, vars);
            match o.result {
                Ok(_) => eval_seq(s.subrange(k, s.len() as int), target, o.vars),
                Err(_) => o,
            }
        }),
    decreases k,
{
    let pre = s.subrange(0, k);
    assert(pre[0] == s[0]);
    let o0 = eval(s[0], target, vars);
    if k == 1 {
        assert(pre.len() == 1);
    } else {
        let tail = s.subrange(1, s.len() as int);
        if o0.result is Ok {
            lemma_eval_seq_split(tail, k - 1, target, o0.vars);
            assert(tail.subrange(0, k - 1) =~= pre.subrange(1, k));
            assert(pre.subrange(1, k) == pre.subrange(1, pre.len() as int));
            assert(tail.subrange(k - 1, tail.len() as int) =~= s.subrange(k, s.len() as int));
        }
    }
}

impl Expr {
    /// Evaluates this expression against exactly one record, reading and
    /// writing that record's variables through the context. Returns the
    /// expression's value, or the first error evaluation ran into.
    pub fn resolve(&self, ctx: &mut Context) -> (r: Resolved)
        requires
            expr_no_empty_blocks(*self),
        ensures
            final(ctx).spec_target() == old(ctx).spec_target(),
            r == eval(*self, old(ctx).spec_target(), old(ctx).spec_vars()).result,
            final(ctx).spec_vars() == eval(*self, old(ctx).spec_target(), old(ctx).spec_vars()).vars,
        decreases self, 0int,
    {
        match self {
            Expr::Literal(v) => Ok(*v),
            Expr::Target => Ok(ctx.target()),
            Expr::Variable(id) => match ctx.variable(*id) {
                Some(v) => Ok(v),
                None => Ok(Value::Null),
            },
            Expr::Assignment(id, rhs) => {
                match rhs.resolve(ctx) {
                    Ok(v) => {
                        ctx.assign(*id, v);
                        Ok(v)
                    },
                    Err(e) => Err(e),
                }
            },
            Expr::Add(a, b) => {
                match a.resolve(ctx) {
                    Ok(va) => match b.resolve(ctx) {
                        Ok(vb) => add_exec(va, vb),
                        Err(e) => Err(e),
                    },
                    Err(e) => Err(e),
                }
            },
            Expr::Equals(a, b) => {
                match a.resolve(ctx) {
                    Ok(va) => match b.resolve(ctx) {
                        Ok(vb) => Ok(Value::Boolean(va == vb)),
                        Err(e) => Err(e),
                    },
                    Err(e) => Err(e),
                }
            },
            Expr::FailIf { condition, code } => {
                match condition.resolve(ctx) {
                    Ok(v) => if v == Value::Boolean(true) {
                        Err(Error::Recoverable { code: *code })
                    } else {
                        Ok(Value::Null)
                    },
                    Err(e) => Err(e),
                }
            },
            Expr::Abort(code) => Err(Error::Abort { code: *code }),
            Expr::Block(b) => b.resolve(ctx),
        }
    }
}

/// Integer addition on already-resolved operands.
fn add_exec(a: Value, b: Value) -> (r: Resolved)
    ensures
        r == add_values(a, b),
{
    match (a, b) {
        (Value::Integer(x), Value::Integer(y)) => {
            if y > 0 && x > i64::MAX - y {
                Err(Error::Recoverable { code: INTEGER_OVERFLOW })
            } else if y < 0 && x < i64::MIN - y {
                Err(Error::Recoverable { code: INTEGER_OVERFLOW })
            } else {
                Ok(Value::Integer(x + y))
            }
        },
        _ => Err(Error::Recoverable { code: NON_INTEGER_OPERAND }),
    }
}

impl Block {
    /// Evaluates the children strictly in order, short-circuiting on the
    /// first error; the last child's value is the block's value. Whatever
    /// happens, the variable scope is restored: bindings introduced inside
    /// the block are invisible to everything after it.
    pub fn resolve(&self, ctx: &mut Context) -> (r: Resolved)
        requires
            block_no_empty_blocks(*self),
        ensures
            final(ctx).spec_target() == old(ctx).spec_target(),
            r == eval_block(*self, old(ctx).spec_target(), old(ctx).spec_vars()).result,
            final(ctx).spec_vars() == eval_block(
                *self,
                old(ctx).spec_target(),
                old(ctx).spec_vars(),
            ).vars,
        decreases self, 0int,
    {
        let ghost target0 = old(ctx).spec_target();
        let ghost vars0 = old(ctx).spec_vars();
        let entry_len = ctx.vars_len();
        let n = self.inner.len();
        let mut i: usize = 0;
        while i < n - 1
            invariant
                block_no_empty_blocks(*self),
                n == self.spec_inner().len(),
                1 <= n,
                0 <= i <= n - 1,
                entry_len == vars0.len(),
                target0 == old(ctx).spec_target(),
                vars0 == old(ctx).spec_vars(),
                ctx.spec_target() == target0,
                i == 0 ==> ctx.spec_vars() == vars0,
                i > 0 ==> eval_seq(self.spec_inner().subrange(0, i as int), target0, vars0).result
                    is Ok,
                i > 0 ==> ctx.spec_vars() == eval_seq(
                    self.spec_inner().subrange(0, i as int),
                    target0,
                    vars0,
                ).vars,
            decreases n - 1 - i,
        {
            let ghost pre = self.spec_inner().subrange(0, i as int);
            let ghost cur = ctx.spec_vars();
            proof {
                assert(seq_no_empty_blocks(self.spec_inner()));
                assert(expr_no_empty_blocks(self.spec_inner()[i as int]));
            }
            let r = self.inner[i].resolve(ctx);
            proof {
                let pre1 = self.spec_inner().subrange(0, i + 1);
                assert(pre1[0] == self.spec_inner()[0]);
                if i == 0 {
                    assert(pre1.len() == 1);
                } else {
                    lemma_eval_seq_split(pre1, i as int, target0, vars0);
                    assert(pre1.subrange(0, i as int) =~= pre);
                    assert(pre1.subrange(i as int, pre1.len() as int) =~= self.spec_inner()
                        .subrange(i as int, i + 1));
                    assert(self.spec_inner().subrange(i as int, i + 1)[0] == self.spec_inner()[
                        i as int]);
                }
                assert(self.spec_inner().subrange(i as int, i + 1).len() == 1);
            }
            match r {
                Err(e) => {
                    proof {
                        // the whole sequence stops at this child
                        lemma_eval_seq_split(
                            self.spec_inner(),
                            i + 1,
                            target0,
                            vars0,
                        );
                        assert(self.spec_inner().subrange(0, self.spec_inner().len() as int)
                            =~= self.spec_inner());
                        lemma_eval_seq_extends(self.spec_inner(), target0, vars0);
                    }
                    ctx.truncate_vars(entry_len);
                    return Err(e);
                },
                Ok(_) => {},
            }
            i += 1;
        }
        let ghost pre = self.spec_inner().subrange(0, i as int);
        proof {
            assert(seq_no_empty_blocks(self.spec_inner()));
            assert(expr_no_empty_blocks(self.spec_inner()[n - 1]));
        }
        let r = self.inner[n - 1].resolve(ctx);
        proof {
            if n == 1 {
                assert(self.spec_inner().subrange(0, 1) =~= self.spec_inner());
                assert(self.spec_inner()[0] == self.inner@[0]);
            } else {
                lemma_eval_seq_split(self.spec_inner(), i as int, target0, vars0);
                assert(self.spec_inner().subrange(0, i as int) =~= pre);
                assert(self.spec_inner().subrange(i as int, self.spec_inner().len() as int).len()
                    == 1);
                assert(self.spec_inner().subrange(i as int, self.spec_inner().len() as int)[0]
                    == self.spec_inner()[i as int]);
            }
            lemma_eval_seq_extends(self.spec_inner(), target0, vars0);
        }
        ctx.truncate_vars(entry_len);
        r
    }
}

/// Whether fail-fast evaluation of `children` succeeds for batch row `r`,
/// starting from the row state `bc` held when the sequence began.
pub closed spec fn row_live(children: Seq<Expr>, bc: BatchContext, r: usize) -> bool {
    eval_seq(children, bc.spec_target_at(r as int), bc.spec_vars_at(r as int)).result is Ok
}

/// Whether, in batch `bc`, row `r` holds exactly the outcome that fail-fast
/// evaluation of `children` produces from the row's state in `bc0`.
pub closed spec fn row_matches(children: Seq<Expr>, bc0: BatchContext, bc: BatchContext, r: usize) -> bool {
    let o = eval_seq(children, bc0.spec_target_at(r as int), bc0.spec_vars_at(r as int));
    bc.spec_resolved_at(r as int) == o.result && bc.spec_vars_at(r as int) == o.vars
}

/// The selection vector left over after `children` have run: the rows of
/// `sv`, in order, whose fail-fast evaluation has not erred.
pub closed spec fn live_filter(children: Seq<Expr>, bc: BatchContext, sv: Seq<usize>) -> Seq<usize>
    decreases sv.len(),
{
    if sv.len() == 0 {
        Seq::empty()
    } else {
        let rest = live_filter(children, bc, sv.drop_last());
        if row_live(children, bc, sv.last()) {
            rest.push(sv.last())
        } else {
            rest
        }
    }
}

/// Every row the filter keeps came from `sv` and is live.
pub proof fn lemma_live_filter_elems(children: Seq<Expr>, bc: BatchContext, sv: Seq<usize>)
    ensures
        forall|m: int|
            0 <= m < live_filter(children, bc, sv).len() ==> row_live(
                children,
                bc,
                #[trigger] live_filter(children, bc, sv)[m],
            ) && sv.contains(live_filter(children, bc, sv)[m]),
    decreases sv.len(),
{
    if sv.len() > 0 {
        lemma_live_filter_elems(children, bc, sv.drop_last());
        let rest = live_filter(children, bc, sv.drop_last());
        let f = live_filter(children, bc, sv);
        assert forall|m: int|
            0 <= m < f.len() implies row_live(children, bc, #[trigger] f[m]) && sv.contains(
            f[m],
        ) by {
            if m < rest.len() {
                assert(f[m] == rest[m]);
                let k = choose|k: int|
                    0 <= k < sv.drop_last().len() && sv.drop_last()[k] == rest[m];
                assert(sv[k] == rest[m]);
            } else {
                assert(f[m] == sv.last());
                assert(sv[sv.len() - 1] == sv.last());
            }
        }
    }
}

/// Every live row of `sv` is kept by the filter.
pub proof fn lemma_live_filter_complete(children: Seq<Expr>, bc: BatchContext, sv: Seq<usize>)
    ensures
        forall|k: int|
            0 <= k < sv.len() && row_live(children, bc, #[trigger] sv[k]) ==> live_filter(
                children,
                bc,
                sv,
            ).contains(sv[k]),
    decreases sv.len(),
{
    if sv.len() > 0 {
        lemma_live_filter_complete(children, bc, sv.drop_last());
        let rest = live_filter(children, bc, sv.drop_last());
        let f = live_filter(children, bc, sv);
        assert forall|k: int|
            0 <= k < sv.len() && row_live(children, bc, #[trigger] sv[k]) implies f.contains(
            sv[k],
        ) by {
            if k < sv.len() - 1 {
                assert(sv.drop_last()[k] == sv[k]);
                let m = choose|m: int| 0 <= m < rest.len() && rest[m] == sv[k];
                if row_live(children, bc, sv.last()) {
                    assert(f[m] == rest[m]);
                } else {
                    assert(f[m] == rest[m]);
                }
            } else {
                assert(f[rest.len() as int] == sv[k]);
            }
        }
    }
}

/// Filtering a selection vector without repeated rows yields one without
/// repeated rows.
pub proof fn lemma_live_filter_distinct(children: Seq<Expr>, bc: BatchContext, sv: Seq<usize>)
    requires
        forall|k1: int, k2: int| 0 <= k1 < k2 < sv.len() ==> sv[k1] != sv[k2],
    ensures
        forall|m1: int, m2: int|
            0 <= m1 < m2 < live_filter(children, bc, sv).len() ==> live_filter(children, bc, sv)[m1]
                != live_filter(children, bc, sv)[m2],
    decreases sv.len(),
{
    if sv.len() > 0 {
        let prev = sv.drop_last();
        assert forall|k1: int, k2: int| 0 <= k1 < k2 < prev.len() implies prev[k1] != prev[k2] by {
            assert(prev[k1] == sv[k1]);
            assert(prev[k2] == sv[k2]);
        }
        lemma_live_filter_distinct(children, bc, prev);
        lemma_live_filter_elems(children, bc, prev);
        let rest = live_filter(children, bc, prev);
        let f = live_filter(children, bc, sv);
        assert forall|m1: int, m2: int| 0 <= m1 < m2 < f.len() implies f[m1] != f[m2] by {
            if m2 < rest.len() {
                assert(f[m1] == rest[m1]);
                assert(f[m2] == rest[m2]);
            } else {
                assert(f[m2] == sv.last());
                assert(f[m1] == rest[m1]);
                let k = choose|k: int| 0 <= k < prev.len() && prev[k] == rest[m1];
                assert(sv[k] == rest[m1]);
                assert(sv[k] != sv[sv.len() - 1]);
            }
        }
    }
}

impl Expr {
    /// Evaluates this expression for every row named by `selection_vector`,
    /// writing each such row's value or error into the batch context; rows
    /// not named are left untouched. Row by row, the outcome written is
    /// identical to what single-record resolution of the same row would
    /// return — the batch backend and the single-record backend cannot be
    /// told apart, and no row's outcome depends on any other row.
    pub fn resolve_batch(&self, ctx: &mut BatchContext, selection_vector: &[usize])
        requires
            expr_no_empty_blocks(*self),
            old(ctx).wf(),
            forall|k: int|
                0 <= k < selection_vector@.len() ==> (#[trigger] selection_vector@[k]) < old(ctx).spec_len(),
            forall|k1: int, k2: int|
                0 <= k1 < k2 < selection_vector@.len() ==> selection_vector@[k1]
                    != selection_vector@[k2],
        ensures
            final(ctx).wf(),
            final(ctx).spec_len() == old(ctx).spec_len(),
            forall|i: int|
                0 <= i < old(ctx).spec_len() ==> final(ctx).spec_target_at(i) == old(ctx).spec_target_at(i),
            forall|i: int|
                0 <= i < old(ctx).spec_len() && !selection_vector@.contains(i as usize) ==> final(ctx).spec_resolved_at(i) == old(ctx).spec_resolved_at(i) && final(ctx).spec_vars_at(i)
                    == old(ctx).spec_vars_at(i),
            forall|k: int|
                0 <= k < selection_vector@.len() ==> final(ctx).spec_resolved_at(
                    (#[trigger] selection_vector@[k]) as int,
                ) == eval(
                    *self,
                    old(ctx).spec_target_at(selection_vector@[k] as int),
                    old(ctx).spec_vars_at(selection_vector@[k] as int),
                ).result,
            forall|k: int|
                0 <= k < selection_vector@.len() ==> final(ctx).spec_vars_at(
                    (#[trigger] selection_vector@[k]) as int,
                ) == eval(
                    *self,
                    old(ctx).spec_target_at(selection_vector@[k] as int),
                    old(ctx).spec_vars_at(selection_vector@[k] as int),
                ).vars,
        decreases self, 1int,
    {
        let ghost bc0 = *old(ctx);
        if let Expr::Block(b) = self {
            proof {
                assert(block_no_empty_blocks(*b));
            }
            b.resolve_batch(ctx, selection_vector);
            proof {
                assert forall|k: int| 0 <= k < selection_vector@.len() implies ({
                    let i = (#[trigger] selection_vector@[k]) as int;
                    eval(*self, bc0.spec_target_at(i), bc0.spec_vars_at(i)) == eval_block(
                        *b,
                        bc0.spec_target_at(i),
                        bc0.spec_vars_at(i),
                    )
                }) by {
                    let i = selection_vector@[k] as int;
                    assert(eval(*self, bc0.spec_target_at(i), bc0.spec_vars_at(i)) == eval_block(
                        *b,
                        bc0.spec_target_at(i),
                        bc0.spec_vars_at(i),
                    ));
                }
            }
            return ;
        }
        let svlen = selection_vector.len();
        let mut k: usize = 0;
        while k < svlen
            invariant
                expr_no_empty_blocks(*self),
                svlen == selection_vector@.len(),
                0 <= k <= svlen,
                bc0 == *old(ctx),
                bc0.wf(),
                ctx.wf(),
                ctx.spec_len() == bc0.spec_len(),
                forall|k2: int|
                    0 <= k2 < svlen ==> (#[trigger] selection_vector@[k2]) < bc0.spec_len(),
                forall|k1: int, k2: int|
                    0 <= k1 < k2 < svlen ==> selection_vector@[k1] != selection_vector@[k2],
                forall|i: int|
                    0 <= i < bc0.spec_len() ==> ctx.spec_target_at(i) == bc0.spec_target_at(i),
                forall|i: int|
                    0 <= i < bc0.spec_len() && !selection_vector@.subrange(0, k as int).contains(
                        i as usize,
                    ) ==> ctx.spec_resolved_at(i) == bc0.spec_resolved_at(i) && ctx.spec_vars_at(i)
                        == bc0.spec_vars_at(i),
                forall|k2: int|
                    0 <= k2 < k ==> ctx.spec_resolved_at((#[trigger] selection_vector@[k2]) as int)
                        == eval(
                        *self,
                        bc0.spec_target_at(selection_vector@[k2] as int),
                        bc0.spec_vars_at(selection_vector@[k2] as int),
                    ).result,
                forall|k2: int|
                    0 <= k2 < k ==> ctx.spec_vars_at((#[trigger] selection_vector@[k2]) as int)
                        == eval(
                        *self,
                        bc0.spec_target_at(selection_vector@[k2] as int),
                        bc0.spec_vars_at(selection_vector@[k2] as int),
                    ).vars,
            decreases svlen - k,
        {
            let i = selection_vector[k];
            proof {
                if selection_vector@.subrange(0, k as int).contains(i) {
                    let kw = choose|kw: int|
                        0 <= kw < k && selection_vector@.subrange(0, k as int)[kw] == i;
                    assert(selection_vector@[kw] == selection_vector@[k as int]);
                    assert(false);
                }
            }
            let mut c = ctx.begin_row(i);
            let r = self.resolve(&mut c);
            ctx.end_row(i, c, r);
            proof {
                assert(selection_vector@.subrange(0, k + 1)[k as int] == selection_vector@[
                    k as int]);
                assert forall|i2: int|
                    0 <= i2 < bc0.spec_len() && !selection_vector@.subrange(0, k + 1).contains(
                        i2 as usize,
                    ) implies ctx.spec_resolved_at(i2) == bc0.spec_resolved_at(i2)
                    && ctx.spec_vars_at(i2) == bc0.spec_vars_at(i2) by {
                    if selection_vector@.subrange(0, k as int).contains(i2 as usize) {
                        let kw = choose|kw: int|
                            0 <= kw < k && selection_vector@.subrange(0, k as int)[kw] == i2
                                as usize;
                        assert(selection_vector@.subrange(0, k + 1)[kw] == i2 as usize);
                        assert(false);
                    }
                    assert(i2 != i as int);
                }
            }
            k += 1;
        }
        proof {
            assert(selection_vector@.subrange(0, svlen as int) =~= selection_vector@);
        }
    }
}

impl Block {
    /// Batch evaluation of the block: reproduces, for every selected row
    /// independently, exactly the error-or-value outcome that single-record
    /// resolution of the block would produce, while traversing the child
    /// sequence once for the whole batch. It keeps a shrinking selection
    /// vector: after each child, the rows whose slot now holds an error drop
    /// out of all later children — fail-fast, row by row. Rows not selected
    /// are never touched. Afterwards every selected row's scope is restored
    /// to its entry length, exactly as single-record resolution restores it.
    pub fn resolve_batch(&self, ctx: &mut BatchContext, selection_vector: &[usize])
        requires
            block_no_empty_blocks(*self),
            old(ctx).wf(),
            forall|k: int|
                0 <= k < selection_vector@.len() ==> (#[trigger] selection_vector@[k]) < old(ctx).spec_len(),
            forall|k1: int, k2: int|
                0 <= k1 < k2 < selection_vector@.len() ==> selection_vector@[k1]
                    != selection_vector@[k2],
        ensures
            final(ctx).wf(),
            final(ctx).spec_len() == old(ctx).spec_len(),
            forall|i: int|
                0 <= i < old(ctx).spec_len() ==> final(ctx).spec_target_at(i) == old(ctx).spec_target_at(i),
            forall|i: int|
                0 <= i < old(ctx).spec_len() && !selection_vector@.contains(i as usize) ==> final(ctx).spec_resolved_at(i) == old(ctx).spec_resolved_at(i) && final(ctx).spec_vars_at(i)
                    == old(ctx).spec_vars_at(i),
            forall|k: int|
                0 <= k < selection_vector@.len() ==> final(ctx).spec_resolved_at(
                    (#[trigger] selection_vector@[k]) as int,
                ) == eval_block(
                    *self,
                    old(ctx).spec_target_at(selection_vector@[k] as int),
                    old(ctx).spec_vars_at(selection_vector@[k] as int),
                ).result,
            forall|k: int|
                0 <= k < selection_vector@.len() ==> final(ctx).spec_vars_at(
                    (#[trigger] selection_vector@[k]) as int,
                ) == eval_block(
                    *self,
                    old(ctx).spec_target_at(selection_vector@[k] as int),
                    old(ctx).spec_vars_at(selection_vector@[k] as int),
                ).vars,
        decreases self, 1int,
    {
        let ghost bc0 = *old(ctx);
        let svlen = selection_vector.len();
        let n = self.inner.len();
        // remember each selected row's scope depth, to restore it at the end
        let mut entry_lens: Vec<usize> = Vec::new();
        let mut k: usize = 0;
        while k < svlen
            invariant
                svlen == selection_vector@.len(),
                0 <= k <= svlen,
                bc0 == *old(ctx),
                bc0.wf(),
                *ctx == bc0,
                forall|k2: int|
                    0 <= k2 < svlen ==> (#[trigger] selection_vector@[k2]) < bc0.spec_len(),
                entry_lens@.len() == k,
                forall|k2: int|
                    0 <= k2 < k ==> (#[trigger] entry_lens@[k2]) == bc0.spec_vars_at(
                        selection_vector@[k2] as int,
                    ).len(),
            decreases svlen - k,
        {
            entry_lens.push(ctx.vars_len_of(selection_vector[k]));
            k += 1;
        }
        // the incoming selection vector, as the first child's alive set
        let mut alive: Vec<usize> = Vec::new();
        k = 0;
        while k < svlen
            invariant
                svlen == selection_vector@.len(),
                0 <= k <= svlen,
                bc0 == *old(ctx),
                *ctx == bc0,
                alive@ == selection_vector@.subrange(0, k as int),
            decreases svlen - k,
        {
            alive.push(selection_vector[k]);
            proof {
                assert(alive@ =~= selection_vector@.subrange(0, k + 1));
            }
            k += 1;
        }
        proof {
            assert(alive@ =~= selection_vector@);
        }
        let mut next_alive: Vec<usize> = Vec::new();
        let mut j: usize = 0;
        while j < n
            invariant
                block_no_empty_blocks(*self),
                svlen == selection_vector@.len(),
                n == self.spec_inner().len(),
                1 <= n,
                0 <= j <= n,
                bc0 == *old(ctx),
                bc0.wf(),
                ctx.wf(),
                ctx.spec_len() == bc0.spec_len(),
                forall|k2: int|
                    0 <= k2 < svlen ==> (#[trigger] selection_vector@[k2]) < bc0.spec_len(),
                forall|k1: int, k2: int|
                    0 <= k1 < k2 < svlen ==> selection_vector@[k1] != selection_vector@[k2],
                forall|i: int|
                    0 <= i < bc0.spec_len() ==> ctx.spec_target_at(i) == bc0.spec_target_at(i),
                forall|i: int|
                    0 <= i < bc0.spec_len() && !selection_vector@.contains(i as usize)
                        ==> ctx.spec_resolved_at(i) == bc0.spec_resolved_at(i) && ctx.spec_vars_at(
                        i,
                    ) == bc0.spec_vars_at(i),
                j == 0 ==> (forall|i: int|
                    0 <= i < bc0.spec_len() ==> ctx.spec_resolved_at(i) == bc0.spec_resolved_at(i)
                        && ctx.spec_vars_at(i) == bc0.spec_vars_at(i)),
                j == 0 ==> alive@ == selection_vector@,
                j > 0 ==> forall|k2: int|
                    0 <= k2 < svlen ==> row_matches(
                        self.spec_inner().subrange(0, j as int),
                        bc0,
                        *ctx,
                        #[trigger] selection_vector@[k2],
                    ),
                j > 0 ==> alive@ == live_filter(
                    self.spec_inner().subrange(0, j as int),
                    bc0,
                    selection_vector@,
                ),
            decreases n - j,
        {
            let ghost prefix = self.spec_inner().subrange(0, j as int);
            let ghost prefix1 = self.spec_inner().subrange(0, j + 1);
            proof {
                if j > 0 {
                    lemma_live_filter_elems(prefix, bc0, selection_vector@);
                    lemma_live_filter_distinct(prefix, bc0, selection_vector@);
                    assert forall|m: int| 0 <= m < alive@.len() implies (#[trigger] alive@[m])
                        < ctx.spec_len() by {
                        let kw = choose|kw: int|
                            0 <= kw < selection_vector@.len() && selection_vector@[kw] == alive@[m];
                    }
                }
            }
            proof {
                assert(seq_no_empty_blocks(self.spec_inner()));
                assert(expr_no_empty_blocks(self.spec_inner()[j as int]));
            }
            let ghost bc_j = *ctx;
            self.inner[j].resolve_batch(ctx, alive.as_slice());
            proof {
                lemma_live_filter_complete(prefix, bc0, selection_vector@);
                assert(prefix1[j as int] == self.spec_inner()[j as int]);
                assert(prefix1.subrange(0, j as int) =~= prefix);
                assert(prefix1.subrange(j as int, prefix1.len() as int).len() == 1);
                assert(prefix1.subrange(j as int, prefix1.len() as int)[0] == self.spec_inner()[
                    j as int]);
                assert forall|k2: int| 0 <= k2 < svlen implies row_matches(
                    prefix1,
                    bc0,
                    *ctx,
                    #[trigger] selection_vector@[k2],
                ) by {
                    let r = selection_vector@[k2];
                    let i = r as int;
                    let t0 = bc0.spec_target_at(i);
                    let v0 = bc0.spec_vars_at(i);
                    let o_pre = eval_seq(prefix, t0, v0);
                    let o_new = eval_seq(prefix1, t0, v0);
                    if j > 0 {
                        lemma_eval_seq_split(prefix1, j as int, t0, v0);
                    } else {
                        assert(prefix1.len() == 1);
                        assert(o_pre == EvalOut { result: Ok(Value::Null), vars: v0 });
                    }
                    if o_pre.result is Ok {
                        // the row was still alive: this child ran on it
                        if j == 0 {
                            assert(alive@.contains(r));
                            let m = choose|m: int| 0 <= m < alive@.len() && alive@[m] == r;
                        } else {
                            assert(row_live(prefix, bc0, r));
                            assert(alive@.contains(r));
                        }
                        let m = choose|m: int| 0 <= m < alive@.len() && alive@[m] == r;
                        assert(bc_j.spec_target_at(i) == t0);
                        assert(bc_j.spec_vars_at(i) == o_pre.vars) by {
                            if j > 0 {
                                assert(row_matches(prefix, bc0, bc_j, r));
                            }
                        }
                        assert(ctx.spec_resolved_at(i) == eval(
                            self.spec_inner()[j as int],
                            t0,
                            o_pre.vars,
                        ).result);
                        assert(ctx.spec_vars_at(i) == eval(
                            self.spec_inner()[j as int],
                            t0,
                            o_pre.vars,
                        ).vars);
                    } else {
                        // the row dropped out earlier: this child skipped it
                        assert(!alive@.contains(r)) by {
                            if alive@.contains(r) {
                                let m = choose|m: int| 0 <= m < alive@.len() && alive@[m] == r;
                                if j > 0 {
                                    assert(row_live(prefix, bc0, alive@[m]));
                                } else {
                                    assert(o_pre.result is Ok);
                                }
                                assert(false);
                            }
                        }
                        assert(ctx.spec_resolved_at(i) == bc_j.spec_resolved_at(i)
                            && ctx.spec_vars_at(i) == bc_j.spec_vars_at(i));
                        if j > 0 {
                            assert(row_matches(prefix, bc0, bc_j, r));
                        }
                        assert(o_new == o_pre);
                    }
                }
            }
            let ghost bc1 = *ctx;
            next_alive.clear();
            let mut k2: usize = 0;
            while k2 < svlen
                invariant
                    svlen == selection_vector@.len(),
                    0 <= k2 <= svlen,
                    bc0.wf(),
                    *ctx == bc1,
                    bc1.wf(),
                    bc1.spec_len() == bc0.spec_len(),
                    n == self.spec_inner().len(),
                    0 <= j < n,
                    prefix1 == self.spec_inner().subrange(0, j + 1),
                    forall|kk: int|
                        0 <= kk < svlen ==> (#[trigger] selection_vector@[kk]) < bc0.spec_len(),
                    forall|kk: int|
                        0 <= kk < svlen ==> row_matches(
                            prefix1,
                            bc0,
                            bc1,
                            #[trigger] selection_vector@[kk],
                        ),
                    next_alive@ == live_filter(
                        prefix1,
                        bc0,
                        selection_vector@.subrange(0, k2 as int),
                    ),
                decreases svlen - k2,
            {
                let i = selection_vector[k2];
                proof {
                    assert(row_matches(prefix1, bc0, bc1, selection_vector@[k2 as int]));
                    assert(selection_vector@.subrange(0, k2 + 1).drop_last()
                        =~= selection_vector@.subrange(0, k2 as int));
                    assert(selection_vector@.subrange(0, k2 + 1).last() == selection_vector@[
                        k2 as int]);
                }
                if ctx.resolved_is_ok(i) {
                    next_alive.push(i);
                }
                k2 += 1;
            }
            proof {
                assert(selection_vector@.subrange(0, svlen as int) =~= selection_vector@);
            }
            core::mem::swap(&mut alive, &mut next_alive);
            j += 1;
        }
        proof {
            assert(self.spec_inner().subrange(0, n as int) =~= self.spec_inner());
        }
        // restore every selected row's scope to its entry depth
        let ghost bc_full = *ctx;
        k = 0;
        while k < svlen
            invariant
                svlen == selection_vector@.len(),
                0 <= k <= svlen,
                bc0 == *old(ctx),
                bc0.wf(),
                ctx.wf(),
                ctx.spec_len() == bc0.spec_len(),
                bc_full.wf(),
                bc_full.spec_len() == bc0.spec_len(),
                n == self.spec_inner().len(),
                1 <= n,
                entry_lens@.len() == svlen,
                forall|k2: int|
                    0 <= k2 < svlen ==> (#[trigger] entry_lens@[k2]) == bc0.spec_vars_at(
                        selection_vector@[k2] as int,
                    ).len(),
                forall|k2: int|
                    0 <= k2 < svlen ==> (#[trigger] selection_vector@[k2]) < bc0.spec_len(),
                forall|k1: int, k2: int|
                    0 <= k1 < k2 < svlen ==> selection_vector@[k1] != selection_vector@[k2],
                forall|i: int|
                    0 <= i < bc0.spec_len() ==> ctx.spec_target_at(i) == bc0.spec_target_at(i),
                forall|i: int|
                    0 <= i < bc0.spec_len() && !selection_vector@.contains(i as usize)
                        ==> ctx.spec_resolved_at(i) == bc0.spec_resolved_at(i) && ctx.spec_vars_at(
                        i,
                    ) == bc0.spec_vars_at(i),
                forall|k2: int|
                    0 <= k2 < svlen ==> row_matches(
                        self.spec_inner(),
                        bc0,
                        bc_full,
                        #[trigger] selection_vector@[k2],
                    ),
                forall|k2: int|
                    0 <= k2 < svlen ==> ctx.spec_resolved_at(
                        (#[trigger] selection_vector@[k2]) as int,
                    ) == bc_full.spec_resolved_at(selection_vector@[k2] as int),
                forall|k2: int|
                    k <= k2 < svlen ==> ctx.spec_vars_at(
                        (#[trigger] selection_vector@[k2]) as int,
                    ) == bc_full.spec_vars_at(selection_vector@[k2] as int),
                forall|k2: int|
                    0 <= k2 < k ==> ctx.spec_vars_at(
                        (#[trigger] selection_vector@[k2]) as int,
                    ) == eval_block(
                        *self,
                        bc0.spec_target_at(selection_vector@[k2] as int),
                        bc0.spec_vars_at(selection_vector@[k2] as int),
                    ).vars,
            decreases svlen - k,
        {
            let i = selection_vector[k];
            proof {
                let t0 = bc0.spec_target_at(i as int);
                let v0 = bc0.spec_vars_at(i as int);
                lemma_eval_seq_extends(self.spec_inner(), t0, v0);
                assert(row_matches(self.spec_inner(), bc0, bc_full, selection_vector@[k as int]));
            }
            ctx.truncate_vars_of(i, entry_lens[k]);
            proof {
                assert forall|k2: int|
                    0 <= k2 < svlen && k2 != k implies (#[trigger] selection_vector@[k2]) as int
                    != i as int by {}
            }
            k += 1;
        }
        proof {
            assert forall|k2: int| 0 <= k2 < svlen implies ctx.spec_resolved_at(
                (#[trigger] selection_vector@[k2]) as int,
            ) == eval_block(
                *self,
                bc0.spec_target_at(selection_vector@[k2] as int),
                bc0.spec_vars_at(selection_vector@[k2] as int),
            ).result by {
                assert(row_matches(self.spec_inner(), bc0, bc_full, selection_vector@[k2]));
            }
        }
    }
}

/// A violation found while a tree is compiled. Both are bugs in the front
/// end that built the tree, not in user input, and both are fatal to
/// compilation: no execution backend may run a tree that was not validated.
#[derive(Clone, Copy, Debug, PartialEq, Eq, Structural)]
pub enum CompileError {
    /// A block with no child expression.
    EmptyBlock,
    /// An expression sequenced after one whose type is "never": dead code
    /// must be truncated before the tree is built, never handed over as
    /// data.
    UnreachableExpression,
}

/// What one step of type inference yields: the expression's type, and the
/// local environment as binding constructs left it for later siblings.
pub ghost struct InferOut {
    pub type_def: TypeDef,
    pub env: Seq<(u32, TypeDef)>,
}

/// The running state of typing a block's children: the most recent child's
/// type and the OR of every child's flags so far.
pub ghost struct BlockInfer {
    pub last: TypeDef,
    pub fallible: bool,
    pub abortable: bool,
}

/// The exact shape of a known value, with no flags: what a literal is
/// statically known to produce.
pub open spec fn value_shape(v: Value) -> TypeDef {
    TypeDef {
        contains_null: v is Null,
        contains_boolean: v is Boolean,
        contains_integer: v is Integer,
        contains_timestamp: v is Timestamp,
        fallible: false,
        abortable: false,
    }
}

fn value_shape_exec(v: &Value) -> (t: TypeDef)
    ensures
        t == value_shape(*v),
{
    TypeDef {
        contains_null: matches!(v, Value::Null),
        contains_boolean: matches!(v, Value::Boolean(_)),
        contains_integer: matches!(v, Value::Integer(_)),
        contains_timestamp: matches!(v, Value::Timestamp(_)),
        fallible: false,
        abortable: false,
    }
}

/// The static typing rules: the type of `e` under the local environment
/// `env` and the program-wide state `ext`, together with the environment
/// left for later siblings (only assignments change it). Inference is
/// bottom-up and pure with respect to run-time state.
pub open spec fn infer(e: Expr, env: Seq<(u32, TypeDef)>, ext: ExternalEnv) -> InferOut
    decreases e,
{
    match e {
        Expr::Literal(v) => InferOut { type_def: value_shape(v), env },
        Expr::Target => InferOut { type_def: ext.target, env },
        Expr::Variable(id) => InferOut {
            type_def: match spec_get(env, id) {
                Some(td) => td,
                None => value_shape(Value::Null),
            },
            env,
        },
        Expr::Assignment(id, rhs) => {
            let o = infer(*rhs, env, ext);
            if o.type_def.spec_is_never() {
                o
            } else {
                InferOut {
                    type_def: o.type_def,
                    env: spec_bind(
                        o.env,
                        id,
                        TypeDef { fallible: false, abortable: false, ..o.type_def },
                    ),
                }
            }
        },
        Expr::Add(a, b) => {
            let oa = infer(*a, env, ext);
            let ob = infer(*b, oa.env, ext);
            let never = oa.type_def.spec_is_never() || ob.type_def.spec_is_never();
            InferOut {
                type_def: TypeDef {
                    contains_null: false,
                    contains_boolean: false,
                    contains_integer: !never,
                    contains_timestamp: false,
                    fallible: oa.type_def.fallible || ob.type_def.fallible || !never,
                    abortable: oa.type_def.abortable || ob.type_def.abortable,
                },
                env: ob.env,
            }
        },
        Expr::Equals(a, b) => {
            let oa = infer(*a, env, ext);
            let ob = infer(*b, oa.env, ext);
            let never = oa.type_def.spec_is_never() || ob.type_def.spec_is_never();
            InferOut {
                type_def: TypeDef {
                    contains_null: false,
                    contains_boolean: !never,
                    contains_integer: false,
                    contains_timestamp: false,
                    fallible: oa.type_def.fallible || ob.type_def.fallible,
                    abortable: oa.type_def.abortable || ob.type_def.abortable,
                },
                env: ob.env,
            }
        },
        Expr::FailIf { condition, code } => {
            let o = infer(*condition, env, ext);
            let never = o.type_def.spec_is_never();
            InferOut {
                type_def: TypeDef {
                    contains_null: !never,
                    contains_boolean: false,
                    contains_integer: false,
                    contains_timestamp: false,
                    fallible: o.type_def.fallible || !never,
                    abortable: o.type_def.abortable,
                },
                env: o.env,
            }
        },
        Expr::Abort(_) => InferOut {
            type_def: TypeDef {
                contains_null: false,
                contains_boolean: false,
                contains_integer: false,
                contains_timestamp: false,
                fallible: false,
                abortable: true,
            },
            env,
        },
        Expr::Block(b) => InferOut { type_def: infer_block(b, ext), env },
    }
}

/// Folding the typing rules over a block's children: the most recent type
/// and the OR of all flags. An empty sequence (rejected at compile time)
/// types as null.
pub open spec fn infer_seq(
    children: Seq<Expr>,
    env: Seq<(u32, TypeDef)>,
    ext: ExternalEnv,
) -> BlockInfer
    decreases children,
{
    if children.len() == 0 {
        BlockInfer { last: value_shape(Value::Null), fallible: false, abortable: false }
    } else {
        let o = infer(children[0], env, ext);
        if children.len() == 1 {
            BlockInfer {
                last: o.type_def,
                fallible: o.type_def.fallible,
                abortable: o.type_def.abortable,
            }
        } else {
            let rest = infer_seq(children.subrange(1, children.len() as int), o.env, ext);
            BlockInfer {
                last: rest.last,
                fallible: o.type_def.fallible || rest.fallible,
                abortable: o.type_def.abortable || rest.abortable,
            }
        }
    }
}

/// A block's type: the last child's type carrying the OR of every child's
/// flags, computed under the block's own scope snapshot.
pub open spec fn infer_block(b: Block, ext: ExternalEnv) -> TypeDef
    decreases b,
{
    let s = infer_seq(b.spec_inner(), b.spec_local_env(), ext);
    TypeDef { fallible: s.fallible, abortable: s.abortable, ..s.last }
}

/// The first violation the compile pass finds in `e`, walking the tree in
/// evaluation order, or nothing when the tree is sound.
pub open spec fn expr_diag(e: Expr, env: Seq<(u32, TypeDef)>, ext: ExternalEnv) -> Option<
    CompileError,
>
    decreases e,
{
    match e {
        Expr::Assignment(id, rhs) => expr_diag(*rhs, env, ext),
        Expr::Add(a, b) => match expr_diag(*a, env, ext) {
            Some(c) => Some(c),
            None => expr_diag(*b, infer(*a, env, ext).env, ext),
        },
        Expr::Equals(a, b) => match expr_diag(*a, env, ext) {
            Some(c) => Some(c),
            None => expr_diag(*b, infer(*a, env, ext).env, ext),
        },
        Expr::FailIf { condition, code } => expr_diag(*condition, env, ext),
        Expr::Block(b) => block_diag(b, ext),
        _ => None,
    }
}

pub open spec fn seq_diag(
    children: Seq<Expr>,
    env: Seq<(u32, TypeDef)>,
    ext: ExternalEnv,
) -> Option<CompileError>
    decreases children,
{
    if children.len() == 0 {
        Some(CompileError::EmptyBlock)
    } else {
        match expr_diag(children[0], env, ext) {
            Some(c) => Some(c),
            None => if children.len() == 1 {
                None
            } else {
                let o = infer(children[0], env, ext);
                if o.type_def.spec_is_never() {
                    Some(CompileError::UnreachableExpression)
                } else {
                    seq_diag(children.subrange(1, children.len() as int), o.env, ext)
                }
            },
        }
    }
}

pub open spec fn block_diag(b: Block, ext: ExternalEnv) -> Option<CompileError>
    decreases b,
{
    seq_diag(b.spec_inner(), b.spec_local_env(), ext)
}

/// A tree on which the compile pass finds nothing to reject.
pub open spec fn expr_wf(e: Expr, env: Seq<(u32, TypeDef)>, ext: ExternalEnv) -> bool {
    expr_diag(e, env, ext) is None
}

pub open spec fn block_wf(b: Block, ext: ExternalEnv) -> bool {
    block_diag(b, ext) is None
}

impl Expr {
    /// One step of the compile pass: types this expression, threading the
    /// local environment, or reports the first violation found inside it.
    fn check(&self, local: &mut LocalEnv, external: &ExternalEnv) -> (r: Result<
        TypeDef,
        CompileError,
    >)
        ensures
            expr_diag(*self, old(local)@, *external) is None ==> r == Ok::<TypeDef, CompileError>(
                infer(*self, old(local)@, *external).type_def,
            ) && final(local)@ == infer(*self, old(local)@, *external).env,
            expr_diag(*self, old(local)@, *external) matches Some(c) ==> r == Err::<
                TypeDef,
                CompileError,
            >(c),
        decreases self, 0int,
    {
        match self {
            Expr::Literal(v) => Ok(value_shape_exec(v)),
            Expr::Target => Ok(external.target),
            Expr::Variable(id) => Ok(
                match local.variable(*id) {
                    Some(td) => td,
                    None => TypeDef::null(),
                },
            ),
            Expr::Assignment(id, rhs) => {
                match rhs.check(local, external) {
                    Ok(td) => {
                        if td.is_never() {
                            Ok(td)
                        } else {
                            local.assign(
                                *id,
                                td.with_fallibility(false).with_abortability(false),
                            );
                            Ok(td)
                        }
                    },
                    Err(c) => Err(c),
                }
            },
            Expr::Add(a, b) => {
                match a.check(local, external) {
                    Ok(ta) => match b.check(local, external) {
                        Ok(tb) => {
                            let never = ta.is_never() || tb.is_never();
                            Ok(
                                TypeDef {
                                    contains_null: false,
                                    contains_boolean: false,
                                    contains_integer: !never,
                                    contains_timestamp: false,
                                    fallible: ta.is_fallible() || tb.is_fallible() || !never,
                                    abortable: ta.is_abortable() || tb.is_abortable(),
                                },
                            )
                        },
                        Err(c) => Err(c),
                    },
                    Err(c) => Err(c),
                }
            },
            Expr::Equals(a, b) => {
                match a.check(local, external) {
                    Ok(ta) => match b.check(local, external) {
                        Ok(tb) => {
                            let never = ta.is_never() || tb.is_never();
                            Ok(
                                TypeDef {
                                    contains_null: false,
                                    contains_boolean: !never,
                                    contains_integer: false,
                                    contains_timestamp: false,
                                    fallible: ta.is_fallible() || tb.is_fallible(),
                                    abortable: ta.is_abortable() || tb.is_abortable(),
                                },
                            )
                        },
                        Err(c) => Err(c),
                    },
                    Err(c) => Err(c),
                }
            },
            Expr::FailIf { condition, code } => {
                match condition.check(local, external) {
                    Ok(tc) => {
                        let never = tc.is_never();
                        Ok(
                            TypeDef {
                                contains_null: !never,
                                contains_boolean: false,
                                contains_integer: false,
                                contains_timestamp: false,
                                fallible: tc.is_fallible() || !never,
                                abortable: tc.is_abortable(),
                            },
                        )
                    },
                    Err(c) => Err(c),
                }
            },
            Expr::Abort(_) => Ok(
                TypeDef {
                    contains_null: false,
                    contains_boolean: false,
                    contains_integer: false,
                    contains_timestamp: false,
                    fallible: false,
                    abortable: true,
                },
            ),
            Expr::Block(b) => match b.compile(external) {
                Ok(td) => Ok(td),
                Err(c) => Err(c),
            },
        }
    }

    /// Static type inference, as the expression abstraction exposes it: the
    /// statically possible result shape and the error and abort flags. Pure
    /// with respect to run-time state; a binding construct updates `local`
    /// for its later siblings. May only be called on a tree the compile
    /// pass has validated.
    pub fn type_def(&self, local: &mut LocalEnv, external: &ExternalEnv) -> (td: TypeDef)
        requires
            expr_wf(*self, old(local)@, *external),
        ensures
            td == infer(*self, old(local)@, *external).type_def,
            final(local)@ == infer(*self, old(local)@, *external).env,
        decreases self, 1int,
    {
        match self.check(local, external) {
            Ok(td) => td,
            Err(_) => vstd::pervasive::unreached(),
        }
    }
}

impl Block {
    /// The compile entry point: validates the whole tree (no empty block,
    /// nothing sequenced after a "never"-typed expression) and computes the
    /// block's type, or reports the first violation found, in evaluation
    /// order. The pass must run, and succeed, before any execution backend
    /// may run the tree.
    pub fn compile(&self, external: &ExternalEnv) -> (r: Result<TypeDef, CompileError>)
        ensures
            block_diag(*self, *external) is None ==> r == Ok::<TypeDef, CompileError>(
                infer_block(*self, *external),
            ),
            block_diag(*self, *external) matches Some(c) ==> r == Err::<TypeDef, CompileError>(c),
        decreases self, 1int,
    {
        let n = self.inner.len();
        if n == 0 {
            return Err(CompileError::EmptyBlock);
        }
        let mut env = self.local_env.snapshot();
        let mut last = TypeDef::null();
        let mut fallible = false;
        let mut abortable = false;
        let mut i: usize = 0;
        proof {
            assert(self.inner@.subrange(0, n as int) =~= self.inner@);
        }
        while i < n
            invariant
                n == self.spec_inner().len(),
                1 <= n,
                0 <= i <= n,
                i < n ==> block_diag(*self, *external) == seq_diag(
                    self.spec_inner().subrange(i as int, n as int),
                    env@,
                    *external,
                ),
                i < n ==> infer_seq(self.spec_inner(), self.spec_local_env(), *external).last
                    == infer_seq(
                    self.spec_inner().subrange(i as int, n as int),
                    env@,
                    *external,
                ).last,
                i < n ==> infer_seq(self.spec_inner(), self.spec_local_env(), *external).fallible
                    == (fallible || infer_seq(
                    self.spec_inner().subrange(i as int, n as int),
                    env@,
                    *external,
                ).fallible),
                i < n ==> infer_seq(self.spec_inner(), self.spec_local_env(), *external).abortable
                    == (abortable || infer_seq(
                    self.spec_inner().subrange(i as int, n as int),
                    env@,
                    *external,
                ).abortable),
                i == n ==> block_diag(*self, *external) is None && infer_seq(
                    self.spec_inner(),
                    self.spec_local_env(),
                    *external,
                ) == (BlockInfer { last, fallible, abortable }),
            decreases n - i,
        {
            let ghost suffix = self.spec_inner().subrange(i as int, n as int);
            let ghost env_in = env@;
            proof {
                assert(suffix[0] == self.spec_inner()[i as int]);
                if i + 1 < n {
                    assert(suffix.subrange(1, suffix.len() as int) =~= self.spec_inner().subrange(
                        i + 1,
                        n as int,
                    ));
                }
            }
            match self.inner[i].check(&mut env, external) {
                Err(c) => {
                    return Err(c);
                },
                Ok(td) => {
                    proof {
                        assert(expr_diag(self.spec_inner()[i as int], env_in, *external) is None);
                        assert(env@ == infer(self.spec_inner()[i as int], env_in, *external).env);
                    }
                    if i < n - 1 {
                        if td.is_never() {
                            return Err(CompileError::UnreachableExpression);
                        }
                    }
                    last = td;
                    fallible = fallible || td.is_fallible();
                    abortable = abortable || td.is_abortable();
                },
            }
            i += 1;
        }
        Ok(last.with_fallibility(fallible).with_abortability(abortable))
    }

    /// The block's type, for a tree the compile pass has validated: the last
    /// child's type with the OR of every child's flags. The children are
    /// typed under the block's own scope snapshot; the caller's environment
    /// is left untouched — bindings inside the block are invisible to the
    /// type inference of anything after it.
    pub fn type_def(&self, local: &mut LocalEnv, external: &ExternalEnv) -> (td: TypeDef)
        requires
            block_wf(*self, *external),
        ensures
            td == infer_block(*self, *external),
            final(local)@ == old(local)@,
        decreases self, 2int,
    {
        match self.compile(external) {
            Ok(td) => td,
            Err(_) => vstd::pervasive::unreached(),
        }
    }
}

/// Law (fail-fast ordering): in a sequence whose first child errors, the
/// later children contribute nothing — the sequence's outcome is exactly
/// the first child's error, and the variable store is exactly as that child
/// left it, untouched by anything after it. Both backends resolve a block
/// against `eval_seq`, so neither evaluates a child after the first error.
pub proof fn lemma_fail_fast(children: Seq<Expr>, target: Value, vars: Seq<(u32, Value)>)
    requires
        children.len() >= 1,
        eval(children[0], target, vars).result is Err,
    ensures
        eval_seq(children, target, vars) == eval(children[0], target, vars),
{
}

/// Law (fail-fast ordering, at block level): a block whose first child
/// errors for a record yields exactly that error, with only the scope
/// restoration applied to the store the failing child left.
pub proof fn lemma_block_fail_fast(b: Block, target: Value, vars: Seq<(u32, Value)>)
    requires
        b.spec_inner().len() >= 1,
        eval(b.spec_inner()[0], target, vars).result is Err,
    ensures
        eval_block(b, target, vars).result == eval(b.spec_inner()[0], target, vars).result,
        eval_block(b, target, vars).vars == eval(b.spec_inner()[0], target, vars).vars.subrange(
            0,
            vars.len() as int,
        ),
{
    lemma_fail_fast(b.inner@, target, vars);
}

/// Law (fail-fast ordering, at any position): when the first `k` children
/// of a sequence succeed and child `k` errors, the sequence's outcome is
/// exactly child `k`'s error, with the variable store exactly as that child
/// left it — the children after position `k` contribute nothing, in either
/// backend.
pub proof fn lemma_fail_fast_at(
    children: Seq<Expr>,
    k: int,
    target: Value,
    vars: Seq<(u32, Value)>,
)
    requires
        0 <= k < children.len(),
        eval_seq(children.subrange(0, k), target, vars).result is Ok,
        eval(
            children[k],
            target,
            eval_seq(children.subrange(0, k), target, vars).vars,
        ).result is Err,
    ensures
        eval_seq(children, target, vars) == eval(
            children[k],
            target,
            eval_seq(children.subrange(0, k), target, vars).vars,
        ),
{
    if k == 0 {
        assert(children.subrange(0, 0) =~= Seq::<Expr>::empty());
        assert(eval_seq(children.subrange(0, 0), target, vars).vars == vars);
    } else {
        lemma_eval_seq_split(children, k, target, vars);
        let o = eval_seq(children.subrange(0, k), target, vars);
        let suffix = children.subrange(k, children.len() as int);
        assert(suffix[0] == children[k]);
        assert(eval_seq(suffix, target, o.vars) == eval(children[k], target, o.vars));
    }
}

/// Law (scope restoration): a block leaves the type-inference environment
/// of its caller untouched, and at run time it leaves the variable store
/// with exactly its entry length and identifier layout — so a variable
/// first bound inside the block is neither visible to type inference nor
/// readable at run time once the block has ended.
pub proof fn lemma_scope_restoration(
    b: Block,
    target: Value,
    vars: Seq<(u32, Value)>,
    env: Seq<(u32, TypeDef)>,
    ext: ExternalEnv,
    id: u32,
)
    ensures
        infer(Expr::Block(b), env, ext).env == env,
        eval_block(b, target, vars).vars.len() == vars.len(),
        forall|j: int|
            0 <= j < vars.len() ==> (#[trigger] eval_block(b, target, vars).vars[j]).0
                == vars[j].0,
        spec_find(vars, id) == -1 ==> spec_get(eval_block(b, target, vars).vars, id) is None,
{
    lemma_eval_seq_extends(b.inner@, target, vars);
    let o = eval_seq(b.inner@, target, vars);
    let out = eval_block(b, target, vars);
    assert(out.vars == o.vars.subrange(0, vars.len() as int));
    assert forall|j: int| 0 <= j < vars.len() implies (#[trigger] out.vars[j]).0 == vars[j].0 by {
        assert(out.vars[j] == o.vars[j]);
    }
    if spec_find(vars, id) == -1 {
        lemma_find_same_ids::<Value, Value>(out.vars, vars, id);
        lemma_find_props::<Value>(out.vars, id);
    }
}

/// The local environment in force when child `i` of a sequence is typed:
/// the starting environment as reshaped by the children before it.
pub open spec fn seq_env_at(
    children: Seq<Expr>,
    env: Seq<(u32, TypeDef)>,
    ext: ExternalEnv,
    i: int,
) -> Seq<(u32, TypeDef)>
    decreases i,
{
    if i <= 0 {
        env
    } else {
        infer(children[i - 1], seq_env_at(children, env, ext, i - 1), ext).env
    }
}

/// The type inferred for child `i` of a sequence, under the environment its
/// earlier siblings produced.
pub open spec fn child_type(
    children: Seq<Expr>,
    env: Seq<(u32, TypeDef)>,
    ext: ExternalEnv,
    i: int,
) -> TypeDef {
    infer(children[i], seq_env_at(children, env, ext, i), ext).type_def
}

proof fn lemma_env_shift(children: Seq<Expr>, env: Seq<(u32, TypeDef)>, ext: ExternalEnv, i: int)
    requires
        children.len() >= 2,
        0 <= i <= children.len() - 1,
    ensures
        seq_env_at(children, env, ext, i + 1) == seq_env_at(
            children.subrange(1, children.len() as int),
            infer(children[0], env, ext).env,
            ext,
            i,
        ),
    decreases i,
{
    let tail = children.subrange(1, children.len() as int);
    let o = infer(children[0], env, ext);
    if i > 0 {
        lemma_env_shift(children, env, ext, i - 1);
        assert(tail[i - 1] == children[i]);
        assert(seq_env_at(children, env, ext, i + 1) == infer(
            children[i],
            seq_env_at(children, env, ext, i),
            ext,
        ).env);
        assert(seq_env_at(tail, o.env, ext, i) == infer(
            tail[i - 1],
            seq_env_at(tail, o.env, ext, i - 1),
            ext,
        ).env);
    } else {
        assert(seq_env_at(children, env, ext, 0) == env);
        assert(seq_env_at(children, env, ext, 1) == o.env);
        assert(seq_env_at(tail, o.env, ext, 0) == o.env);
    }
}

proof fn lemma_infer_seq_flags(children: Seq<Expr>, env: Seq<(u32, TypeDef)>, ext: ExternalEnv)
    requires
        children.len() >= 1,
    ensures
        infer_seq(children, env, ext).fallible <==> exists|i: int|
            0 <= i < children.len() && (#[trigger] child_type(children, env, ext, i)).fallible,
        infer_seq(children, env, ext).abortable <==> exists|i: int|
            0 <= i < children.len() && (#[trigger] child_type(children, env, ext, i)).abortable,
        infer_seq(children, env, ext).last == child_type(
            children,
            env,
            ext,
            children.len() - 1,
        ),
    decreases children.len(),
{
    let o = infer(children[0], env, ext);
    assert(seq_env_at(children, env, ext, 0) == env);
    if children.len() == 1 {
        assert(child_type(children, env, ext, 0) == o.type_def);
        if infer_seq(children, env, ext).fallible {
            assert(child_type(children, env, ext, 0).fallible);
        }
        if infer_seq(children, env, ext).abortable {
            assert(child_type(children, env, ext, 0).abortable);
        }
    } else {
        let tail = children.subrange(1, children.len() as int);
        lemma_infer_seq_flags(tail, o.env, ext);
        let s = infer_seq(children, env, ext);
        let rest = infer_seq(tail, o.env, ext);
        assert forall|i: int|
            1 <= i < children.len() implies (#[trigger] child_type(children, env, ext, i))
            == child_type(tail, o.env, ext, i - 1) by {
            lemma_env_shift(children, env, ext, i - 1);
            assert(tail[i - 1] == children[i]);
        }
        assert(s.last == rest.last);
        assert(rest.last == child_type(tail, o.env, ext, tail.len() - 1));
        assert(child_type(children, env, ext, children.len() - 1) == child_type(
            tail,
            o.env,
            ext,
            tail.len() - 1,
        ));
        // fallible, forwards
        if s.fallible {
            if o.type_def.fallible {
                assert(child_type(children, env, ext, 0).fallible);
            } else {
                let iw = choose|iw: int|
                    0 <= iw < tail.len() && (#[trigger] child_type(tail, o.env, ext, iw)).fallible;
                assert(child_type(children, env, ext, iw + 1).fallible);
            }
        }
        // fallible, backwards
        if exists|i: int|
            0 <= i < children.len() && (#[trigger] child_type(children, env, ext, i)).fallible {
            let iw = choose|iw: int|
                0 <= iw < children.len() && (#[trigger] child_type(
                    children,
                    env,
                    ext,
                    iw,
                )).fallible;
            if iw == 0 {
                assert(o.type_def.fallible);
            } else {
                assert(child_type(tail, o.env, ext, iw - 1).fallible);
            }
        }
        // abortable, forwards
        if s.abortable {
            if o.type_def.abortable {
                assert(child_type(children, env, ext, 0).abortable);
            } else {
                let iw = choose|iw: int|
                    0 <= iw < tail.len() && (#[trigger] child_type(
                        tail,
                        o.env,
                        ext,
                        iw,
                    )).abortable;
                assert(child_type(children, env, ext, iw + 1).abortable);
            }
        }
        // abortable, backwards
        if exists|i: int|
            0 <= i < children.len() && (#[trigger] child_type(children, env, ext, i)).abortable {
            let iw = choose|iw: int|
                0 <= iw < children.len() && (#[trigger] child_type(
                    children,
                    env,
                    ext,
                    iw,
                )).abortable;
            if iw == 0 {
                assert(o.type_def.abortable);
            } else {
                assert(child_type(tail, o.env, ext, iw - 1).abortable);
            }
        }
    }
}

/// Law (flag aggregation): a block's inferred `fallible` and `abortable`
/// flags are exactly the OR over its children's flags, each child typed
/// under the environment its earlier siblings produced — in particular, a
/// block of all-infallible children is infallible.
pub proof fn lemma_flag_aggregation(b: Block, ext: ExternalEnv)
    requires
        b.spec_inner().len() >= 1,
    ensures
        infer_block(b, ext).fallible <==> exists|i: int|
            0 <= i < b.spec_inner().len() && (#[trigger] child_type(
                b.spec_inner(),
                b.spec_local_env(),
                ext,
                i,
            )).fallible,
        infer_block(b, ext).abortable <==> exists|i: int|
            0 <= i < b.spec_inner().len() && (#[trigger] child_type(
                b.spec_inner(),
                b.spec_local_env(),
                ext,
                i,
            )).abortable,
{
    lemma_infer_seq_flags(b.inner@, b.local_env@, ext);
    let s = infer_seq(b.inner@, b.local_env@, ext);
    assert(infer_block(b, ext) == TypeDef { fallible: s.fallible, abortable: s.abortable, ..s.last });
    let children = b.spec_inner();
    let env = b.spec_local_env();
    assert(children == b.inner@);
    assert(env == b.local_env@);
    if s.fallible {
        let iw = choose|iw: int|
            0 <= iw < b.inner@.len() && (#[trigger] child_type(b.inner@, b.local_env@, ext, iw)).fallible;
        assert(child_type(children, env, ext, iw).fallible);
    }
    if exists|i: int| 0 <= i < children.len() && (#[trigger] child_type(children, env, ext, i)).fallible {
        let iw = choose|iw: int|
            0 <= iw < children.len() && (#[trigger] child_type(children, env, ext, iw)).fallible;
        assert(child_type(b.inner@, b.local_env@, ext, iw).fallible);
    }
    if s.abortable {
        let iw = choose|iw: int|
            0 <= iw < b.inner@.len() && (#[trigger] child_type(b.inner@, b.local_env@, ext, iw)).abortable;
        assert(child_type(children, env, ext, iw).abortable);
    }
    if exists|i: int| 0 <= i < children.len() && (#[trigger] child_type(children, env, ext, i)).abortable {
        let iw = choose|iw: int|
            0 <= iw < children.len() && (#[trigger] child_type(children, env, ext, iw)).abortable;
        assert(child_type(b.inner@, b.local_env@, ext, iw).abortable);
    }
}

/// Law (never-propagation, general form): a block's shape set is exactly
/// its last child's — so a block whose last (terminating) child types as
/// "never" is itself "never" — while its flags are the OR over every
/// child's flags (see [`lemma_flag_aggregation`]).
pub proof fn lemma_block_type_is_last_child(b: Block, ext: ExternalEnv)
    requires
        b.spec_inner().len() >= 1,
    ensures
        infer_block(b, ext) == ({
            let last = child_type(
                b.spec_inner(),
                b.spec_local_env(),
                ext,
                b.spec_inner().len() - 1,
            );
            TypeDef {
                fallible: infer_block(b, ext).fallible,
                abortable: infer_block(b, ext).abortable,
                ..last
            }
        }),
{
    lemma_infer_seq_flags(b.inner@, b.local_env@, ext);
    let s = infer_seq(b.inner@, b.local_env@, ext);
    assert(infer_block(b, ext) == TypeDef {
        fallible: s.fallible,
        abortable: s.abortable,
        ..s.last
    });
    assert(b.spec_inner() == b.inner@);
    assert(b.spec_local_env() == b.local_env@);
}

/// Law (never-propagation): a well-formed block whose first child types as
/// "never" has no further children — construction, not execution, prevents
/// anything from being sequenced after a terminating expression — and the
/// block's own type is that child's type with its flags carried over.
pub proof fn lemma_never_termination(b: Block, ext: ExternalEnv)
    requires
        block_wf(b, ext),
        child_type(b.spec_inner(), b.spec_local_env(), ext, 0).spec_is_never(),
    ensures
        b.spec_inner().len() == 1,
        infer_block(b, ext) == child_type(b.spec_inner(), b.spec_local_env(), ext, 0),
{
    let children = b.inner@;
    let env = b.local_env@;
    assert(seq_env_at(children, env, ext, 0) == env);
    let o = infer(children[0], env, ext);
    if children.len() > 1 {
        assert(seq_diag(children, env, ext) is Some);
    }
    assert(infer_block(b, ext) == TypeDef {
        fallible: o.type_def.fallible,
        abortable: o.type_def.abortable,
        ..o.type_def
    });
}

/// What a well-formed block guarantees: it has at least one child, and its
/// child sequence is clean under the block's own scope snapshot.
pub proof fn lemma_block_wf_unfold(b: Block, ext: ExternalEnv)
    requires
        block_wf(b, ext),
    ensures
        b.spec_inner().len() >= 1,
        seq_diag(b.spec_inner(), b.spec_local_env(), ext) is None,
{
}

/// Peeling one child off a clean sequence: the first child is well formed,
/// only a trailing child may type as "never", and the rest of the sequence
/// is clean under the environment the first child leaves.
pub proof fn lemma_seq_diag_step(children: Seq<Expr>, env: Seq<(u32, TypeDef)>, ext: ExternalEnv)
    requires
        children.len() >= 1,
        seq_diag(children, env, ext) is None,
    ensures
        expr_wf(children[0], env, ext),
        children.len() > 1 ==> !infer(children[0], env, ext).type_def.spec_is_never(),
        children.len() > 1 ==> seq_diag(
            children.subrange(1, children.len() as int),
            infer(children[0], env, ext).env,
            ext,
        ) is None,
{
}

/// The textual rendering of an expression, for diagnostics and debugging;
/// it is never parsed back. Every construct renders as a fixed keyword or
/// operator form; a block renders as one open brace, each child on its own
/// indented line, and a closing brace.
pub open spec fn render_expr(e: Expr) -> Seq<char>
    decreases e,
{
    match e {
        Expr::Literal(_) => "literal"@,
        Expr::Target => "."@,
        Expr::Variable(_) => "variable"@,
        Expr::Assignment(_, rhs) => "variable = "@ + render_expr(*rhs),
        Expr::Add(a, b) => render_expr(*a) + " + "@ + render_expr(*b),
        Expr::Equals(a, b) => render_expr(*a) + " == "@ + render_expr(*b),
        Expr::FailIf { condition, code } => "fail_if("@ + render_expr(*condition) + ")"@,
        Expr::Abort(_) => "abort"@,
        Expr::Block(b) => render_block(b),
    }
}

/// Each child on its own line, indented by one tab.
pub open spec fn render_children(children: Seq<Expr>) -> Seq<char>
    decreases children,
{
    if children.len() == 0 {
        Seq::empty()
    } else if children.len() == 1 {
        "\t"@ + render_expr(children[0])
    } else {
        render_children(children.subrange(0, children.len() - 1)) + "\n"@ + "\t"@ + render_expr(
            children[children.len() - 1],
        )
    }
}

pub open spec fn render_block(b: Block) -> Seq<char>
    decreases b,
{
    "{\n"@ + render_children(b.spec_inner()) + "\n}"@
}

impl Expr {
    /// Renders the expression for diagnostics.
    pub fn render(&self) -> (s: String)
        ensures
            s@ == render_expr(*self),
        decreases self, 0int,
    {
        match self {
            Expr::Literal(_) => String::from_str("literal"),
            Expr::Target => String::from_str("."),
            Expr::Variable(_) => String::from_str("variable"),
            Expr::Assignment(_, rhs) => {
                let mut s = String::from_str("variable = ");
                let r = rhs.render();
                s.append(r.as_str());
                s
            },
            Expr::Add(a, b) => {
                let mut s = a.render();
                s.append(" + ");
                let r = b.render();
                s.append(r.as_str());
                s
            },
            Expr::Equals(a, b) => {
                let mut s = a.render();
                s.append(" == ");
                let r = b.render();
                s.append(r.as_str());
                s
            },
            Expr::FailIf { condition, code } => {
                let mut s = String::from_str("fail_if(");
                let r = condition.render();
                s.append(r.as_str());
                s.append(")");
                s
            },
            Expr::Abort(_) => String::from_str("abort"),
            Expr::Block(b) => b.render(),
        }
    }
}

impl Block {
    /// Renders the block for diagnostics: one open brace, each child on its
    /// own indented line, a closing brace.
    pub fn render(&self) -> (s: String)
        ensures
            s@ == render_block(*self),
        decreases self, 0int,
    {
        let mut s = String::from_str("{\n");
        let n = self.inner.len();
        let mut i: usize = 0;
        while i < n
            invariant
                n == self.spec_inner().len(),
                0 <= i <= n,
                s@ == "{\n"@ + render_children(self.spec_inner().subrange(0, i as int)),
            decreases n - i,
        {
            if i > 0 {
                s.append("\n");
            }
            s.append("\t");
            let r = self.inner[i].render();
            s.append(r.as_str());
            proof {
                let pre1 = self.spec_inner().subrange(0, i + 1);
                assert(pre1.subrange(0, pre1.len() - 1) =~= self.spec_inner().subrange(
                    0,
                    i as int,
                ));
                assert(pre1[pre1.len() - 1] == self.spec_inner()[i as int]);
                assert(s@ =~= "{\n"@ + render_children(pre1));
            }
            i += 1;
        }
        proof {
            assert(self.spec_inner().subrange(0, n as int) =~= self.spec_inner());
        }
        s.append("\n}");
        proof {
            assert(s@ =~= render_block(*self));
        }
        s
    }
}

/// Law (equivalence across backends): for any expression tree and any
/// record, running the tree through the single-record backend and through
/// the batch backend as a one-row batch yields the identical outcome. The
/// two runs are performed here, and the contract states that they agree.
pub fn backend_equivalence(e: &Expr, target: Value) -> (outcomes: (Resolved, Resolved))
    requires
        expr_no_empty_blocks(*e),
    ensures
        outcomes.0 == outcomes.1,
        outcomes.0 == eval(*e, target, Seq::<(u32, Value)>::empty()).result,
{
    let mut ctx = Context::new(target);
    let single = e.resolve(&mut ctx);
    let mut targets: Vec<Value> = Vec::new();
    targets.push(target);
    let mut batch = BatchContext::new(targets);
    let mut sv: Vec<usize> = Vec::new();
    sv.push(0);
    let ghost b0 = batch;
    proof {
        assert(sv@[0] == 0usize);
        assert(b0.spec_target_at(0) == target);
        assert(b0.spec_vars_at(0) == Seq::<(u32, Value)>::empty());
    }
    e.resolve_batch(&mut batch, sv.as_slice());
    let from_batch = batch.resolved_of(0);
    proof {
        assert(from_batch == eval(*e, target, Seq::empty()).result);
        assert(single == eval(*e, target, Seq::empty()).result);
    }
    (single, from_batch)
}

/// Law (batch/row independence): the batch outcome of a row equals the
/// single-record outcome of that row in isolation, whatever the other row
/// holds and however it fares — here the other row is any record at all,
/// evaluated first in the same batch.
pub fn batch_row_independence(e: &Expr, other: Value, target: Value) -> (outcomes: (
    Resolved,
    Resolved,
))
    requires
        expr_no_empty_blocks(*e),
    ensures
        outcomes.0 == outcomes.1,
        outcomes.0 == eval(*e, target, Seq::<(u32, Value)>::empty()).result,
{
    let mut ctx = Context::new(target);
    let isolated = e.resolve(&mut ctx);
    let mut targets: Vec<Value> = Vec::new();
    targets.push(other);
    targets.push(target);
    let mut batch = BatchContext::new(targets);
    let mut sv: Vec<usize> = Vec::new();
    sv.push(0);
    sv.push(1);
    let ghost b0 = batch;
    proof {
        assert(sv@[0] == 0usize);
        assert(sv@[1] == 1usize);
        assert(b0.spec_target_at(1) == target);
        assert(b0.spec_vars_at(1) == Seq::<(u32, Value)>::empty());
    }
    e.resolve_batch(&mut batch, sv.as_slice());
    let from_batch = batch.resolved_of(1);
    proof {
        assert(from_batch == eval(*e, target, Seq::empty()).result);
        assert(isolated == eval(*e, target, Seq::empty()).result);
    }
    (isolated, from_batch)
}

/// A recoverable run-time error.
pub open spec fn is_recoverable_err(r: Resolved) -> bool {
    match r {
        Err(Error::Recoverable { .. }) => true,
        _ => false,
    }
}

/// An abort-triggering run-time error.
pub open spec fn is_abort_err(r: Resolved) -> bool {
    match r {
        Err(Error::Abort { .. }) => true,
        _ => false,
    }
}

/// No variable is recorded with the impossible ("never") type: a variable
/// only ever holds a value that was actually produced.
pub open spec fn env_has_no_never(env: Seq<(u32, TypeDef)>) -> bool {
    forall|j: int| 0 <= j < env.len() ==> !(#[trigger] env[j]).1.spec_is_never()
}

/// Every scope snapshot stored in the tree records no impossible variable
/// type — what any environment built by this inference pass satisfies.
pub open spec fn expr_scopes_wf(e: Expr) -> bool
    decreases e,
{
    match e {
        Expr::Assignment(_, rhs) => expr_scopes_wf(*rhs),
        Expr::Add(a, b) => expr_scopes_wf(*a) && expr_scopes_wf(*b),
        Expr::Equals(a, b) => expr_scopes_wf(*a) && expr_scopes_wf(*b),
        Expr::FailIf { condition, .. } => expr_scopes_wf(*condition),
        Expr::Block(b) => env_has_no_never(b.spec_local_env()) && seq_scopes_wf(b.spec_inner()),
        _ => true,
    }
}

pub open spec fn seq_scopes_wf(children: Seq<Expr>) -> bool
    decreases children,
{
    if children.len() == 0 {
        true
    } else {
        expr_scopes_wf(children[0]) && seq_scopes_wf(
            children.subrange(1, children.len() as int),
        )
    }
}

/// Inference never records an impossible variable type: an assignment binds
/// the realized type of a value its right side actually produced.
proof fn lemma_infer_env_no_never(e: Expr, env: Seq<(u32, TypeDef)>, ext: ExternalEnv)
    requires
        env_has_no_never(env),
    ensures
        env_has_no_never(infer(e, env, ext).env),
    decreases e,
{
    match e {
        Expr::Assignment(id, rhs) => {
            lemma_infer_env_no_never(*rhs, env, ext);
            let o = infer(*rhs, env, ext);
            if !o.type_def.spec_is_never() {
                let bound = TypeDef { fallible: false, abortable: false, ..o.type_def };
                lemma_find_props::<TypeDef>(o.env, id);
                let b = spec_bind(o.env, id, bound);
                assert forall|j: int| 0 <= j < b.len() implies !(#[trigger] b[j]).1.spec_is_never()
                    by {
                    if spec_find(o.env, id) < 0 {
                        if j < o.env.len() {
                            assert(b[j] == o.env[j]);
                        } else {
                            assert(b[j] == (id, bound));
                        }
                    } else {
                        if j == spec_find(o.env, id) {
                            assert(b[j] == (id, bound));
                        } else {
                            assert(b[j] == o.env[j]);
                        }
                    }
                }
            }
        },
        Expr::Add(a, b) => {
            lemma_infer_env_no_never(*a, env, ext);
            lemma_infer_env_no_never(*b, infer(*a, env, ext).env, ext);
        },
        Expr::Equals(a, b) => {
            lemma_infer_env_no_never(*a, env, ext);
            lemma_infer_env_no_never(*b, infer(*a, env, ext).env, ext);
        },
        Expr::FailIf { condition, .. } => {
            lemma_infer_env_no_never(*condition, env, ext);
        },
        _ => {},
    }
}

/// Law (the static flags are sound): on a tree whose scope snapshots are
/// sane and whose external record type is inhabited, an expression the
/// inference pass marks not `fallible` never produces a recoverable error,
/// one marked not `abortable` never aborts, and one typed "never" never
/// produces a value — for every record and every variable store. This is
/// what lets the batch and native backends drop the run-time checks the
/// flags rule out.
pub proof fn lemma_flag_soundness(
    e: Expr,
    env: Seq<(u32, TypeDef)>,
    ext: ExternalEnv,
    target: Value,
    vars: Seq<(u32, Value)>,
)
    requires
        env_has_no_never(env),
        expr_scopes_wf(e),
        !ext.target.spec_is_never(),
    ensures
        !infer(e, env, ext).type_def.fallible ==> !is_recoverable_err(
            eval(e, target, vars).result,
        ),
        !infer(e, env, ext).type_def.abortable ==> !is_abort_err(eval(e, target, vars).result),
        infer(e, env, ext).type_def.spec_is_never() ==> eval(e, target, vars).result is Err,
    decreases e,
{
    let td = infer(e, env, ext).type_def;
    let r = eval(e, target, vars).result;
    match e {
        Expr::Literal(v) => {
            assert(td == value_shape(v));
            assert(r == Ok::<Value, Error>(v));
        },
        Expr::Target => {
            assert(td == ext.target);
            assert(r == Ok::<Value, Error>(target));
        },
        Expr::Variable(id) => {
            lemma_find_props::<TypeDef>(env, id);
            assert(r == Ok::<Value, Error>(read_var(vars, id)));
            match spec_get(env, id) {
                Some(t) => {
                    assert(td == t);
                    assert(!t.spec_is_never());
                },
                None => {
                    assert(td == value_shape(Value::Null));
                },
            }
        },
        Expr::Assignment(id, rhs) => {
            lemma_flag_soundness(*rhs, env, ext, target, vars);
            let o = eval(*rhs, target, vars);
            let i = infer(*rhs, env, ext);
            assert(td == i.type_def);
            match o.result {
                Ok(v) => {
                    assert(r == Ok::<Value, Error>(v));
                },
                Err(_) => {
                    assert(r == o.result);
                },
            }
        },
        Expr::Add(a, b) => {
            lemma_flag_soundness(*a, env, ext, target, vars);
            lemma_infer_env_no_never(*a, env, ext);
            let oa = eval(*a, target, vars);
            let ia = infer(*a, env, ext);
            lemma_flag_soundness(*b, ia.env, ext, target, oa.vars);
            let ob = eval(*b, target, oa.vars);
            let ib = infer(*b, ia.env, ext);
            let never = ia.type_def.spec_is_never() || ib.type_def.spec_is_never();
            assert(td == TypeDef {
                contains_null: false,
                contains_boolean: false,
                contains_integer: !never,
                contains_timestamp: false,
                fallible: ia.type_def.fallible || ib.type_def.fallible || !never,
                abortable: ia.type_def.abortable || ib.type_def.abortable,
            });
            if oa.result is Err {
                assert(r == oa.result);
            } else if ob.result is Err {
                assert(r == ob.result);
            } else {
                assert(r == add_values(oa.result->Ok_0, ob.result->Ok_0));
                assert(!is_abort_err(r));
                if never {
                    assert(false);
                }
            }
        },
        Expr::Equals(a, b) => {
            lemma_flag_soundness(*a, env, ext, target, vars);
            lemma_infer_env_no_never(*a, env, ext);
            let oa = eval(*a, target, vars);
            let ia = infer(*a, env, ext);
            lemma_flag_soundness(*b, ia.env, ext, target, oa.vars);
            let ob = eval(*b, target, oa.vars);
            let ib = infer(*b, ia.env, ext);
            let never = ia.type_def.spec_is_never() || ib.type_def.spec_is_never();
            assert(td == TypeDef {
                contains_null: false,
                contains_boolean: !never,
                contains_integer: false,
                contains_timestamp: false,
                fallible: ia.type_def.fallible || ib.type_def.fallible,
                abortable: ia.type_def.abortable || ib.type_def.abortable,
            });
            if oa.result is Err {
                assert(r == oa.result);
            } else if ob.result is Err {
                assert(r == ob.result);
            } else {
                assert(r == Ok::<Value, Error>(Value::Boolean(oa.result->Ok_0 == ob.result->Ok_0)));
                if never {
                    assert(false);
                }
            }
        },
        Expr::FailIf { condition, code } => {
            lemma_flag_soundness(*condition, env, ext, target, vars);
            let o = eval(*condition, target, vars);
            let i = infer(*condition, env, ext);
            let never = i.type_def.spec_is_never();
            assert(td == TypeDef {
                contains_null: !never,
                contains_boolean: false,
                contains_integer: false,
                contains_timestamp: false,
                fallible: i.type_def.fallible || !never,
                abortable: i.type_def.abortable,
            });
            match o.result {
                Ok(v) => {
                    if never {
                        assert(false);
                    }
                    if v == Value::Boolean(true) {
                        assert(r == Err::<Value, Error>(Error::Recoverable { code }));
                    } else {
                        assert(r == Ok::<Value, Error>(Value::Null));
                    }
                },
                Err(_) => {
                    assert(r == o.result);
                },
            }
        },
        Expr::Abort(code) => {
            assert(r == Err::<Value, Error>(Error::Abort { code }));
            assert(td.abortable);
            assert(!td.fallible);
        },
        Expr::Block(b) => {
            lemma_seq_flag_soundness(b.inner@, b.local_env@, ext, target, vars);
            let s = infer_seq(b.inner@, b.local_env@, ext);
            assert(td == infer_block(b, ext));
            assert(td == TypeDef { fallible: s.fallible, abortable: s.abortable, ..s.last });
            assert(td.spec_is_never() == s.last.spec_is_never());
            assert(eval(e, target, vars) == eval_block(b, target, vars));
            assert(r == eval_seq(b.inner@, target, vars).result);
        },
    }
}

proof fn lemma_seq_flag_soundness(
    children: Seq<Expr>,
    env: Seq<(u32, TypeDef)>,
    ext: ExternalEnv,
    target: Value,
    vars: Seq<(u32, Value)>,
)
    requires
        env_has_no_never(env),
        seq_scopes_wf(children),
        !ext.target.spec_is_never(),
    ensures
        !infer_seq(children, env, ext).fallible ==> !is_recoverable_err(
            eval_seq(children, target, vars).result,
        ),
        !infer_seq(children, env, ext).abortable ==> !is_abort_err(
            eval_seq(children, target, vars).result,
        ),
        infer_seq(children, env, ext).last.spec_is_never() ==> eval_seq(
            children,
            target,
            vars,
        ).result is Err,
    decreases children,
{
    if children.len() > 0 {
        lemma_flag_soundness(children[0], env, ext, target, vars);
        if children.len() > 1 {
            let o0 = eval(children[0], target, vars);
            let i0 = infer(children[0], env, ext);
            lemma_infer_env_no_never(children[0], env, ext);
            lemma_seq_flag_soundness(
                children.subrange(1, children.len() as int),
                i0.env,
                ext,
                target,
                o0.vars,
            );
        }
    }
}

} // verus!
verus! {

/// Every block inside the expression has at least one child. An empty block
/// is a compile-time error and never a run-time case, so both execution
/// backends require this of the trees they are handed; the compile pass
/// guarantees it (see [`lemma_wf_no_empty_blocks`]).
pub open spec fn expr_no_empty_blocks(e: Expr) -> bool
    decreases e,
{
    match e {
        Expr::Assignment(_, rhs) => expr_no_empty_blocks(*rhs),
        Expr::Add(a, b) => expr_no_empty_blocks(*a) && expr_no_empty_blocks(*b),
        Expr::Equals(a, b) => expr_no_empty_blocks(*a) && expr_no_empty_blocks(*b),
        Expr::FailIf { condition, .. } => expr_no_empty_blocks(*condition),
        Expr::Block(b) => block_no_empty_blocks(b),
        _ => true,
    }
}

/// The block and every block nested in it have at least one child.
pub open spec fn block_no_empty_blocks(b: Block) -> bool
    decreases b,
{
    b.spec_inner().len() >= 1 && seq_no_empty_blocks(b.spec_inner())
}

pub open spec fn seq_no_empty_blocks(children: Seq<Expr>) -> bool
    decreases children,
{
    forall|i: int| 0 <= i < children.len() ==> expr_no_empty_blocks(#[trigger] children[i])
}

/// A tree the compile pass accepts has no empty block anywhere: the pass is
/// how a caller discharges the backends' precondition.
pub proof fn lemma_wf_no_empty_blocks(b: Block, ext: ExternalEnv)
    requires
        block_wf(b, ext),
    ensures
        block_no_empty_blocks(b),
    decreases b,
{
    assert(seq_diag(b.spec_inner(), b.spec_local_env(), ext) is None);
    lemma_wf_seq_no_empty_blocks(b.spec_inner(), b.spec_local_env(), ext);
    assert(block_no_empty_blocks(b));
}

proof fn lemma_wf_expr_no_empty_blocks(e: Expr, env: Seq<(u32, TypeDef)>, ext: ExternalEnv)
    requires
        expr_wf(e, env, ext),
    ensures
        expr_no_empty_blocks(e),
    decreases e,
{
    match e {
        Expr::Assignment(_, rhs) => {
            lemma_wf_expr_no_empty_blocks(*rhs, env, ext);
        },
        Expr::Add(a, b) => {
            lemma_wf_expr_no_empty_blocks(*a, env, ext);
            lemma_wf_expr_no_empty_blocks(*b, infer(*a, env, ext).env, ext);
        },
        Expr::Equals(a, b) => {
            lemma_wf_expr_no_empty_blocks(*a, env, ext);
            lemma_wf_expr_no_empty_blocks(*b, infer(*a, env, ext).env, ext);
        },
        Expr::FailIf { condition, .. } => {
            lemma_wf_expr_no_empty_blocks(*condition, env, ext);
        },
        Expr::Block(b) => {
            assert(block_diag(b, ext) is None);
            assert(seq_diag(b.spec_inner(), b.spec_local_env(), ext) is None);
            lemma_wf_seq_no_empty_blocks(b.spec_inner(), b.spec_local_env(), ext);
            assert(block_no_empty_blocks(b));
        },
        _ => {},
    }
}

proof fn lemma_wf_seq_no_empty_blocks(children: Seq<Expr>, env: Seq<(u32, TypeDef)>, ext: ExternalEnv)
    requires
        seq_diag(children, env, ext) is None,
    ensures
        children.len() >= 1,
        seq_no_empty_blocks(children),
    decreases children,
{
    lemma_wf_expr_no_empty_blocks(children[0], env, ext);
    if children.len() > 1 {
        let tail = children.subrange(1, children.len() as int);
        lemma_wf_seq_no_empty_blocks(tail, infer(children[0], env, ext).env, ext);
        assert forall|i: int| 0 <= i < children.len() implies expr_no_empty_blocks(
            #[trigger] children[i],
        ) by {
            if i > 0 {
                assert(tail[i - 1] == children[i]);
            }
        }
    }
}
} // verus!
