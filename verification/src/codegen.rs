use vstd::prelude::*;
use crate::env::{ExternalEnv, LocalEnv};
use crate::expression::{
    Block, block_wf, child_type, infer, seq_diag, seq_env_at, lemma_block_wf_unfold,
    lemma_seq_diag_step,
};

verus! {

/// One instruction of the lowered control-flow representation. Child
/// expressions are referenced by their index in the block being lowered;
/// their own lowering is the concern of the per-variant backends, so here
/// resolving a child is a single step.
#[derive(Clone, Copy, Debug, PartialEq, Eq, Structural)]
pub enum Inst {
    /// Evaluate child `child` into the result slot.
    Resolve { child: usize },
    /// Continue at the given basic block.
    Branch { target: usize },
    /// Continue at `on_err` when the result slot holds any error, else at
    /// `on_ok`: the lowering of a statically fallible child.
    BranchIfError { on_err: usize, on_ok: usize },
    /// Continue at `on_abort` when the result slot holds an abort, else at
    /// `on_ok`: the lowering of a child that cannot fail recoverably but
    /// can terminate the program.
    BranchIfAbort { on_abort: usize, on_ok: usize },
}

impl Inst {
    /// Every block index the instruction can continue at stays inside the
    /// function being built.
    pub open spec fn targets_within(self, n: nat) -> bool {
        match self {
            Inst::Resolve { .. } => true,
            Inst::Branch { target } => (target as nat) < n,
            Inst::BranchIfError { on_err, on_ok } => (on_err as nat) < n && (on_ok as nat) < n,
            Inst::BranchIfAbort { on_abort, on_ok } => (on_abort as nat) < n && (on_ok as nat) < n,
        }
    }
}

/// The state of one function under ahead-of-time lowering: its basic
/// blocks, and the block new instructions are appended to. Used only when
/// the native-codegen capability is enabled; the other two backends never
/// touch it.
#[derive(Debug)]
pub struct CodegenContext {
    blocks: Vec<Vec<Inst>>,
    current: usize,
}

impl CodegenContext {
    pub closed spec fn spec_blocks(self) -> Seq<Seq<Inst>> {
        Seq::new(self.blocks@.len(), |i: int| self.blocks@[i]@)
    }

    pub closed spec fn spec_current(self) -> int {
        self.current as int
    }

    /// Every branch, in every block, lands on a block of the function, and
    /// the insertion point is a block of the function.
    pub open spec fn wf(self) -> bool {
        &&& 0 <= self.spec_current() < self.spec_blocks().len()
        &&& forall|b: int, k: int|
            0 <= b < self.spec_blocks().len() && 0 <= k < self.spec_blocks()[b].len() ==> (
            #[trigger] self.spec_blocks()[b][k]).targets_within(self.spec_blocks().len())
    }

    /// A fresh function: one empty entry block, which is also the insertion
    /// point.
    pub fn new() -> (c: CodegenContext)
        ensures
            c.wf(),
            c.spec_blocks().len() == 1,
            c.spec_blocks()[0] == Seq::<Inst>::empty(),
            c.spec_current() == 0,
    {
        let mut blocks: Vec<Vec<Inst>> = Vec::new();
        blocks.push(Vec::new());
        let c = CodegenContext { blocks, current: 0 };
        proof {
            assert(c.spec_blocks()[0] =~= Seq::<Inst>::empty());
        }
        c
    }

    /// Appends a fresh, empty basic block and returns its index; the
    /// insertion point does not move.
    pub fn append_basic_block(&mut self) -> (id: usize)
        requires
            old(self).wf(),
        ensures
            final(self).wf(),
            id as int == old(self).spec_blocks().len(),
            final(self).spec_blocks().len() == old(self).spec_blocks().len() + 1,
            forall|b: int|
                0 <= b < old(self).spec_blocks().len() ==> final(self).spec_blocks()[b] == old(
                    self,
                ).spec_blocks()[b],
            final(self).spec_blocks()[id as int] == Seq::<Inst>::empty(),
            final(self).spec_current() == old(self).spec_current(),
    {
        let id = self.blocks.len();
        self.blocks.push(Vec::new());
        proof {
            assert(self.spec_blocks()[id as int] =~= Seq::<Inst>::empty());
            assert forall|b: int, k: int|
                0 <= b < self.spec_blocks().len() && 0 <= k < self.spec_blocks()[b].len() implies (
                #[trigger] self.spec_blocks()[b][k]).targets_within(self.spec_blocks().len()) by {
                if b < id {
                    assert(self.spec_blocks()[b][k] == old(self).spec_blocks()[b][k]);
                    assert(old(self).spec_blocks()[b][k].targets_within(
                        old(self).spec_blocks().len(),
                    ));
                }
            }
        }
        id
    }

    /// Number of basic blocks built so far.
    pub fn blocks_len(&self) -> (n: usize)
        ensures
            n == self.spec_blocks().len(),
    {
        self.blocks.len()
    }

    /// Number of instructions in the given block.
    pub fn inst_count(&self, b: usize) -> (n: usize)
        requires
            b < self.spec_blocks().len(),
        ensures
            n == self.spec_blocks()[b as int].len(),
    {
        self.blocks[b].len()
    }

    /// The instruction at position `k` of block `b`.
    pub fn inst_at(&self, b: usize, k: usize) -> (inst: Inst)
        requires
            b < self.spec_blocks().len(),
            k < self.spec_blocks()[b as int].len(),
        ensures
            inst == self.spec_blocks()[b as int][k as int],
    {
        self.blocks[b][k]
    }

    /// Moves the insertion point to the end of the given block.
    pub fn position_at_end(&mut self, b: usize)
        requires
            old(self).wf(),
            b < old(self).spec_blocks().len(),
        ensures
            final(self).wf(),
            final(self).spec_blocks() == old(self).spec_blocks(),
            final(self).spec_current() == b as int,
    {
        self.current = b;
    }

    /// Appends `inst` to the insertion-point block.
    fn push_inst(&mut self, inst: Inst)
        requires
            old(self).wf(),
            inst.targets_within(old(self).spec_blocks().len()),
        ensures
            final(self).wf(),
            final(self).spec_blocks().len() == old(self).spec_blocks().len(),
            final(self).spec_current() == old(self).spec_current(),
            forall|b: int|
                0 <= b < old(self).spec_blocks().len() && b != old(self).spec_current()
                    ==> final(self).spec_blocks()[b] == old(self).spec_blocks()[b],
            final(self).spec_blocks()[old(self).spec_current()] == old(self).spec_blocks()[old(
                self,
            ).spec_current()].push(inst),
    {
        let slot = &mut self.blocks[self.current];
        slot.push(inst);
        proof {
            assert(self.spec_blocks()[self.spec_current()] =~= old(self).spec_blocks()[old(
                self,
            ).spec_current()].push(inst));
            assert forall|b: int, k: int|
                0 <= b < self.spec_blocks().len() && 0 <= k < self.spec_blocks()[b].len() implies (
                #[trigger] self.spec_blocks()[b][k]).targets_within(self.spec_blocks().len()) by {
                if b != old(self).spec_current() {
                    assert(self.spec_blocks()[b] == old(self).spec_blocks()[b]);
                    assert(old(self).spec_blocks()[b][k].targets_within(
                        old(self).spec_blocks().len(),
                    ));
                } else if k < old(self).spec_blocks()[b].len() {
                    assert(self.spec_blocks()[b][k] == old(self).spec_blocks()[b][k]);
                    assert(old(self).spec_blocks()[b][k].targets_within(
                        old(self).spec_blocks().len(),
                    ));
                }
            }
        }
    }

    /// Appends an unconditional branch to `target`.
    pub fn build_unconditional_branch(&mut self, target: usize)
        requires
            old(self).wf(),
            target < old(self).spec_blocks().len(),
        ensures
            final(self).wf(),
            final(self).spec_blocks().len() == old(self).spec_blocks().len(),
            final(self).spec_current() == old(self).spec_current(),
            forall|b: int|
                0 <= b < old(self).spec_blocks().len() && b != old(self).spec_current()
                    ==> final(self).spec_blocks()[b] == old(self).spec_blocks()[b],
            final(self).spec_blocks()[old(self).spec_current()] == old(self).spec_blocks()[old(
                self,
            ).spec_current()].push(Inst::Branch { target }),
    {
        self.push_inst(Inst::Branch { target });
    }

    /// Appends a branch on the error state of the result slot.
    pub fn build_error_branch(&mut self, on_err: usize, on_ok: usize)
        requires
            old(self).wf(),
            on_err < old(self).spec_blocks().len(),
            on_ok < old(self).spec_blocks().len(),
        ensures
            final(self).wf(),
            final(self).spec_blocks().len() == old(self).spec_blocks().len(),
            final(self).spec_current() == old(self).spec_current(),
            forall|b: int|
                0 <= b < old(self).spec_blocks().len() && b != old(self).spec_current()
                    ==> final(self).spec_blocks()[b] == old(self).spec_blocks()[b],
            final(self).spec_blocks()[old(self).spec_current()] == old(self).spec_blocks()[old(
                self,
            ).spec_current()].push(Inst::BranchIfError { on_err, on_ok }),
    {
        self.push_inst(Inst::BranchIfError { on_err, on_ok });
    }

    /// Appends a branch on the abort state of the result slot.
    pub fn build_abort_branch(&mut self, on_abort: usize, on_ok: usize)
        requires
            old(self).wf(),
            on_abort < old(self).spec_blocks().len(),
            on_ok < old(self).spec_blocks().len(),
        ensures
            final(self).wf(),
            final(self).spec_blocks().len() == old(self).spec_blocks().len(),
            final(self).spec_current() == old(self).spec_current(),
            forall|b: int|
                0 <= b < old(self).spec_blocks().len() && b != old(self).spec_current()
                    ==> final(self).spec_blocks()[b] == old(self).spec_blocks()[b],
            final(self).spec_blocks()[old(self).spec_current()] == old(self).spec_blocks()[old(
                self,
            ).spec_current()].push(Inst::BranchIfAbort { on_abort, on_ok }),
    {
        self.push_inst(Inst::BranchIfAbort { on_abort, on_ok });
    }

    /// Appends the evaluation of child `child`.
    pub fn emit_resolve(&mut self, child: usize)
        requires
            old(self).wf(),
        ensures
            final(self).wf(),
            final(self).spec_blocks().len() == old(self).spec_blocks().len(),
            final(self).spec_current() == old(self).spec_current(),
            forall|b: int|
                0 <= b < old(self).spec_blocks().len() && b != old(self).spec_current()
                    ==> final(self).spec_blocks()[b] == old(self).spec_blocks()[b],
            final(self).spec_blocks()[old(self).spec_current()] == old(self).spec_blocks()[old(
                self,
            ).spec_current()].push(Inst::Resolve { child }),
    {
        self.push_inst(Inst::Resolve { child });
    }
}

/// The child evaluations a single block performs, in order.
pub open spec fn resolves_of(insts: Seq<Inst>) -> Seq<usize>
    decreases insts,
{
    if insts.len() == 0 {
        Seq::empty()
    } else {
        resolves_of(insts.subrange(0, insts.len() - 1)) + (match insts[insts.len() - 1] {
            Inst::Resolve { child } => seq![child],
            _ => Seq::empty(),
        })
    }
}

/// The child evaluations the blocks from position `from` on perform, in
/// block order.
pub open spec fn resolves_of_blocks(blocks: Seq<Seq<Inst>>, from: int) -> Seq<usize>
    decreases blocks.len() - from,
{
    if from < 0 || from >= blocks.len() {
        Seq::empty()
    } else {
        resolves_of(blocks[from]) + resolves_of_blocks(blocks, from + 1)
    }
}

proof fn lemma_resolves_push_low(blocks: Seq<Seq<Inst>>, c: int, from: int, inst: Inst)
    requires
        0 <= c < from,
        c < blocks.len(),
    ensures
        resolves_of_blocks(blocks.update(c, blocks[c].push(inst)), from) == resolves_of_blocks(
            blocks,
            from,
        ),
    decreases blocks.len() - from,
{
    let up = blocks.update(c, blocks[c].push(inst));
    if 0 <= from < blocks.len() {
        assert(up[from] == blocks[from]);
        lemma_resolves_push_low(blocks, c, from + 1, inst);
        assert(resolves_of_blocks(up, from) =~= resolves_of_blocks(blocks, from));
    } else {
        assert(resolves_of_blocks(up, from) =~= Seq::<usize>::empty());
        assert(resolves_of_blocks(blocks, from) =~= Seq::<usize>::empty());
    }
}

proof fn lemma_resolves_push_high(blocks: Seq<Seq<Inst>>, c: int, from: int, inst: Inst)
    requires
        0 <= from <= c < blocks.len(),
        forall|b: int| c < b < blocks.len() ==> resolves_of(#[trigger] blocks[b]) == Seq::<
            usize,
        >::empty(),
    ensures
        resolves_of_blocks(blocks.update(c, blocks[c].push(inst)), from) == resolves_of_blocks(
            blocks,
            from,
        ) + (match inst {
            Inst::Resolve { child } => seq![child],
            _ => Seq::<usize>::empty(),
        }),
    decreases blocks.len() - from,
{
    let up = blocks.update(c, blocks[c].push(inst));
    let tail_inst = (match inst {
        Inst::Resolve { child } => seq![child],
        _ => Seq::<usize>::empty(),
    });
    if from < c {
        assert(up[from] == blocks[from]);
        lemma_resolves_push_high(blocks, c, from + 1, inst);
        assert(resolves_of_blocks(up, from) =~= resolves_of_blocks(blocks, from) + tail_inst);
    } else {
        // from == c: the pushed instruction lands at the very end of this
        // block, and every later block performs no child evaluation
        let pushed = blocks[c].push(inst);
        assert(pushed.subrange(0, pushed.len() - 1) =~= blocks[c]);
        assert(resolves_of(pushed) == resolves_of(blocks[c]) + tail_inst);
        lemma_resolves_blocks_empty(blocks, c + 1);
        lemma_resolves_blocks_empty_upd(blocks, c, inst, c + 1);
        assert(resolves_of_blocks(up, from) =~= resolves_of_blocks(blocks, from) + tail_inst);
    }
}

proof fn lemma_resolves_blocks_empty(blocks: Seq<Seq<Inst>>, from: int)
    requires
        forall|b: int| from <= b < blocks.len() ==> resolves_of(#[trigger] blocks[b]) == Seq::<
            usize,
        >::empty(),
    ensures
        resolves_of_blocks(blocks, from) == Seq::<usize>::empty(),
    decreases blocks.len() - from,
{
    if 0 <= from < blocks.len() {
        lemma_resolves_blocks_empty(blocks, from + 1);
        assert(resolves_of_blocks(blocks, from) =~= Seq::<usize>::empty());
    }
}

proof fn lemma_resolves_blocks_empty_upd(blocks: Seq<Seq<Inst>>, c: int, inst: Inst, from: int)
    requires
        0 <= c < from,
        c < blocks.len(),
        forall|b: int| from <= b < blocks.len() ==> resolves_of(#[trigger] blocks[b]) == Seq::<
            usize,
        >::empty(),
    ensures
        resolves_of_blocks(blocks.update(c, blocks[c].push(inst)), from) == Seq::<usize>::empty(),
    decreases blocks.len() - from,
{
    let up = blocks.update(c, blocks[c].push(inst));
    if 0 <= from < blocks.len() {
        assert(up[from] == blocks[from]);
        lemma_resolves_blocks_empty_upd(blocks, c, inst, from + 1);
        assert(resolves_of_blocks(up, from) =~= Seq::<usize>::empty());
    } else {
        assert(resolves_of_blocks(up, from) =~= Seq::<usize>::empty());
    }
}

proof fn lemma_resolves_append_empty(blocks: Seq<Seq<Inst>>, from: int, nb: Seq<Inst>)
    requires
        0 <= from,
        resolves_of(nb) == Seq::<usize>::empty(),
    ensures
        resolves_of_blocks(blocks.push(nb), from) == resolves_of_blocks(blocks, from),
    decreases blocks.len() - from,
{
    let up = blocks.push(nb);
    if from < blocks.len() {
        assert(up[from] == blocks[from]);
        lemma_resolves_append_empty(blocks, from + 1, nb);
        assert(resolves_of_blocks(up, from) =~= resolves_of_blocks(blocks, from));
    } else if from == blocks.len() {
        assert(up[from] == nb);
        assert(resolves_of_blocks(up, from + 1) == Seq::<usize>::empty());
        assert(resolves_of_blocks(up, from) == resolves_of(nb) + resolves_of_blocks(up, from + 1));
        assert(resolves_of_blocks(up, from) =~= Seq::<usize>::empty());
        assert(resolves_of_blocks(blocks, from) == Seq::<usize>::empty());
    }
}

/// A branch that reaches `exit` when the result slot holds an error.
pub open spec fn is_error_branch_to(i: Inst, exit: int) -> bool {
    match i {
        Inst::BranchIfError { on_err, .. } => on_err as int == exit,
        _ => false,
    }
}

/// A branch that reaches `exit` when the result slot holds an abort.
pub open spec fn is_abort_branch_to(i: Inst, exit: int) -> bool {
    match i {
        Inst::BranchIfAbort { on_abort, .. } => on_abort as int == exit,
        _ => false,
    }
}

/// An instruction whose taken edge hands control to `exit`.
pub open spec fn leads_to_exit(i: Inst, exit: int) -> bool {
    match i {
        Inst::Branch { target } => target as int == exit,
        Inst::BranchIfError { on_err, .. } => on_err as int == exit,
        Inst::BranchIfAbort { on_abort, .. } => on_abort as int == exit,
        Inst::Resolve { .. } => false,
    }
}

impl Block {
    /// Ahead-of-time lowering of the block: allocate an entry block and an
    /// exit block, branch into the entry block, then emit each child in
    /// order — a statically fallible child is followed by a branch to the
    /// exit block on error and to a fresh block on success; a merely
    /// abortable child by a branch to the exit block on abort; an
    /// infallible one by nothing. After the last child, control falls
    /// through to the exit block, which is left as the insertion point. The
    /// built function stays well formed: every branch lands inside it.
    pub fn emit_native(&self, external: &ExternalEnv, ctx: &mut CodegenContext) -> (r: Result<
        (),
        crate::expression::CompileError,
    >)
        requires
            block_wf(*self, *external),
            old(ctx).wf(),
        ensures
            r is Ok,
            final(ctx).wf(),
            final(ctx).spec_blocks().len() >= old(ctx).spec_blocks().len() + 2,
            // lowering ends positioned at the exit block
            final(ctx).spec_current() == old(ctx).spec_blocks().len() + 1,
            // the fresh region evaluates the children exactly once, in order
            resolves_of_blocks(final(ctx).spec_blocks(), old(ctx).spec_blocks().len() as int)
                == Seq::new(self.spec_inner().len(), |j: int| j as usize),
            // a statically fallible child's evaluation is immediately
            // followed by a branch to the exit block on error; one that
            // cannot fail but can abort, by a branch on abort
            forall|b: int, k: int|
                old(ctx).spec_blocks().len() <= b < final(ctx).spec_blocks().len() && 0 <= k
                    < final(ctx).spec_blocks()[b].len() ==> ((#[trigger] final(ctx).spec_blocks()[b][k]) matches Inst::Resolve { child } ==> (child
                    < self.spec_inner().len() && (child_type(
                    self.spec_inner(),
                    self.spec_local_env(),
                    *external,
                    child as int,
                ).fallible ==> k + 1 < final(ctx).spec_blocks()[b].len() && is_error_branch_to(
                    final(ctx).spec_blocks()[b][k + 1],
                    old(ctx).spec_blocks().len() as int + 1,
                )) && (!child_type(
                    self.spec_inner(),
                    self.spec_local_env(),
                    *external,
                    child as int,
                ).fallible && child_type(
                    self.spec_inner(),
                    self.spec_local_env(),
                    *external,
                    child as int,
                ).abortable ==> k + 1 < final(ctx).spec_blocks()[b].len() && is_abort_branch_to(
                    final(ctx).spec_blocks()[b][k + 1],
                    old(ctx).spec_blocks().len() as int + 1,
                )))),
            // control falls through: every region block except the exit
            // block ends by handing control to the exit block
            forall|b: int|
                old(ctx).spec_blocks().len() <= b < final(ctx).spec_blocks().len() && b != old(ctx).spec_blocks().len() + 1 ==> (#[trigger] final(ctx).spec_blocks()[b]).len() >= 1
                    && leads_to_exit(
                    final(ctx).spec_blocks()[b][final(ctx).spec_blocks()[b].len() - 1],
                    old(ctx).spec_blocks().len() as int + 1,
                ),
    {
        let ghost region = ctx.spec_blocks().len() as int;
        let ghost exit = region + 1;
        let block_begin = ctx.append_basic_block();
        let ghost bc_b = *ctx;
        let block_end = ctx.append_basic_block();
        let ghost bc_c = *ctx;
        ctx.build_unconditional_branch(block_begin);
        proof {
            assert(resolves_of(Seq::<Inst>::empty()) == Seq::<usize>::empty());
            assert(ctx.spec_blocks() =~= bc_c.spec_blocks().update(
                bc_c.spec_current(),
                bc_c.spec_blocks()[bc_c.spec_current()].push(Inst::Branch { target: block_begin }),
            ));
            assert forall|b: int|
                region <= b < bc_c.spec_blocks().len() implies resolves_of(
                #[trigger] bc_c.spec_blocks()[b],
            ) == Seq::<usize>::empty() by {}
            lemma_resolves_blocks_empty(bc_c.spec_blocks(), region);
            lemma_resolves_push_low(
                bc_c.spec_blocks(),
                bc_c.spec_current(),
                region,
                Inst::Branch { target: block_begin },
            );
        }
        ctx.position_at_end(block_begin);
        let mut env = self.local_env_snapshot();
        let n = self.inner_len();
        let mut i: usize = 0;
        proof {
            lemma_block_wf_unfold(*self, *external);
            assert(self.spec_inner().subrange(0, n as int) =~= self.spec_inner());
            assert(resolves_of_blocks(ctx.spec_blocks(), region) =~= Seq::new(
                0,
                |j: int| j as usize,
            ));
            assert(env@ == seq_env_at(self.spec_inner(), self.spec_local_env(), *external, 0));
        }
        while i < n
            invariant
                n == self.spec_inner().len(),
                0 <= i <= n,
                ctx.wf(),
                block_end as int == exit,
                exit == region + 1,
                0 <= region,
                exit < ctx.spec_blocks().len(),
                region <= ctx.spec_current() < ctx.spec_blocks().len(),
                ctx.spec_current() != exit,
                env@ == seq_env_at(self.spec_inner(), self.spec_local_env(), *external, i as int),
                resolves_of_blocks(ctx.spec_blocks(), region) == Seq::new(
                    i as nat,
                    |j: int| j as usize,
                ),
                forall|b: int|
                    ctx.spec_current() < b < ctx.spec_blocks().len() ==> resolves_of(
                        #[trigger] ctx.spec_blocks()[b],
                    ) == Seq::<usize>::empty(),
                forall|b: int, k: int|
                    region <= b < ctx.spec_blocks().len() && 0 <= k < ctx.spec_blocks()[b].len()
                        ==> ((#[trigger] ctx.spec_blocks()[b][k]) matches Inst::Resolve { child }
                        ==> (child < i && (child_type(
                        self.spec_inner(),
                        self.spec_local_env(),
                        *external,
                        child as int,
                    ).fallible ==> k + 1 < ctx.spec_blocks()[b].len() && is_error_branch_to(
                        ctx.spec_blocks()[b][k + 1],
                        exit,
                    )) && (!child_type(
                        self.spec_inner(),
                        self.spec_local_env(),
                        *external,
                        child as int,
                    ).fallible && child_type(
                        self.spec_inner(),
                        self.spec_local_env(),
                        *external,
                        child as int,
                    ).abortable ==> k + 1 < ctx.spec_blocks()[b].len() && is_abort_branch_to(
                        ctx.spec_blocks()[b][k + 1],
                        exit,
                    )))),
                forall|b: int|
                    region <= b < ctx.spec_blocks().len() && b != exit && b != ctx.spec_current()
                        ==> (#[trigger] ctx.spec_blocks()[b]).len() >= 1 && leads_to_exit(
                        ctx.spec_blocks()[b][ctx.spec_blocks()[b].len() - 1],
                        exit,
                    ),
                i < n ==> seq_diag(
                    self.spec_inner().subrange(i as int, n as int),
                    env@,
                    *external,
                ) is None,
            decreases n - i,
        {
            let ghost suffix = self.spec_inner().subrange(i as int, n as int);
            proof {
                assert(suffix[0] == self.spec_inner()[i as int]);
                lemma_seq_diag_step(suffix, env@, *external);
                if i + 1 < n {
                    assert(suffix.subrange(1, suffix.len() as int) =~= self.spec_inner().subrange(
                        i + 1,
                        n as int,
                    ));
                }
            }
            let ghost env_in = env@;
            let td = self.child_at(i).type_def(&mut env, external);
            proof {
                // the computed type is this child's, under the environment
                // its earlier siblings produced
                assert(td == child_type(
                    self.spec_inner(),
                    self.spec_local_env(),
                    *external,
                    i as int,
                ));
                assert(env@ == infer(self.spec_inner()[i as int], env_in, *external).env);
                assert(seq_env_at(self.spec_inner(), self.spec_local_env(), *external, i + 1)
                    == infer(
                    self.spec_inner()[i as int],
                    seq_env_at(self.spec_inner(), self.spec_local_env(), *external, i as int),
                    *external,
                ).env);
            }
            let ghost b0 = *ctx;
            ctx.emit_resolve(i);
            proof {
                assert(ctx.spec_blocks() =~= b0.spec_blocks().update(
                    b0.spec_current(),
                    b0.spec_blocks()[b0.spec_current()].push(Inst::Resolve { child: i }),
                ));
                lemma_resolves_push_high(
                    b0.spec_blocks(),
                    b0.spec_current(),
                    region,
                    Inst::Resolve { child: i },
                );
                assert(resolves_of_blocks(ctx.spec_blocks(), region) =~= Seq::new(
                    (i + 1) as nat,
                    |j: int| j as usize,
                ));
            }
            if td.is_fallible() || td.is_abortable() {
                let ghost b1 = *ctx;
                let block_next = ctx.append_basic_block();
                proof {
                    assert(resolves_of(Seq::<Inst>::empty()) == Seq::<usize>::empty());
                    assert(ctx.spec_blocks() =~= b1.spec_blocks().push(Seq::<Inst>::empty()));
                    lemma_resolves_append_empty(b1.spec_blocks(), region, Seq::<Inst>::empty());
                }
                let ghost b2 = *ctx;
                if td.is_fallible() {
                    ctx.build_error_branch(block_end, block_next);
                    proof {
                        assert(ctx.spec_blocks() =~= b2.spec_blocks().update(
                            b2.spec_current(),
                            b2.spec_blocks()[b2.spec_current()].push(
                                Inst::BranchIfError { on_err: block_end, on_ok: block_next },
                            ),
                        ));
                        lemma_resolves_push_high(
                            b2.spec_blocks(),
                            b2.spec_current(),
                            region,
                            Inst::BranchIfError { on_err: block_end, on_ok: block_next },
                        );
                    }
                } else {
                    ctx.build_abort_branch(block_end, block_next);
                    proof {
                        assert(ctx.spec_blocks() =~= b2.spec_blocks().update(
                            b2.spec_current(),
                            b2.spec_blocks()[b2.spec_current()].push(
                                Inst::BranchIfAbort { on_abort: block_end, on_ok: block_next },
                            ),
                        ));
                        lemma_resolves_push_high(
                            b2.spec_blocks(),
                            b2.spec_current(),
                            region,
                            Inst::BranchIfAbort { on_abort: block_end, on_ok: block_next },
                        );
                    }
                }
                ctx.position_at_end(block_next);
            }
            i += 1;
        }
        let ghost bf = *ctx;
        ctx.build_unconditional_branch(block_end);
        proof {
            assert(ctx.spec_blocks() =~= bf.spec_blocks().update(
                bf.spec_current(),
                bf.spec_blocks()[bf.spec_current()].push(Inst::Branch { target: block_end }),
            ));
            lemma_resolves_push_high(
                bf.spec_blocks(),
                bf.spec_current(),
                region,
                Inst::Branch { target: block_end },
            );
            assert(resolves_of_blocks(ctx.spec_blocks(), region) =~= Seq::new(
                n as nat,
                |j: int| j as usize,
            ));
        }
        ctx.position_at_end(block_end);
        Ok(())
    }
}

} // verus!
