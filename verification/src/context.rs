use vstd::prelude::*;
use crate::value::{Value, Resolved};
use crate::env::{spec_get, spec_bind};

verus! {

/// The run-time environment for exactly one record: the record itself (the
/// target) and the variable store built up while the record is resolved.
/// A context is created per incoming record and destroyed once resolution
/// finishes.
#[derive(Debug)]
pub struct Context {
    target: Value,
    variables: Vec<(u32, Value)>,
}

impl Context {
    /// The input record under resolution.
    pub closed spec fn spec_target(self) -> Value {
        self.target
    }

    /// The variable store, oldest binding first.
    pub closed spec fn spec_vars(self) -> Seq<(u32, Value)> {
        self.variables@
    }

    pub fn new(target: Value) -> (c: Context)
        ensures
            c.spec_target() == target,
            c.spec_vars() == Seq::<(u32, Value)>::empty(),
    {
        Context { target, variables: Vec::new() }
    }

    pub fn target(&self) -> (v: Value)
        ensures
            v == self.spec_target(),
    {
        self.target
    }

    /// The value bound to a variable, if any.
    pub fn variable(&self, id: u32) -> (r: Option<Value>)
        ensures
            r == spec_get(self.spec_vars(), id),
    {
        crate::env::get_binding(&self.variables, id)
    }

    /// Binds a variable for the rest of the record's resolution.
    pub fn assign(&mut self, id: u32, value: Value)
        ensures
            final(self).spec_target() == old(self).spec_target(),
            final(self).spec_vars() == spec_bind(old(self).spec_vars(), id, value),
    {
        crate::env::set_binding(&mut self.variables, id, value)
    }

    pub fn vars_len(&self) -> (n: usize)
        ensures
            n == self.spec_vars().len(),
    {
        self.variables.len()
    }

    /// Drops every binding past the first `n`: how a block restores its
    /// parent's scope when it ends.
    pub fn truncate_vars(&mut self, n: usize)
        ensures
            final(self).spec_target() == old(self).spec_target(),
            n <= old(self).spec_vars().len() ==> final(self).spec_vars() == old(self).spec_vars()
                .subrange(0, n as int),
            n > old(self).spec_vars().len() ==> final(self).spec_vars() == old(self).spec_vars(),
    {
        self.variables.truncate(n);
    }
}

/// The run-time environment for one batch of records: one resolution slot,
/// one record and one variable store per row, shared mutably by every
/// expression evaluated for the batch. Rows are independent: nothing an
/// expression does to one row can reach another.
#[derive(Debug)]
pub struct BatchContext {
    targets: Vec<Value>,
    resolved_values: Vec<Resolved>,
    var_stores: Vec<Vec<(u32, Value)>>,
}

impl BatchContext {
    /// The three per-row columns always cover the same rows.
    pub closed spec fn wf(self) -> bool {
        self.resolved_values@.len() == self.targets@.len() && self.var_stores@.len()
            == self.targets@.len()
    }

    /// Number of rows in the batch.
    pub closed spec fn spec_len(self) -> int {
        self.targets@.len() as int
    }

    pub closed spec fn spec_target_at(self, i: int) -> Value {
        self.targets@[i]
    }

    pub closed spec fn spec_resolved_at(self, i: int) -> Resolved {
        self.resolved_values@[i]
    }

    pub closed spec fn spec_vars_at(self, i: int) -> Seq<(u32, Value)> {
        self.var_stores@[i]@
    }

    /// A fresh batch: one slot per record, each row starting with a null
    /// resolution and no variables.
    pub fn new(targets: Vec<Value>) -> (b: BatchContext)
        ensures
            b.wf(),
            b.spec_len() == targets@.len(),
            forall|i: int| 0 <= i < targets@.len() ==> b.spec_target_at(i) == targets@[i],
            forall|i: int| 0 <= i < targets@.len() ==> b.spec_resolved_at(i) == Ok::<
                Value,
                crate::value::Error,
            >(Value::Null),
            forall|i: int| 0 <= i < targets@.len() ==> b.spec_vars_at(i) == Seq::<
                (u32, Value),
            >::empty(),
    {
        let n = targets.len();
        let mut resolved_values: Vec<Resolved> = Vec::new();
        let mut var_stores: Vec<Vec<(u32, Value)>> = Vec::new();
        let mut k: usize = 0;
        while k < n
            invariant
                0 <= k <= n,
                resolved_values@.len() == k,
                var_stores@.len() == k,
                forall|i: int| 0 <= i < k ==> resolved_values@[i] == Ok::<
                    Value,
                    crate::value::Error,
                >(Value::Null),
                forall|i: int| 0 <= i < k ==> (#[trigger] var_stores@[i])@ == Seq::<
                    (u32, Value),
                >::empty(),
            decreases n - k,
        {
            resolved_values.push(Ok(Value::Null));
            var_stores.push(Vec::new());
            k += 1;
        }
        BatchContext { targets, resolved_values, var_stores }
    }

    pub fn len(&self) -> (n: usize)
        requires
            self.wf(),
        ensures
            n == self.spec_len(),
    {
        self.targets.len()
    }

    /// Whether the row currently holds a success: how a block decides which
    /// rows stay in the selection vector for its next child.
    pub fn resolved_is_ok(&self, i: usize) -> (b: bool)
        requires
            self.wf(),
            i < self.spec_len(),
        ensures
            b == self.spec_resolved_at(i as int) is Ok,
    {
        self.resolved_values[i].is_ok()
    }

    /// Reads a row's outcome back once the batch has been resolved.
    pub fn resolved_of(&self, i: usize) -> (r: Resolved)
        requires
            self.wf(),
            i < self.spec_len(),
        ensures
            r == self.spec_resolved_at(i as int),
    {
        self.resolved_values[i]
    }

    pub fn vars_len_of(&self, i: usize) -> (n: usize)
        requires
            self.wf(),
            i < self.spec_len(),
        ensures
            n == self.spec_vars_at(i as int).len(),
    {
        self.var_stores[i].len()
    }

    /// Writes row `i`'s outcome, leaving everything else alone.
    pub fn set_resolved(&mut self, i: usize, r: Resolved)
        requires
            old(self).wf(),
            i < old(self).spec_len(),
        ensures
            final(self).wf(),
            final(self).spec_len() == old(self).spec_len(),
            final(self).spec_resolved_at(i as int) == r,
            forall|j: int| 0 <= j < old(self).spec_len() ==> final(self).spec_target_at(j) == old(
                self,
            ).spec_target_at(j),
            forall|j: int| 0 <= j < old(self).spec_len() ==> final(self).spec_vars_at(j) == old(
                self,
            ).spec_vars_at(j),
            forall|j: int|
                0 <= j < old(self).spec_len() && j != i ==> final(self).spec_resolved_at(j) == old(
                    self,
                ).spec_resolved_at(j),
    {
        let slot = &mut self.resolved_values[i];
        *slot = r;
    }

    /// Restores row `i`'s scope by dropping every binding past the first `n`.
    pub fn truncate_vars_of(&mut self, i: usize, n: usize)
        requires
            old(self).wf(),
            i < old(self).spec_len(),
        ensures
            final(self).wf(),
            final(self).spec_len() == old(self).spec_len(),
            forall|j: int| 0 <= j < old(self).spec_len() ==> final(self).spec_target_at(j) == old(
                self,
            ).spec_target_at(j),
            forall|j: int| 0 <= j < old(self).spec_len() ==> final(self).spec_resolved_at(j) == old(
                self,
            ).spec_resolved_at(j),
            forall|j: int|
                0 <= j < old(self).spec_len() && j != i ==> final(self).spec_vars_at(j) == old(
                    self,
                ).spec_vars_at(j),
            n <= old(self).spec_vars_at(i as int).len() ==> final(self).spec_vars_at(i as int)
                == old(self).spec_vars_at(i as int).subrange(0, n as int),
            n > old(self).spec_vars_at(i as int).len() ==> final(self).spec_vars_at(i as int)
                == old(self).spec_vars_at(i as int),
    {
        let store = &mut self.var_stores[i];
        store.truncate(n);
    }

    /// Detaches row `i` as a single-record context, leaving the row's store
    /// empty until [`BatchContext::end_row`] hands it back.
    pub fn begin_row(&mut self, i: usize) -> (c: Context)
        requires
            old(self).wf(),
            i < old(self).spec_len(),
        ensures
            final(self).wf(),
            final(self).spec_len() == old(self).spec_len(),
            c.spec_target() == old(self).spec_target_at(i as int),
            c.spec_vars() == old(self).spec_vars_at(i as int),
            forall|j: int| 0 <= j < old(self).spec_len() ==> final(self).spec_target_at(j) == old(
                self,
            ).spec_target_at(j),
            forall|j: int| 0 <= j < old(self).spec_len() ==> final(self).spec_resolved_at(j) == old(
                self,
            ).spec_resolved_at(j),
            forall|j: int|
                0 <= j < old(self).spec_len() && j != i ==> final(self).spec_vars_at(j) == old(
                    self,
                ).spec_vars_at(j),
    {
        let mut variables: Vec<(u32, Value)> = Vec::new();
        let store = &mut self.var_stores[i];
        core::mem::swap(&mut variables, store);
        let target = self.targets[i];
        Context { target, variables }
    }

    /// Writes row `i`'s outcome and hands the row its variable store back.
    pub fn end_row(&mut self, i: usize, c: Context, r: Resolved)
        requires
            old(self).wf(),
            i < old(self).spec_len(),
        ensures
            final(self).wf(),
            final(self).spec_len() == old(self).spec_len(),
            final(self).spec_resolved_at(i as int) == r,
            final(self).spec_vars_at(i as int) == c.spec_vars(),
            forall|j: int| 0 <= j < old(self).spec_len() ==> final(self).spec_target_at(j) == old(
                self,
            ).spec_target_at(j),
            forall|j: int|
                0 <= j < old(self).spec_len() && j != i ==> final(self).spec_resolved_at(j) == old(
                    self,
                ).spec_resolved_at(j),
            forall|j: int|
                0 <= j < old(self).spec_len() && j != i ==> final(self).spec_vars_at(j) == old(
                    self,
                ).spec_vars_at(j),
    {
        let slot = &mut self.resolved_values[i];
        *slot = r;
        let store = &mut self.var_stores[i];
        *store = c.variables;
    }
}

} // verus!
