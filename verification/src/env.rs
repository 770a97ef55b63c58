use vstd::prelude::*;
use crate::type_def::TypeDef;

verus! {

// Typing environments and run-time variable stores are both association
// lists from a variable identifier (an interned symbol handed over by the
// parser) to a payload. The binding in force for an identifier is the first
// entry carrying it; `spec_bind` updates that entry in place, or appends a
// new entry when the identifier is unbound, so that a store only ever grows
// at its end. Scopes are restored by truncating back to the entry length.

/// Index of the binding in force for `id`, or -1 when `id` is unbound.
pub open spec fn spec_find<T>(s: Seq<(u32, T)>, id: u32) -> int
    decreases s.len(),
{
    if s.len() == 0 {
        -1
    } else if s[0].0 == id {
        0
    } else {
        let r = spec_find(s.subrange(1, s.len() as int), id);
        if r < 0 {
            -1
        } else {
            r + 1
        }
    }
}

/// The payload bound to `id`, if any.
pub open spec fn spec_get<T>(s: Seq<(u32, T)>, id: u32) -> Option<T> {
    if spec_find(s, id) < 0 {
        None
    } else {
        Some(s[spec_find(s, id)].1)
    }
}

/// The store after binding `id` to `value`: updated in place when bound,
/// appended otherwise.
pub open spec fn spec_bind<T>(s: Seq<(u32, T)>, id: u32, value: T) -> Seq<(u32, T)> {
    if spec_find(s, id) < 0 {
        s.push((id, value))
    } else {
        s.update(spec_find(s, id), (id, value))
    }
}

pub proof fn lemma_find_props<T>(s: Seq<(u32, T)>, id: u32)
    ensures
        -1 <= spec_find(s, id) < s.len(),
        spec_find(s, id) >= 0 ==> s[spec_find(s, id)].0 == id,
        forall|j: int| 0 <= j < spec_find(s, id) ==> (#[trigger] s[j]).0 != id,
        spec_find(s, id) == -1 ==> forall|j: int| 0 <= j < s.len() ==> (#[trigger] s[j]).0 != id,
    decreases s.len(),
{
    if s.len() > 0 && s[0].0 != id {
        let t = s.subrange(1, s.len() as int);
        lemma_find_props::<T>(t, id);
        assert forall|j: int| 0 <= j < spec_find(s, id) implies (#[trigger] s[j]).0 != id by {
            if j > 0 {
                assert(s[j] == t[j - 1]);
            }
        }
        if spec_find(s, id) == -1 {
            assert forall|j: int| 0 <= j < s.len() implies (#[trigger] s[j]).0 != id by {
                if j > 0 {
                    assert(s[j] == t[j - 1]);
                }
            }
        }
    }
}

pub proof fn lemma_find_at<T>(s: Seq<(u32, T)>, id: u32, i: int)
    requires
        0 <= i < s.len(),
        s[i].0 == id,
        forall|j: int| 0 <= j < i ==> (#[trigger] s[j]).0 != id,
    ensures
        spec_find(s, id) == i,
    decreases i,
{
    if i > 0 {
        let t = s.subrange(1, s.len() as int);
        assert(t[i - 1] == s[i]);
        assert forall|j: int| 0 <= j < i - 1 implies (#[trigger] t[j]).0 != id by {
            assert(t[j] == s[j + 1]);
        }
        lemma_find_at::<T>(t, id, i - 1);
    }
}

/// The binding in force is found by identifier alone: two stores whose
/// entries carry the same identifiers position for position agree on where
/// any identifier is bound.
pub proof fn lemma_find_same_ids<T, U>(s: Seq<(u32, T)>, r: Seq<(u32, U)>, id: u32)
    requires
        s.len() == r.len(),
        forall|j: int| 0 <= j < s.len() ==> (#[trigger] s[j]).0 == r[j].0,
    ensures
        spec_find(s, id) == spec_find(r, id),
    decreases s.len(),
{
    if s.len() > 0 {
        let st = s.subrange(1, s.len() as int);
        let rt = r.subrange(1, r.len() as int);
        assert forall|j: int| 0 <= j < st.len() implies (#[trigger] st[j]).0 == rt[j].0 by {
            assert(st[j] == s[j + 1]);
            assert(rt[j] == r[j + 1]);
        }
        lemma_find_same_ids::<T, U>(st, rt, id);
    }
}

/// Binding never disturbs the identifier layout of a store: every existing
/// position keeps its identifier, at most one entry is appended, and the
/// bound identifier reads back as the bound payload.
pub proof fn lemma_bind_ids<T>(s: Seq<(u32, T)>, id: u32, value: T)
    ensures
        s.len() <= spec_bind(s, id, value).len() <= s.len() + 1,
        forall|j: int| 0 <= j < s.len() ==> (#[trigger] spec_bind(s, id, value)[j]).0 == s[j].0,
        spec_get(spec_bind(s, id, value), id) == Some(value),
{
    lemma_find_props::<T>(s, id);
    let b = spec_bind(s, id, value);
    if spec_find(s, id) < 0 {
        lemma_find_at::<T>(b, id, s.len() as int);
    } else {
        lemma_find_at::<T>(b, id, spec_find(s, id));
    }
}

/// Finds the binding in force for `id`, scanning from the front.
pub fn find_binding<T>(s: &Vec<(u32, T)>, id: u32) -> (r: Option<usize>)
    ensures
        match r {
            Some(i) => spec_find(s@, id) == i as int,
            None => spec_find(s@, id) == -1,
        },
{
    let n = s.len();
    let mut k: usize = 0;
    while k < n
        invariant
            n == s@.len(),
            0 <= k <= n,
            forall|j: int| 0 <= j < k ==> (#[trigger] s@[j]).0 != id,
        decreases n - k,
    {
        if s[k].0 == id {
            proof {
                lemma_find_at::<T>(s@, id, k as int);
            }
            return Some(k);
        }
        k += 1;
    }
    proof {
        lemma_find_props::<T>(s@, id);
    }
    None
}

/// Reads the payload bound to `id`, if any.
pub fn get_binding<T: Copy>(s: &Vec<(u32, T)>, id: u32) -> (r: Option<T>)
    ensures
        r == spec_get(s@, id),
{
    proof {
        lemma_find_props::<T>(s@, id);
    }
    match find_binding(s, id) {
        Some(i) => Some(s[i].1),
        None => None,
    }
}

/// Binds `id` to `value`: updates the entry in force, or appends one.
pub fn set_binding<T: Copy>(s: &mut Vec<(u32, T)>, id: u32, value: T)
    ensures
        final(s)@ == spec_bind(old(s)@, id, value),
{
    proof {
        lemma_find_props::<T>(old(s)@, id);
    }
    match find_binding(s, id) {
        Some(i) => {
            let slot = &mut s[i];
            *slot = (id, value);
        },
        None => {
            s.push((id, value));
        },
    }
}

/// The local typing environment: the statically inferred [`TypeDef`] of each
/// variable in scope of one lexical block. Binding constructs update it as
/// they are typed; a nested block works on its own snapshot, so bindings
/// introduced inside the block never reach the parent's environment.
#[derive(Debug)]
pub struct LocalEnv {
    bindings: Vec<(u32, TypeDef)>,
}

impl View for LocalEnv {
    type V = Seq<(u32, TypeDef)>;

    closed spec fn view(&self) -> Seq<(u32, TypeDef)> {
        self.bindings@
    }
}

impl LocalEnv {
    /// An environment with nothing in scope.
    pub fn new() -> (e: LocalEnv)
        ensures
            e@ == Seq::<(u32, TypeDef)>::empty(),
    {
        LocalEnv { bindings: Vec::new() }
    }

    /// The inferred type of a variable, if it is in scope.
    pub fn variable(&self, id: u32) -> (r: Option<TypeDef>)
        ensures
            r == spec_get(self@, id),
    {
        get_binding(&self.bindings, id)
    }

    /// Records the inferred type of a variable for the rest of the scope.
    pub fn assign(&mut self, id: u32, type_def: TypeDef)
        ensures
            final(self)@ == spec_bind(old(self)@, id, type_def),
    {
        set_binding(&mut self.bindings, id, type_def)
    }

    /// An independent copy, for giving a nested scope its own environment.
    pub fn snapshot(&self) -> (e: LocalEnv)
        ensures
            e@ == self@,
    {
        let n = self.bindings.len();
        let mut out: Vec<(u32, TypeDef)> = Vec::new();
        let mut k: usize = 0;
        while k < n
            invariant
                n == self.bindings@.len(),
                0 <= k <= n,
                out@ == self.bindings@.subrange(0, k as int),
            decreases n - k,
        {
            out.push(self.bindings[k]);
            proof {
                assert(out@ =~= self.bindings@.subrange(0, k + 1));
            }
            k += 1;
        }
        proof {
            assert(out@ =~= self.bindings@);
        }
        LocalEnv { bindings: out }
    }
}

/// The program-wide, compile-time typing state: what is statically known
/// about the input record. It is read-only while one expression is typed.
#[derive(Clone, Copy, Debug)]
pub struct ExternalEnv {
    /// The inferred type of the whole input record.
    pub target: TypeDef,
}

impl ExternalEnv {
    pub fn new(target: TypeDef) -> (e: ExternalEnv)
        ensures
            e.target == target,
    {
        ExternalEnv { target }
    }
}

} // verus!
