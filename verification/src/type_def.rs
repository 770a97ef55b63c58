use vstd::prelude::*;
use crate::value::Value;

verus! {

/// The statically inferred description of an expression's result: the set of
/// value shapes the expression can produce, plus two independent flags.
///
/// * `fallible`: resolution may produce a recoverable error.
/// * `abortable`: resolution may produce an error that terminates the whole
///   record rather than being recoverable.
///
/// The shape set is kept as one boolean per shape of [`Value`]; a `TypeDef`
/// whose shape set is empty is called "never" and describes an expression
/// that cannot produce a value at all (such as an explicit abort). Nothing
/// may be sequenced after a never-typed expression inside a block.
///
/// `TypeDef`s form a join-semilattice under [`TypeDef::union`], which unions
/// the shape sets and ORs the flags; it is used wherever two control-flow
/// paths meet.
#[derive(Clone, Copy, Debug, PartialEq, Eq, Structural)]
pub struct TypeDef {
    pub contains_null: bool,
    pub contains_boolean: bool,
    pub contains_integer: bool,
    pub contains_timestamp: bool,
    pub fallible: bool,
    pub abortable: bool,
}

impl TypeDef {
    /// The type of an expression that always yields null, infallibly.
    pub fn null() -> (t: TypeDef)
        ensures
            t == (TypeDef {
                contains_null: true,
                contains_boolean: false,
                contains_integer: false,
                contains_timestamp: false,
                fallible: false,
                abortable: false,
            }),
    {
        TypeDef {
            contains_null: true,
            contains_boolean: false,
            contains_integer: false,
            contains_timestamp: false,
            fallible: false,
            abortable: false,
        }
    }

    /// The type of an expression that always yields a boolean, infallibly.
    pub fn boolean() -> (t: TypeDef)
        ensures
            t == (TypeDef {
                contains_null: false,
                contains_boolean: true,
                contains_integer: false,
                contains_timestamp: false,
                fallible: false,
                abortable: false,
            }),
    {
        TypeDef {
            contains_null: false,
            contains_boolean: true,
            contains_integer: false,
            contains_timestamp: false,
            fallible: false,
            abortable: false,
        }
    }

    /// The type of an expression that always yields an integer, infallibly.
    pub fn integer() -> (t: TypeDef)
        ensures
            t == (TypeDef {
                contains_null: false,
                contains_boolean: false,
                contains_integer: true,
                contains_timestamp: false,
                fallible: false,
                abortable: false,
            }),
    {
        TypeDef {
            contains_null: false,
            contains_boolean: false,
            contains_integer: true,
            contains_timestamp: false,
            fallible: false,
            abortable: false,
        }
    }

    /// The type of an expression that cannot produce a value: empty shape
    /// set, no flags.
    pub fn never() -> (t: TypeDef)
        ensures
            t == (TypeDef {
                contains_null: false,
                contains_boolean: false,
                contains_integer: false,
                contains_timestamp: false,
                fallible: false,
                abortable: false,
            }),
    {
        TypeDef {
            contains_null: false,
            contains_boolean: false,
            contains_integer: false,
            contains_timestamp: false,
            fallible: false,
            abortable: false,
        }
    }

    /// An empty shape set marks a terminating ("never") expression.
    pub open spec fn spec_is_never(self) -> bool {
        !self.contains_null && !self.contains_boolean && !self.contains_integer
            && !self.contains_timestamp
    }

    pub fn is_never(&self) -> (b: bool)
        ensures
            b == self.spec_is_never(),
    {
        !self.contains_null && !self.contains_boolean && !self.contains_integer
            && !self.contains_timestamp
    }

    pub fn is_fallible(&self) -> (b: bool)
        ensures
            b == self.fallible,
    {
        self.fallible
    }

    pub fn is_abortable(&self) -> (b: bool)
        ensures
            b == self.abortable,
    {
        self.abortable
    }

    /// Nullability is the membership of the null shape in the shape set.
    pub fn is_nullable(&self) -> (b: bool)
        ensures
            b == self.contains_null,
    {
        self.contains_null
    }

    /// The same shapes with the `fallible` flag replaced.
    pub fn with_fallibility(self, fallible: bool) -> (t: TypeDef)
        ensures
            t == (TypeDef { fallible, ..self }),
    {
        TypeDef { fallible, ..self }
    }

    /// The same shapes with the `abortable` flag replaced.
    pub fn with_abortability(self, abortable: bool) -> (t: TypeDef)
        ensures
            t == (TypeDef { abortable, ..self }),
    {
        TypeDef { abortable, ..self }
    }

    /// The join of the lattice: either branch's shapes are possible, and a
    /// flag is set when it is set on either side.
    pub open spec fn spec_union(self, other: TypeDef) -> TypeDef {
        TypeDef {
            contains_null: self.contains_null || other.contains_null,
            contains_boolean: self.contains_boolean || other.contains_boolean,
            contains_integer: self.contains_integer || other.contains_integer,
            contains_timestamp: self.contains_timestamp || other.contains_timestamp,
            fallible: self.fallible || other.fallible,
            abortable: self.abortable || other.abortable,
        }
    }

    pub fn union(self, other: TypeDef) -> (t: TypeDef)
        ensures
            t == self.spec_union(other),
    {
        TypeDef {
            contains_null: self.contains_null || other.contains_null,
            contains_boolean: self.contains_boolean || other.contains_boolean,
            contains_integer: self.contains_integer || other.contains_integer,
            contains_timestamp: self.contains_timestamp || other.contains_timestamp,
            fallible: self.fallible || other.fallible,
            abortable: self.abortable || other.abortable,
        }
    }

    /// Shape membership: does this type admit the shape of `v`?
    pub open spec fn spec_contains(self, v: Value) -> bool {
        match v {
            Value::Null => self.contains_null,
            Value::Boolean(_) => self.contains_boolean,
            Value::Integer(_) => self.contains_integer,
            Value::Timestamp(_) => self.contains_timestamp,
        }
    }

    pub fn contains(&self, v: &Value) -> (b: bool)
        ensures
            b == self.spec_contains(*v),
    {
        match v {
            Value::Null => self.contains_null,
            Value::Boolean(_) => self.contains_boolean,
            Value::Integer(_) => self.contains_integer,
            Value::Timestamp(_) => self.contains_timestamp,
        }
    }
}

/// The join is commutative, associative and idempotent: `TypeDef`s under
/// `union` form a join-semilattice.
pub proof fn lemma_union_semilattice(a: TypeDef, b: TypeDef, c: TypeDef)
    ensures
        a.spec_union(b) == b.spec_union(a),
        a.spec_union(b).spec_union(c) == a.spec_union(b.spec_union(c)),
        a.spec_union(a) == a,
{
}

} // verus!
