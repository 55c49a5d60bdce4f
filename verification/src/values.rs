//! Typed metric values.

use vstd::prelude::*;

verus! {

/// The kind of a series' samples. A series' kind is fixed at its first
/// observation; `Empty` marks a series for which no sample has been seen yet.
#[derive(Clone, Copy, Debug, PartialEq, Eq, Structural)]
pub enum ValueKind {
    Empty,
    Counter,
    Integer,
    Float,
}

/// The mathematical model of one observed value.
pub enum ValueV {
    Counter(u64),
    Integer(i64),
    Float(u64),
    State(u64, Seq<char>),
}

impl ValueV {
    /// The ring kind a numeric value belongs to; `None` for a state value,
    /// which is routed to the tip tier only and never stored in a ring.
    pub open spec fn numeric_kind(self) -> Option<ValueKind> {
        match self {
            ValueV::Counter(_) => Some(ValueKind::Counter),
            ValueV::Integer(_) => Some(ValueKind::Integer),
            ValueV::Float(_) => Some(ValueKind::Float),
            ValueV::State(_, _) => None,
        }
    }
}

/// One observed metric value. A `Counter` is monotonically non-decreasing
/// across scans; an `Integer` is a raw signed reading. A `Float` carries
/// the IEEE-754 bit pattern of the observed reading; the engine stores and
/// transports it opaquely and never computes with it. A `State` pairs a
/// timestamp with a short status text.
#[derive(Debug)]
pub enum Value {
    Counter(u64),
    Integer(i64),
    Float(u64),
    State(u64, String),
}

impl View for Value {
    type V = ValueV;

    open spec fn view(&self) -> ValueV {
        match self {
            Value::Counter(x) => ValueV::Counter(*x),
            Value::Integer(x) => ValueV::Integer(*x),
            Value::Float(x) => ValueV::Float(*x),
            Value::State(t, s) => ValueV::State(*t, s@),
        }
    }
}

impl Value {
    /// A copy of this value.
    pub fn dup(&self) -> (r: Value)
        ensures
            r@ == self@,
    {
        match self {
            Value::Counter(x) => Value::Counter(*x),
            Value::Integer(x) => Value::Integer(*x),
            Value::Float(x) => Value::Float(*x),
            Value::State(t, s) => Value::State(*t, s.clone()),
        }
    }

    /// The ring kind of a numeric value; `None` for a state value.
    pub fn numeric_kind(&self) -> (k: Option<ValueKind>)
        ensures
            k == self@.numeric_kind(),
    {
        match self {
            Value::Counter(_) => Some(ValueKind::Counter),
            Value::Integer(_) => Some(ValueKind::Integer),
            Value::Float(_) => Some(ValueKind::Float),
            Value::State(_, _) => None,
        }
    }

    /// Whether this is a state value.
    pub fn is_state(&self) -> (r: bool)
        ensures
            r == (self@ is State),
    {
        match self {
            Value::State(_, _) => true,
            _ => false,
        }
    }
}

} // verus!
