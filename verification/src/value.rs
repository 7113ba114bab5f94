//! Plain values stored in signals and passed around as props.

use vstd::prelude::*;

verus! {

/// A plain value a signal cell can hold.
#[derive(Clone, Debug)]
pub enum Value {
    Int(i64),
    Text(String),
    Bool(bool),
    Unit,
}

/// The mathematical shape of a [`Value`].
pub enum ValueModel {
    Int(int),
    Text(Seq<char>),
    Bool(bool),
    Unit,
}

impl View for Value {
    type V = ValueModel;

    open spec fn view(&self) -> ValueModel {
        match self {
            Value::Int(i) => ValueModel::Int(*i as int),
            Value::Text(s) => ValueModel::Text(s@),
            Value::Bool(b) => ValueModel::Bool(*b),
            Value::Unit => ValueModel::Unit,
        }
    }
}

impl Value {
    /// A copy with the same model (the derived `Clone` carries no contract).
    pub fn dup(&self) -> (r: Value)
        ensures
            r@ == self@,
    {
        match self {
            Value::Int(i) => Value::Int(*i),
            Value::Text(s) => Value::Text(s.clone()),
            Value::Bool(b) => Value::Bool(*b),
            Value::Unit => Value::Unit,
        }
    }

    /// Value equality: the equality used by `write` to decide whether a
    /// signal actually changed.
    pub fn eq_val(&self, other: &Value) -> (r: bool)
        ensures
            r == (self@ == other@),
    {
        match (self, other) {
            (Value::Int(a), Value::Int(b)) => a == b,
            (Value::Text(a), Value::Text(b)) => String::eq(a, b),
            (Value::Bool(a), Value::Bool(b)) => a == b,
            (Value::Unit, Value::Unit) => true,
            _ => false,
        }
    }
}

/// A single prop handed to a component.
///
/// A read-only signal handle is compared by the identity of the underlying
/// signal, not by value: passing the same signal again must not look like a
/// change, and passing a different signal must.
#[derive(Clone, Debug)]
pub enum PropValue {
    Val(Value),
    SignalRef(usize),
}

/// The mathematical shape of a [`PropValue`].
pub enum PropModel {
    Val(ValueModel),
    SignalRef(int),
}

impl View for PropValue {
    type V = PropModel;

    open spec fn view(&self) -> PropModel {
        match self {
            PropValue::Val(v) => PropModel::Val(v@),
            PropValue::SignalRef(g) => PropModel::SignalRef(*g as int),
        }
    }
}

impl DeepView for PropValue {
    type V = PropModel;

    open spec fn deep_view(&self) -> PropModel {
        self.view()
    }
}

/// The props record passed to a component: positional fields.
#[derive(Clone, Debug)]
pub struct Props {
    pub fields: Vec<PropValue>,
}

impl View for Props {
    type V = Seq<PropModel>;

    open spec fn view(&self) -> Seq<PropModel> {
        self.fields.deep_view()
    }
}

impl PropValue {
    /// Prop equality: plain values by value, signal handles by identity.
    pub fn eq_prop(&self, other: &PropValue) -> (r: bool)
        ensures
            r == (self@ == other@),
    {
        match (self, other) {
            (PropValue::Val(a), PropValue::Val(b)) => a.eq_val(b),
            (PropValue::SignalRef(a), PropValue::SignalRef(b)) => a == b,
            _ => false,
        }
    }
}

impl Props {
    /// An empty props record.
    pub fn empty() -> (r: Props)
        ensures
            r@ == Seq::<PropModel>::empty(),
    {
        Props { fields: Vec::new() }
    }

    /// Equality of whole props records, field by field.
    pub fn eq_props(&self, other: &Props) -> (r: bool)
        ensures
            r == (self@ =~= other@),
    {
        if self.fields.len() != other.fields.len() {
            return false;
        }
        let n = self.fields.len();
        let mut i: usize = 0;
        while i < n
            invariant
                n == self.fields.len(),
                n == other.fields.len(),
                i <= n,
                forall|j: int| 0 <= j < i ==> self@[j] == other@[j],
            decreases n - i,
        {
            assert(self@[i as int] == self.fields[i as int]@);
            if !self.fields[i].eq_prop(&other.fields[i]) {
                return false;
            }
            i += 1;
        }
        true
    }
}

} // verus!
