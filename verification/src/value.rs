//! The opaque structured payload carried by events and artifacts.
//!
//! An event's `context` and an artifact's `metadata` are schema-less
//! tagged values (null / bool / number / string / sequence / mapping),
//! preserved verbatim through signing and storage. A mapping is an
//! ordered sequence of key-value entries; the canonical byte encoding
//! (see [`crate::codec`]) follows that entry order, so values meant to
//! hash reproducibly should be built with their entries in a fixed
//! order.

use vstd::prelude::*;

verus! {

broadcast use vstd::std_specs::vec::group_vec_axioms;

/// Mathematical model of a [`Value`].
pub enum ValueV {
    Null,
    Bool(bool),
    Int(i64),
    Str(Seq<char>),
    Arr(Seq<ValueV>),
    Obj(Seq<(Seq<char>, ValueV)>),
}

/// A schema-less structured payload, preserved verbatim by the ledger.
///
/// Numbers are 64-bit signed integers.
pub enum Value {
    Null,
    Bool(bool),
    Int(i64),
    Str(String),
    Arr(Vec<Value>),
    Obj(Vec<(String, Value)>),
}

/// The model of a [`Value`]: every container is abstracted to a sequence.
pub open spec fn value_view(v: Value) -> ValueV
    decreases v,
    via value_view_decreases
{
    match v {
        Value::Null => ValueV::Null,
        Value::Bool(b) => ValueV::Bool(b),
        Value::Int(i) => ValueV::Int(i),
        Value::Str(s) => ValueV::Str(s@),
        Value::Arr(es) => ValueV::Arr(values_view(es@)),
        Value::Obj(ps) => ValueV::Obj(pairs_view(ps@)),
    }
}

/// The models of a sequence of values, elementwise.
pub open spec fn values_view(s: Seq<Value>) -> Seq<ValueV>
    decreases s,
{
    if s.len() == 0 {
        Seq::empty()
    } else {
        values_view(s.drop_last()).push(value_view(s.last()))
    }
}

/// The models of a sequence of key-value entries, elementwise.
pub open spec fn pairs_view(s: Seq<(String, Value)>) -> Seq<(Seq<char>, ValueV)>
    decreases s,
{
    if s.len() == 0 {
        Seq::empty()
    } else {
        pairs_view(s.drop_last()).push((s.last().0@, value_view(s.last().1)))
    }
}

#[via_fn]
proof fn value_view_decreases(v: Value) {
    match v {
        Value::Arr(es) => {
            assert(decreases_to!(es => es@));
        },
        Value::Obj(ps) => {
            assert(decreases_to!(ps => ps@));
        },
        _ => {},
    }
}

/// `values_view` maps `value_view` over the sequence, index by index.
pub proof fn lemma_values_view(s: Seq<Value>)
    ensures
        values_view(s).len() == s.len(),
        forall|i: int| 0 <= i < s.len() ==> values_view(s)[i] == value_view(s[i]),
    decreases s.len(),
{
    if s.len() > 0 {
        lemma_values_view(s.drop_last());
    }
}

/// `pairs_view` maps the entry model over the sequence, index by index.
pub proof fn lemma_pairs_view(s: Seq<(String, Value)>)
    ensures
        pairs_view(s).len() == s.len(),
        forall|i: int| 0 <= i < s.len() ==> pairs_view(s)[i] == (s[i].0@, value_view(s[i].1)),
    decreases s.len(),
{
    if s.len() > 0 {
        lemma_pairs_view(s.drop_last());
    }
}

impl View for Value {
    type V = ValueV;

    open spec fn view(&self) -> ValueV {
        value_view(*self)
    }
}

impl DeepView for Value {
    type V = ValueV;

    open spec fn deep_view(&self) -> ValueV {
        value_view(*self)
    }
}

impl Clone for Value {
    /// Cloning preserves the model.
    fn clone(&self) -> (r: Value)
        ensures
            r@ == self@,
        decreases *self,
    {
        match self {
            Value::Null => Value::Null,
            Value::Bool(b) => Value::Bool(*b),
            Value::Int(i) => Value::Int(*i),
            Value::Str(s) => Value::Str(s.clone()),
            Value::Arr(es) => {
                let mut out: Vec<Value> = Vec::new();
                let mut k: usize = 0;
                while k < es.len()
                    invariant
                        *self == Value::Arr(*es),
                        k <= es@.len(),
                        out@.len() == k,
                        forall|j: int| 0 <= j < k ==> value_view(#[trigger] out@[j]) == value_view(
                            es@[j],
                        ),
                    decreases es@.len() - k,
                {
                    proof {
                        assert(decreases_to!(*self => self->Arr_0));
                        assert(decreases_to!(*es => es@));
                        assert(decreases_to!(es@ => es@[k as int]));
                    }
                    let c = es[k].clone();
                    out.push(c);
                    k += 1;
                }
                proof {
                    lemma_values_view(out@);
                    lemma_values_view(es@);
                    assert(values_view(out@) =~= values_view(es@));
                }
                Value::Arr(out)
            },
            Value::Obj(ps) => {
                let mut out: Vec<(String, Value)> = Vec::new();
                let mut k: usize = 0;
                while k < ps.len()
                    invariant
                        *self == Value::Obj(*ps),
                        k <= ps@.len(),
                        out@.len() == k,
                        forall|j: int| 0 <= j < k ==> (#[trigger] out@[j]).0@ == ps@[j].0@
                            && value_view(out@[j].1) == value_view(ps@[j].1),
                    decreases ps@.len() - k,
                {
                    proof {
                        assert(decreases_to!(*self => self->Obj_0));
                        assert(decreases_to!(*ps => ps@));
                        assert(decreases_to!(ps@ => ps@[k as int]));
                        assert(decreases_to!(ps@[k as int] => ps@[k as int].1));
                    }
                    let key = ps[k].0.clone();
                    let val = ps[k].1.clone();
                    out.push((key, val));
                    k += 1;
                }
                proof {
                    lemma_pairs_view(out@);
                    lemma_pairs_view(ps@);
                    assert(pairs_view(out@) =~= pairs_view(ps@));
                }
                Value::Obj(out)
            },
        }
    }
}

} // verus!
