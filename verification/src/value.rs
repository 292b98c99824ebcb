//! The wire-level data model: the values that the underlying binary codec
//! can carry. A record encodes as a `Value::Table` whose keys are the integer
//! tags of its fields.

use vstd::prelude::*;

verus! {

/// A wire value: an unsigned integer, a text string, a boolean, or a map of
/// key-value entries (kept in wire order; a map used as a record encoding is
/// keyed by unsigned-integer tags).
#[derive(Debug, PartialEq)]
pub enum Value {
    Uint(u64),
    Text(String),
    Bool(bool),
    Table(Vec<(Value, Value)>),
}

/// The mathematical model of a wire value, used by all contracts.
pub enum VVal {
    Uint(u64),
    Text(Seq<char>),
    Bool(bool),
    Table(Seq<(VVal, VVal)>),
}

/// The model of a wire value.
pub open spec fn vval_of(v: Value) -> VVal
    decreases v, 0int,
{
    match v {
        Value::Uint(n) => VVal::Uint(n),
        Value::Text(s) => VVal::Text(s@),
        Value::Bool(b) => VVal::Bool(b),
        Value::Table(es) => VVal::Table(ventries_of(es@, 0)),
    }
}

/// The model of the entries of a map value, from index `i` on.
pub open spec fn ventries_of(es: Seq<(Value, Value)>, i: int) -> Seq<(VVal, VVal)>
    decreases es, es.len() - i,
{
    if i < 0 || i >= es.len() {
        Seq::empty()
    } else {
        seq![(vval_of(es[i].0), vval_of(es[i].1))] + ventries_of(es, i + 1)
    }
}

impl View for Value {
    type V = VVal;

    open spec fn view(&self) -> VVal {
        vval_of(*self)
    }
}

/// The model of a map's entries, element by element: as long as the entry
/// list, each element the pair of models of the corresponding entry.
pub proof fn lemma_ventries(es: Seq<(Value, Value)>, i: int)
    requires
        0 <= i <= es.len(),
    ensures
        ventries_of(es, i) == Seq::new(
            (es.len() - i) as nat,
            |k: int| (vval_of(es[k + i].0), vval_of(es[k + i].1)),
        ),
    decreases es.len() - i,
{
    if i < es.len() {
        lemma_ventries(es, i + 1);
    }
    assert(ventries_of(es, i) =~= Seq::new(
        (es.len() - i) as nat,
        |k: int| (vval_of(es[k + i].0), vval_of(es[k + i].1)),
    ));
}

} // verus!
