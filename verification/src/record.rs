//! Record instances: the typed values that encode to and decode from a
//! tagged map. A record holds one slot per schema field, in schema order;
//! an absent optional field is the distinct state `None`.

use vstd::prelude::*;

use crate::schema::VFieldSpec;
use crate::schema::VFieldType;
use crate::value::VVal;
use crate::value::Value;
use crate::value::ventries_of;

verus! {

/// The value of one present field, matching its declared type.
#[derive(Debug, PartialEq)]
pub enum FieldValue {
    Uint(u64),
    Text(String),
    Bool(bool),
    /// A nested record, holding one slot per field of the nested schema.
    Record(Record),
    /// A free-form dictionary, kept in wire order.
    Dict(Vec<(Value, Value)>),
}

/// A record instance: one slot per schema field, in schema order. A `None`
/// slot is an absent optional field.
#[derive(Debug, PartialEq)]
pub struct Record {
    pub fields: Vec<Option<FieldValue>>,
}

/// The mathematical model of a present field value.
pub enum VFieldValue {
    Uint(u64),
    Text(Seq<char>),
    Bool(bool),
    Record(Seq<Option<VFieldValue>>),
    Dict(Seq<(VVal, VVal)>),
}

/// The model of a field value.
pub open spec fn vfv_of(v: FieldValue) -> VFieldValue
    decreases v, 0int,
{
    match v {
        FieldValue::Uint(n) => VFieldValue::Uint(n),
        FieldValue::Text(s) => VFieldValue::Text(s@),
        FieldValue::Bool(b) => VFieldValue::Bool(b),
        FieldValue::Record(r) => VFieldValue::Record(vslots_of(r.fields@, 0)),
        FieldValue::Dict(es) => VFieldValue::Dict(ventries_of(es@, 0)),
    }
}

/// The model of one slot: absent stays absent, a present value is modeled.
pub open spec fn vslot_of(s: Option<FieldValue>) -> Option<VFieldValue> {
    match s {
        Some(v) => Some(vfv_of(v)),
        None => None,
    }
}

/// The model of a record's slots, from index `i` on.
pub open spec fn vslots_of(fs: Seq<Option<FieldValue>>, i: int) -> Seq<Option<VFieldValue>>
    decreases fs, fs.len() - i,
{
    if i < 0 || i >= fs.len() {
        Seq::empty()
    } else {
        seq![
            match fs[i] {
                Some(v) => Some(vfv_of(v)),
                None => None,
            },
        ] + vslots_of(fs, i + 1)
    }
}

impl View for FieldValue {
    type V = VFieldValue;

    open spec fn view(&self) -> VFieldValue {
        vfv_of(*self)
    }
}

impl View for Record {
    type V = Seq<Option<VFieldValue>>;

    open spec fn view(&self) -> Seq<Option<VFieldValue>> {
        vslots_of(self.fields@, 0)
    }
}

/// A present field value matches its declared type.
pub open spec fn fv_conforms(v: VFieldValue, t: VFieldType) -> bool
    decreases v, 1int,
{
    match (v, t) {
        (VFieldValue::Uint(_), VFieldType::Uint) => true,
        (VFieldValue::Text(_), VFieldType::Text) => true,
        (VFieldValue::Bool(_), VFieldType::Bool) => true,
        (VFieldValue::Record(fs), VFieldType::Record(sub)) => fs.len() == sub.len()
            && slots_conform_from(fs, sub, 0),
        (VFieldValue::Dict(_), VFieldType::Dict) => true,
        _ => false,
    }
}

/// Every slot from index `i` on conforms to its field specification: a
/// required field is present, and a present value matches the declared type.
pub open spec fn slots_conform_from(
    fs: Seq<Option<VFieldValue>>,
    schema: Seq<VFieldSpec>,
    i: int,
) -> bool
    decreases fs, fs.len() - i,
{
    if i < 0 || i >= fs.len() {
        true
    } else {
        &&& (schema[i].optional || fs[i] is Some)
        &&& (fs[i] matches Some(v) ==> fv_conforms(v, schema[i].ty))
        &&& slots_conform_from(fs, schema, i + 1)
    }
}

/// A record instance conforms to a schema: one slot per field, required
/// fields present, and every present value of the declared type.
pub open spec fn rec_conforms(fs: Seq<Option<VFieldValue>>, schema: Seq<VFieldSpec>) -> bool {
    fs.len() == schema.len() && slots_conform_from(fs, schema, 0)
}

/// The default (zero) value of a field type: zero, the empty string, false,
/// the empty dictionary, or the default record of the nested schema.
pub open spec fn default_fv(t: VFieldType) -> VFieldValue
    decreases t, 1int,
{
    match t {
        VFieldType::Uint => VFieldValue::Uint(0),
        VFieldType::Text => VFieldValue::Text(Seq::empty()),
        VFieldType::Bool => VFieldValue::Bool(false),
        VFieldType::Record(sub) => VFieldValue::Record(default_slots_from(sub, 0)),
        VFieldType::Dict => VFieldValue::Dict(Seq::empty()),
    }
}

/// The default slots for the schema fields from index `i` on: absent for
/// optional fields, the default value of the declared type otherwise.
pub open spec fn default_slots_from(schema: Seq<VFieldSpec>, i: int) -> Seq<Option<VFieldValue>>
    decreases schema, schema.len() - i,
{
    if i < 0 || i >= schema.len() {
        Seq::empty()
    } else {
        seq![
            if schema[i].optional {
                None
            } else {
                Some(default_fv(schema[i].ty))
            },
        ] + default_slots_from(schema, i + 1)
    }
}

/// The default record of a schema: every optional field absent, every
/// required field at its default value.
pub open spec fn default_record(schema: Seq<VFieldSpec>) -> Seq<Option<VFieldValue>> {
    default_slots_from(schema, 0)
}

/// The model of a record's slots, element by element: as long as the slot
/// list, each element the model of the corresponding slot.
pub proof fn lemma_vslots(fs: Seq<Option<FieldValue>>, i: int)
    requires
        0 <= i <= fs.len(),
    ensures
        vslots_of(fs, i) == Seq::new(
            (fs.len() - i) as nat,
            |k: int| match fs[k + i] {
                Some(v) => Some(vfv_of(v)),
                None => None,
            },
        ),
    decreases fs.len() - i,
{
    if i < fs.len() {
        lemma_vslots(fs, i + 1);
    }
    assert(vslots_of(fs, i) =~= Seq::new(
        (fs.len() - i) as nat,
        |k: int| match fs[k + i] {
            Some(v) => Some(vfv_of(v)),
            None => None,
        },
    ));
}

/// Conformance of the slots from index `i` on gives the per-slot facts:
/// required fields are present and present values match their types.
pub proof fn lemma_slots_conform(
    fs: Seq<Option<VFieldValue>>,
    schema: Seq<VFieldSpec>,
    i: int,
)
    requires
        0 <= i <= fs.len(),
        slots_conform_from(fs, schema, i),
    ensures
        forall|k: int|
            i <= k < fs.len() ==> (schema[k].optional || fs[k] is Some),
        forall|k: int|
            i <= k < fs.len() && fs[k] is Some ==> fv_conforms(fs[k]->0, schema[k].ty),
    decreases fs.len() - i,
{
    if i < fs.len() {
        lemma_slots_conform(fs, schema, i + 1);
    }
}

/// The default slots, element by element: as long as the remaining schema,
/// each absent for an optional field and the type's default otherwise.
pub proof fn lemma_default_slots(schema: Seq<VFieldSpec>, i: int)
    requires
        0 <= i <= schema.len(),
    ensures
        default_slots_from(schema, i) == Seq::new(
            (schema.len() - i) as nat,
            |k: int| if schema[k + i].optional {
                None
            } else {
                Some(default_fv(schema[k + i].ty))
            },
        ),
    decreases schema.len() - i,
{
    if i < schema.len() {
        lemma_default_slots(schema, i + 1);
    }
    assert(default_slots_from(schema, i) =~= Seq::new(
        (schema.len() - i) as nat,
        |k: int| if schema[k + i].optional {
            None
        } else {
            Some(default_fv(schema[k + i].ty))
        },
    ));
}

} // verus!
