//! The tagged-map codec: encoding a record instance into a tag-keyed map
//! value in schema order, and decoding an incoming tag-keyed map back into a
//! record instance, defaulting missing fields, skipping unknown tags and
//! letting the last occurrence of a duplicated tag win.

use vstd::prelude::*;

use crate::record::FieldValue;
use crate::record::Record;
use crate::record::VFieldValue;
use crate::record::default_fv;
use crate::record::default_record;
use crate::record::default_slots_from;
use crate::record::fv_conforms;
use crate::record::lemma_default_slots;
use crate::record::lemma_slots_conform;
use crate::record::lemma_vslots;
use crate::record::rec_conforms;
use crate::record::vslot_of;
use crate::record::vslots_of;
use crate::schema::FieldType;
use crate::schema::RecordSchema;
use crate::schema::VFieldSpec;
use crate::schema::VFieldType;
use crate::schema::find_tag;
use crate::schema::find_tag_from;
use crate::schema::lemma_find_tag_from;
use crate::schema::lemma_vfields_index;
use crate::schema::lemma_wf_field_at;
use crate::schema::wf_schema;
use crate::schema::wf_ty;
use crate::value::VVal;
use crate::value::Value;
use crate::value::lemma_ventries;
use crate::value::ventries_of;
use crate::value::vval_of;
use vstd::pervasive::VecAdditionalExecFns;

verus! {

/// The error reported when an incoming value cannot be decoded.
#[derive(Debug, PartialEq, Eq, Structural, Clone, Copy)]
pub enum DecodeError {
    /// The incoming value for a record is not a map.
    ExpectedMap,
    /// An incoming map key for a record is not an unsigned integer.
    NonIntegerKey,
    /// The value under a recognized tag does not match the field's declared
    /// type.
    WrongType,
    /// The incoming bytes are not a well-formed encoding of a value that
    /// this codec can carry.
    Malformed,
}

/// The wire encoding of one present field value of the given declared type.
pub open spec fn enc_fv(t: VFieldType, v: VFieldValue) -> VVal
    decreases v, 2int,
{
    match v {
        VFieldValue::Uint(n) => VVal::Uint(n),
        VFieldValue::Text(s) => VVal::Text(s),
        VFieldValue::Bool(b) => VVal::Bool(b),
        VFieldValue::Record(fs) => match t {
            VFieldType::Record(sub) => VVal::Table(enc_entries_from(sub, fs, 0)),
            _ => VVal::Bool(false),
        },
        VFieldValue::Dict(es) => VVal::Table(es),
    }
}

/// The tag-keyed entries emitted for the slots from index `i` on, in schema
/// order: one entry per present slot, none for an absent optional field.
pub open spec fn enc_entries_from(
    schema: Seq<VFieldSpec>,
    fs: Seq<Option<VFieldValue>>,
    i: int,
) -> Seq<(VVal, VVal)>
    decreases fs, fs.len() - i,
{
    if i < 0 || i >= fs.len() {
        Seq::empty()
    } else {
        (match fs[i] {
            Some(v) => seq![(VVal::Uint(schema[i].tag), enc_fv(schema[i].ty, v))],
            None => Seq::empty(),
        }) + enc_entries_from(schema, fs, i + 1)
    }
}

/// The full encoding of a record: a map keyed by the tags of its present
/// fields, in schema order.
pub open spec fn enc_record(schema: Seq<VFieldSpec>, fs: Seq<Option<VFieldValue>>) -> VVal {
    VVal::Table(enc_entries_from(schema, fs, 0))
}

/// The number of present slots from index `i` on: the exact entry count of
/// the emitted map.
pub open spec fn count_present_from(fs: Seq<Option<VFieldValue>>, i: int) -> int
    decreases fs.len() - i,
{
    if i < 0 || i >= fs.len() {
        0
    } else {
        (if fs[i] is Some {
            1int
        } else {
            0int
        }) + count_present_from(fs, i + 1)
    }
}

/// Decoding one incoming value as a field of the given declared type.
pub open spec fn dec_val(t: VFieldType, v: VVal) -> Result<VFieldValue, DecodeError>
    decreases v, 0int,
{
    match t {
        VFieldType::Uint => match v {
            VVal::Uint(n) => Ok(VFieldValue::Uint(n)),
            _ => Err(DecodeError::WrongType),
        },
        VFieldType::Text => match v {
            VVal::Text(s) => Ok(VFieldValue::Text(s)),
            _ => Err(DecodeError::WrongType),
        },
        VFieldType::Bool => match v {
            VVal::Bool(b) => Ok(VFieldValue::Bool(b)),
            _ => Err(DecodeError::WrongType),
        },
        VFieldType::Dict => match v {
            VVal::Table(es) => Ok(VFieldValue::Dict(es)),
            _ => Err(DecodeError::WrongType),
        },
        VFieldType::Record(sub) => match v {
            VVal::Table(es) => match dec_entries(sub, default_slots_from(sub, 0), es) {
                Ok(fs) => Ok(VFieldValue::Record(fs)),
                Err(e) => Err(e),
            },
            _ => Err(DecodeError::WrongType),
        },
    }
}

/// One linear pass over the incoming entries, starting from the slots `fs`:
/// a recognized tag overwrites its slot (so a later duplicate wins), an
/// unknown tag is skipped, a non-integer key or a type mismatch aborts.
pub open spec fn dec_entries(
    schema: Seq<VFieldSpec>,
    fs: Seq<Option<VFieldValue>>,
    entries: Seq<(VVal, VVal)>,
) -> Result<Seq<Option<VFieldValue>>, DecodeError>
    decreases entries, 1int,
{
    if entries.len() == 0 {
        Ok(fs)
    } else {
        match entries[0].0 {
            VVal::Uint(t) => {
                let i = find_tag(schema, t);
                if i < schema.len() {
                    match dec_val(schema[i].ty, entries[0].1) {
                        Ok(fv) => dec_entries(
                            schema,
                            fs.update(i, Some(fv)),
                            entries.subrange(1, entries.len() as int),
                        ),
                        Err(e) => Err(e),
                    }
                } else {
                    dec_entries(schema, fs, entries.subrange(1, entries.len() as int))
                }
            },
            _ => Err(DecodeError::NonIntegerKey),
        }
    }
}

/// Decoding an incoming tag-keyed map into a record: a single pass starting
/// from the schema's default record.
pub open spec fn dec_record(
    schema: Seq<VFieldSpec>,
    entries: Seq<(VVal, VVal)>,
) -> Result<Seq<Option<VFieldValue>>, DecodeError> {
    dec_entries(schema, default_record(schema), entries)
}

/// Serializes a record instance into a tag-keyed map value: one entry per
/// present field, in schema order, keyed by the field's tag. Absent optional
/// fields contribute no entry; this step cannot fail.
pub fn encode_record(schema: &RecordSchema, rec: &Record) -> (out: Value)
    requires
        rec_conforms(rec@, schema@),
    ensures
        out@ == enc_record(schema@, rec@),
    decreases rec, 0int,
{
    let ghost gschema = schema@;
    let ghost gslots = rec@;
    proof {
        lemma_vslots(rec.fields@, 0);
        lemma_slots_conform(gslots, gschema, 0);
    }
    let n = rec.fields.len();
    let mut out: Vec<(Value, Value)> = Vec::new();
    let mut i: usize = 0;
    while i < n
        invariant
            rec_conforms(gslots, gschema),
            gschema == schema@,
            gslots == rec@,
            gslots == vslots_of(rec.fields@, 0),
            n == rec.fields@.len(),
            gslots.len() == n,
            forall|k: int| 0 <= k < n ==> (gschema[k].optional || gslots[k] is Some),
            forall|k: int|
                0 <= k < n && gslots[k] is Some ==> fv_conforms(gslots[k]->0, gschema[k].ty),
            0 <= i <= n,
            enc_entries_from(gschema, gslots, 0) == ventries_of(out@, 0) + enc_entries_from(
                gschema,
                gslots,
                i as int,
            ),
        decreases n - i,
    {
        proof {
            lemma_vslots(rec.fields@, 0);
            crate::schema::lemma_vfields_len(schema.fields@, 0);
            lemma_vfields_index(schema.fields@, 0, i as int);
        }
        match &rec.fields[i] {
            Some(fv) => {
                let key = Value::Uint(schema.fields[i].tag);
                let val = encode_field(&schema.fields[i].ty, fv);
                let ghost old_out = out@;
                out.push((key, val));
                proof {
                    lemma_ventries(old_out, 0);
                    lemma_ventries(out@, 0);
                    assert(ventries_of(out@, 0) =~= ventries_of(old_out, 0) + seq![
                        (VVal::Uint(gschema[i as int].tag), enc_fv(gschema[i as int].ty, gslots[i as int]->0)),
                    ]);
                    assert(enc_entries_from(gschema, gslots, i as int) == seq![
                        (VVal::Uint(gschema[i as int].tag), enc_fv(gschema[i as int].ty, gslots[i as int]->0)),
                    ] + enc_entries_from(gschema, gslots, i + 1));
                    assert(enc_entries_from(gschema, gslots, 0) =~= ventries_of(out@, 0)
                        + enc_entries_from(gschema, gslots, i + 1));
                }
            },
            None => {
                proof {
                    assert(enc_entries_from(gschema, gslots, i as int) =~= Seq::<
                        (VVal, VVal),
                    >::empty() + enc_entries_from(gschema, gslots, i + 1));
                    assert(enc_entries_from(gschema, gslots, i as int) =~= enc_entries_from(
                        gschema,
                        gslots,
                        i + 1,
                    ));
                }
            },
        }
        i = i + 1;
    }
    proof {
        assert(enc_entries_from(gschema, gslots, 0) =~= ventries_of(out@, 0) + Seq::<
            (VVal, VVal),
        >::empty());
        assert(enc_entries_from(gschema, gslots, 0) =~= ventries_of(out@, 0));
    }
    Value::Table(out)
}

/// Serializes one present field value of the given declared type.
pub fn encode_field(t: &FieldType, v: &FieldValue) -> (out: Value)
    requires
        fv_conforms(v@, t@),
    ensures
        out@ == enc_fv(t@, v@),
    decreases v, 2int,
{
    match v {
        FieldValue::Uint(n) => Value::Uint(*n),
        FieldValue::Text(s) => Value::Text(s.clone()),
        FieldValue::Bool(b) => Value::Bool(*b),
        FieldValue::Record(r) => match t {
            FieldType::Record(sub) => encode_record(sub, r),
            _ => Value::Bool(false),
        },
        FieldValue::Dict(es) => Value::Table(clone_entries(es)),
    }
}

/// Copies a list of key-value entries.
fn clone_entries(es: &Vec<(Value, Value)>) -> (out: Vec<(Value, Value)>)
    ensures
        ventries_of(out@, 0) == ventries_of(es@, 0),
        out@.len() == es@.len(),
    decreases es,
{
    let n = es.len();
    let mut out: Vec<(Value, Value)> = Vec::new();
    let mut i: usize = 0;
    while i < n
        invariant
            n == es@.len(),
            0 <= i <= n,
            out@.len() == i,
            forall|k: int|
                0 <= k < i ==> vval_of(#[trigger] out@[k].0) == vval_of(es@[k].0) && vval_of(
                    out@[k].1,
                ) == vval_of(es@[k].1),
        decreases n - i,
    {
        let k = clone_value(&es[i].0);
        let v = clone_value(&es[i].1);
        out.push((k, v));
        i = i + 1;
    }
    proof {
        lemma_ventries(es@, 0);
        lemma_ventries(out@, 0);
        assert(ventries_of(out@, 0) =~= ventries_of(es@, 0));
    }
    out
}

/// Copies a wire value.
pub fn clone_value(v: &Value) -> (out: Value)
    ensures
        out@ == v@,
    decreases v,
{
    match v {
        Value::Uint(n) => Value::Uint(*n),
        Value::Text(s) => Value::Text(s.clone()),
        Value::Bool(b) => Value::Bool(*b),
        Value::Table(es) => Value::Table(clone_entries(es)),
    }
}

/// Builds the default record for a schema: every optional field absent,
/// every required field at the default value of its declared type. This is
/// the starting point of every decode call.
pub fn default_record_for(schema: &RecordSchema) -> (r: Record)
    ensures
        r@ == default_record(schema@),
    decreases schema, 0int,
{
    proof {
        crate::schema::lemma_vfields_len(schema.fields@, 0);
    }
    let n = schema.fields.len();
    let mut fields: Vec<Option<FieldValue>> = Vec::new();
    let mut i: usize = 0;
    while i < n
        invariant
            n == schema.fields@.len(),
            0 <= i <= n,
            fields@.len() == i,
            forall|k: int|
                0 <= k < i ==> vslot_of(#[trigger] fields@[k]) == (
                if schema.fields@[k].optional {
                    None
                } else {
                    Some(default_fv(schema.fields@[k]@.ty))
                }),
        decreases n - i,
    {
        if schema.fields[i].optional {
            fields.push(None);
        } else {
            let fv = default_field(&schema.fields[i].ty);
            fields.push(Some(fv));
        }
        i = i + 1;
    }
    proof {
        lemma_vslots(fields@, 0);
        lemma_default_slots(schema@, 0);
        crate::schema::lemma_vfields(schema.fields@, 0);
        assert(vslots_of(fields@, 0) =~= default_slots_from(schema@, 0));
    }
    Record { fields }
}

/// Builds the default value of one field type.
pub fn default_field(t: &FieldType) -> (v: FieldValue)
    ensures
        v@ == default_fv(t@),
    decreases t, 1int,
{
    match t {
        FieldType::Uint => FieldValue::Uint(0),
        FieldType::Text => FieldValue::Text(String::new()),
        FieldType::Bool => FieldValue::Bool(false),
        FieldType::Record(sub) => FieldValue::Record(default_record_for(sub)),
        FieldType::Dict => FieldValue::Dict(Vec::new()),
    }
}

/// The index of the first schema field declaring tag `t`, or the field
/// count when no field declares it.
pub fn find_tag_index(schema: &RecordSchema, t: u64) -> (i: usize)
    ensures
        i as int == find_tag(schema@, t),
{
    proof {
        crate::schema::lemma_vfields_len(schema.fields@, 0);
    }
    let n = schema.fields.len();
    let mut j: usize = 0;
    while j < n
        invariant
            n == schema.fields@.len(),
            n == schema@.len(),
            0 <= j <= n,
            find_tag(schema@, t) == find_tag_from(schema@, t, j as int),
        decreases n - j,
    {
        proof {
            lemma_vfields_index(schema.fields@, 0, j as int);
        }
        if schema.fields[j].tag == t {
            return j;
        }
        j = j + 1;
    }
    n
}

/// Reconstructs a record instance from an incoming tag-keyed map value:
/// starts from the schema's default record and makes a single pass over the
/// incoming entries in wire order. A recognized tag overwrites its field
/// (so the last occurrence of a duplicated tag wins), an unknown tag is
/// skipped, a missing tag leaves the default in place; only a non-integer
/// key or a type mismatch under a recognized tag fails.
pub fn decode_record(schema: &RecordSchema, v: &Value) -> (r: Result<Record, DecodeError>)
    requires
        wf_schema(schema@),
    ensures
        v@ matches VVal::Table(es) ==> (match r {
            Ok(rec) => dec_record(schema@, es) == Ok::<Seq<Option<VFieldValue>>, DecodeError>(
                rec@,
            ),
            Err(e) => dec_record(schema@, es) == Err::<Seq<Option<VFieldValue>>, DecodeError>(e),
        }),
        !(v@ is Table) ==> r == Err::<Record, DecodeError>(DecodeError::ExpectedMap),
    decreases v, 0int,
{
    match v {
        Value::Table(es) => {
            let ghost ges = ventries_of(es@, 0);
            proof {
                lemma_ventries(es@, 0);
                crate::schema::lemma_vfields_len(schema.fields@, 0);
            }
            let start = default_record_for(schema);
            let mut slots: Vec<Option<FieldValue>> = start.fields;
            proof {
                lemma_default_slots(schema@, 0);
                lemma_vslots(slots@, 0);
                assert(vslots_of(slots@, 0) == default_record(schema@));
                assert(vslots_of(slots@, 0).len() == slots@.len());
                assert(default_record(schema@).len() == schema@.len());
                assert(ges.subrange(0, ges.len() as int) =~= ges);
            }
            let n = es.len();
            let mut j: usize = 0;
            while j < n
                invariant
                    wf_schema(schema@),
                    n == es@.len(),
                    ges == ventries_of(es@, 0),
                    v@ == VVal::Table(ges),
                    *v is Table,
                    *es == v->Table_0,
                    ges.len() == n,
                    0 <= j <= n,
                    slots@.len() == schema@.len(),
                    schema@.len() == schema.fields@.len(),
                    dec_entries(
                        schema@,
                        vslots_of(slots@, 0),
                        ges.subrange(j as int, ges.len() as int),
                    ) == dec_entries(schema@, default_record(schema@), ges),
                decreases n - j,
            {
                let ghost tail = ges.subrange(j as int, ges.len() as int);
                proof {
                    lemma_ventries(es@, 0);
                    lemma_vslots(slots@, 0);
                    assert(tail[0] == ges[j as int]);
                    assert(tail.subrange(1, tail.len() as int) =~= ges.subrange(
                        j + 1,
                        ges.len() as int,
                    ));
                }
                let entry = &es[j];
                proof {
                    assert(*entry == es@[j as int]);
                    assert(tail[0] == (vval_of(entry.0), vval_of(entry.1)));
                    assert(tail.len() == n - j);
                }
                let ghost cur = vslots_of(slots@, 0);
                match &entry.0 {
                    Value::Uint(t) => {
                        let idx = find_tag_index(schema, *t);
                        if idx < schema.fields.len() {
                            proof {
                                lemma_find_tag_from(schema@, *t, 0);
                                lemma_vfields_index(schema.fields@, 0, idx as int);
                                lemma_wf_field_at(schema@, 0, idx as int);
                                assert(decreases_to!(*v => v->Table_0));
                                assert(decreases_to!(*es => es@[j as int]));
                                assert(decreases_to!(es@[j as int] => es@[j as int].1));
                            }
                            match decode_value(&schema.fields[idx].ty, &entry.1) {
                                Ok(fv) => {
                                    let ghost old_slots = slots@;
                                    slots.set(idx, Some(fv));
                                    proof {
                                        lemma_vslots(old_slots, 0);
                                        lemma_vslots(slots@, 0);
                                        assert(vslots_of(slots@, 0) =~= cur.update(
                                            idx as int,
                                            Some(fv@),
                                        ));
                                        assert(dec_val(schema@[idx as int].ty, tail[0].1)
                                            == Ok::<VFieldValue, DecodeError>(fv@));
                                        assert(dec_entries(schema@, cur, tail) == dec_entries(
                                            schema@,
                                            vslots_of(slots@, 0),
                                            tail.subrange(1, tail.len() as int),
                                        ));
                                    }
                                },
                                Err(e) => {
                                    proof {
                                        assert(dec_entries(schema@, cur, tail) == Err::<
                                            Seq<Option<VFieldValue>>,
                                            DecodeError,
                                        >(e));
                                    }
                                    return Err(e);
                                },
                            }
                        } else {
                            proof {
                                assert(dec_entries(schema@, cur, tail) == dec_entries(
                                    schema@,
                                    cur,
                                    tail.subrange(1, tail.len() as int),
                                ));
                            }
                        }
                    },
                    _ => {
                        proof {
                            assert(!(vval_of(entry.0) is Uint));
                            assert(dec_entries(schema@, cur, tail) == Err::<
                                Seq<Option<VFieldValue>>,
                                DecodeError,
                            >(DecodeError::NonIntegerKey));
                        }
                        return Err(DecodeError::NonIntegerKey);
                    },
                }
                j = j + 1;
            }
            proof {
                assert(ges.subrange(n as int, ges.len() as int) =~= Seq::<(VVal, VVal)>::empty());
            }
            Ok(Record { fields: slots })
        },
        _ => Err(DecodeError::ExpectedMap),
    }
}

/// Decodes one incoming value as a field of the given declared type.
pub fn decode_value(t: &FieldType, v: &Value) -> (r: Result<FieldValue, DecodeError>)
    requires
        wf_ty(t@),
    ensures
        r matches Ok(fv) ==> dec_val(t@, v@) == Ok::<VFieldValue, DecodeError>(fv@),
        r matches Err(e) ==> dec_val(t@, v@) == Err::<VFieldValue, DecodeError>(e),
    decreases v, 1int,
{
    match t {
        FieldType::Uint => match v {
            Value::Uint(n) => Ok(FieldValue::Uint(*n)),
            _ => Err(DecodeError::WrongType),
        },
        FieldType::Text => match v {
            Value::Text(s) => Ok(FieldValue::Text(s.clone())),
            _ => Err(DecodeError::WrongType),
        },
        FieldType::Bool => match v {
            Value::Bool(b) => Ok(FieldValue::Bool(*b)),
            _ => Err(DecodeError::WrongType),
        },
        FieldType::Dict => match v {
            Value::Table(es) => Ok(FieldValue::Dict(clone_entries(es))),
            _ => Err(DecodeError::WrongType),
        },
        FieldType::Record(sub) => match v {
            Value::Table(_) => match decode_record(sub, v) {
                Ok(rec) => Ok(FieldValue::Record(rec)),
                Err(e) => Err(e),
            },
            _ => Err(DecodeError::WrongType),
        },
    }
}

} // verus!
