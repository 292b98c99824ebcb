//! The laws of the codec, each proved against the specification functions
//! that the executable encoder and decoder are verified against: count
//! exactness, the omission of absent optional fields, the encode-decode
//! round trip, order-insensitive decoding with last-occurrence-wins
//! duplicates, and forward and backward compatibility.

use vstd::prelude::*;

use crate::codec::DecodeError;
use crate::codec::count_present_from;
use crate::codec::dec_entries;
use crate::codec::dec_record;
use crate::codec::dec_val;
use crate::codec::enc_entries_from;
use crate::codec::enc_fv;
use crate::codec::enc_record;
use crate::record::VFieldValue;
use crate::record::default_fv;
use crate::record::default_record;
use crate::record::default_slots_from;
use crate::record::fv_conforms;
use crate::record::lemma_default_slots;
use crate::record::lemma_slots_conform;
use crate::record::rec_conforms;
use crate::record::slots_conform_from;
use crate::schema::VFieldSpec;
use crate::schema::VFieldType;
use crate::schema::find_tag;
use crate::schema::lemma_find_tag_from;
use crate::schema::lemma_find_tag_unique;
use crate::schema::lemma_wf_field_at;
use crate::schema::tags_unique;
use crate::schema::wf_fields_from;
use crate::schema::wf_schema;
use crate::schema::wf_ty;
use crate::value::VVal;

verus! {

/// Count exactness: the map emitted for a record holds exactly one entry
/// per present field, for every combination of present and absent optional
/// fields. The declared size of the emitted map is its entry count, so the
/// declared size always equals the number of keys actually written.
pub proof fn lemma_count_exactness(
    schema: Seq<VFieldSpec>,
    fs: Seq<Option<VFieldValue>>,
    a: int,
)
    requires
        0 <= a <= fs.len(),
    ensures
        enc_entries_from(schema, fs, a).len() == count_present_from(fs, a),
    decreases fs.len() - a,
{
    if a < fs.len() {
        lemma_count_exactness(schema, fs, a + 1);
    }
}

/// Whether some entry of a map carries the given tag as its key.
pub open spec fn has_key(entries: Seq<(VVal, VVal)>, t: u64) -> bool {
    exists|j: int| 0 <= j < entries.len() && #[trigger] entries[j].0 == VVal::Uint(t)
}

/// The keys of the map emitted for the slots from `a` on are exactly the
/// tags of the present slots from `a` on.
proof fn lemma_enc_keys(schema: Seq<VFieldSpec>, fs: Seq<Option<VFieldValue>>, a: int, t: u64)
    requires
        fs.len() == schema.len(),
        0 <= a <= fs.len(),
    ensures
        has_key(enc_entries_from(schema, fs, a), t) <==> exists|k: int|
            a <= k < fs.len() && #[trigger] fs[k] is Some && schema[k].tag == t,
    decreases fs.len() - a,
{
    if a < fs.len() {
        lemma_enc_keys(schema, fs, a + 1, t);
        let rest = enc_entries_from(schema, fs, a + 1);
        let whole = enc_entries_from(schema, fs, a);
        match fs[a] {
            Some(v) => {
                let head = seq![(VVal::Uint(schema[a].tag), enc_fv(schema[a].ty, v))];
                assert(whole == head + rest);
                if schema[a].tag == t {
                    assert(whole[0].0 == VVal::Uint(t));
                    assert(has_key(whole, t));
                    assert(fs[a] is Some && schema[a].tag == t);
                } else {
                    assert forall|j: int|
                        0 <= j < whole.len() && #[trigger] whole[j].0 == VVal::Uint(t) implies
                        has_key(rest, t) by {
                        assert(j != 0);
                        assert(whole[j] == rest[j - 1]);
                    }
                    assert forall|j: int|
                        0 <= j < rest.len() && #[trigger] rest[j].0 == VVal::Uint(t) implies
                        has_key(whole, t) by {
                        assert(whole[j + 1] == rest[j]);
                    }
                }
            },
            None => {
                assert(whole =~= rest);
            },
        }
    }
}

/// Omission law: an optional field is present in a record exactly when its
/// tag appears as a key in the record's emitted map. (A required field is
/// always present and its tag always appears.)
pub proof fn lemma_omission(schema: Seq<VFieldSpec>, fs: Seq<Option<VFieldValue>>, i: int)
    requires
        tags_unique(schema),
        fs.len() == schema.len(),
        0 <= i < fs.len(),
    ensures
        has_key(enc_entries_from(schema, fs, 0), schema[i].tag) <==> fs[i] is Some,
{
    lemma_enc_keys(schema, fs, 0, schema[i].tag);
    if fs[i] is Some {
        assert(exists|k: int|
            0 <= k < fs.len() && #[trigger] fs[k] is Some && schema[k].tag == schema[i].tag);
    }
    if has_key(enc_entries_from(schema, fs, 0), schema[i].tag) {
        let k = choose|k: int|
            0 <= k < fs.len() && #[trigger] fs[k] is Some && schema[k].tag == schema[i].tag;
        assert(k == i);
    }
}

/// The slots reached after decoding, position by position: every present
/// slot of `r` from `a` on overwritten into `cur`, everything else kept.
pub open spec fn merge_from(
    cur: Seq<Option<VFieldValue>>,
    r: Seq<Option<VFieldValue>>,
    a: int,
) -> Seq<Option<VFieldValue>> {
    Seq::new(
        cur.len(),
        |k: int| if k >= a && r[k] is Some {
            r[k]
        } else {
            cur[k]
        },
    )
}

/// Decoding the entries emitted for the slots of `r` from `a` on, starting
/// from any slots `cur`, succeeds and overwrites exactly the present slots.
proof fn lemma_dec_enc_entries(
    schema: Seq<VFieldSpec>,
    r: Seq<Option<VFieldValue>>,
    cur: Seq<Option<VFieldValue>>,
    a: int,
)
    requires
        tags_unique(schema),
        wf_fields_from(schema, 0),
        r.len() == schema.len(),
        slots_conform_from(r, schema, 0),
        cur.len() == schema.len(),
        0 <= a <= schema.len(),
    ensures
        dec_entries(schema, cur, enc_entries_from(schema, r, a)) == Ok::<
            Seq<Option<VFieldValue>>,
            DecodeError,
        >(merge_from(cur, r, a)),
    decreases r, schema.len() - a + 1,
{
    lemma_slots_conform(r, schema, 0);
    let whole = enc_entries_from(schema, r, a);
    if a == schema.len() {
        assert(whole =~= Seq::<(VVal, VVal)>::empty());
        assert(merge_from(cur, r, a) =~= cur);
    } else {
        let rest = enc_entries_from(schema, r, a + 1);
        match r[a] {
            Some(fv) => {
                let head = seq![(VVal::Uint(schema[a].tag), enc_fv(schema[a].ty, fv))];
                assert(whole == head + rest);
                assert(whole[0] == head[0]);
                lemma_find_tag_unique(schema, a);
                lemma_wf_field_at(schema, 0, a);
                lemma_dec_enc_val(schema[a].ty, fv);
                assert(whole.subrange(1, whole.len() as int) =~= rest);
                let cur2 = cur.update(a, Some(fv));
                lemma_dec_enc_entries(schema, r, cur2, a + 1);
                assert(merge_from(cur2, r, a + 1) =~= merge_from(cur, r, a));
            },
            None => {
                assert(whole =~= rest);
                lemma_dec_enc_entries(schema, r, cur, a + 1);
                assert(merge_from(cur, r, a + 1) =~= merge_from(cur, r, a));
            },
        }
    }
}

/// Decoding the encoding of one conforming field value of its declared type
/// gives the value back.
proof fn lemma_dec_enc_val(t: VFieldType, v: VFieldValue)
    requires
        wf_ty(t),
        fv_conforms(v, t),
    ensures
        dec_val(t, enc_fv(t, v)) == Ok::<VFieldValue, DecodeError>(v),
    decreases v, 2int,
{
    match v {
        VFieldValue::Record(fs) => match t {
            VFieldType::Record(sub) => {
                lemma_default_slots(sub, 0);
                let defaults = default_slots_from(sub, 0);
                lemma_dec_enc_entries(sub, fs, defaults, 0);
                lemma_slots_conform(fs, sub, 0);
                assert(merge_from(defaults, fs, 0) =~= fs);
            },
            _ => {},
        },
        _ => {},
    }
}

/// Round trip: decoding the map emitted for any schema-conformant record
/// gives the record back, for all-present and mixed-presence optional
/// fields alike.
pub proof fn lemma_round_trip(schema: Seq<VFieldSpec>, r: Seq<Option<VFieldValue>>)
    requires
        wf_schema(schema),
        rec_conforms(r, schema),
    ensures
        dec_record(schema, enc_entries_from(schema, r, 0)) == Ok::<
            Seq<Option<VFieldValue>>,
            DecodeError,
        >(r),
{
    lemma_default_slots(schema, 0);
    let defaults = default_slots_from(schema, 0);
    lemma_dec_enc_entries(schema, r, defaults, 0);
    lemma_slots_conform(r, schema, 0);
    assert(merge_from(defaults, r, 0) =~= r);
}

/// Whether one incoming entry can be consumed without an error: its key is
/// an unsigned integer, and if its tag is recognized, its value decodes as
/// the field's declared type.
pub open spec fn entry_ok(schema: Seq<VFieldSpec>, e: (VVal, VVal)) -> bool {
    match e.0 {
        VVal::Uint(t) => find_tag(schema, t) < schema.len() ==> dec_val(
            schema[find_tag(schema, t)].ty,
            e.1,
        ) is Ok,
        _ => false,
    }
}

/// Whether every incoming entry can be consumed without an error.
pub open spec fn entries_ok(schema: Seq<VFieldSpec>, entries: Seq<(VVal, VVal)>) -> bool {
    forall|j: int| 0 <= j < entries.len() ==> entry_ok(schema, #[trigger] entries[j])
}

/// The position of the last entry keyed by tag `t`, or `-1` when no entry
/// carries it.
pub open spec fn last_pos(entries: Seq<(VVal, VVal)>, t: u64) -> int
    decreases entries.len(),
{
    if entries.len() == 0 {
        -1
    } else {
        let p = last_pos(entries.subrange(1, entries.len() as int), t);
        if p >= 0 {
            1 + p
        } else if entries[0].0 == VVal::Uint(t) {
            0
        } else {
            -1
        }
    }
}

/// `last_pos` points at an entry keyed by `t` after which no entry carries
/// `t`, or is `-1` when no entry carries `t`.
pub proof fn lemma_last_pos(entries: Seq<(VVal, VVal)>, t: u64)
    ensures
        last_pos(entries, t) == -1 ==> forall|j: int|
            0 <= j < entries.len() ==> #[trigger] entries[j].0 != VVal::Uint(t),
        last_pos(entries, t) != -1 ==> 0 <= last_pos(entries, t) < entries.len() && entries[
            last_pos(entries, t)
        ].0 == VVal::Uint(t) && (forall|j: int|
            last_pos(entries, t) < j < entries.len() ==> #[trigger] entries[j].0 != VVal::Uint(
                t,
            )),
    decreases entries.len(),
{
    if entries.len() > 0 {
        let rest = entries.subrange(1, entries.len() as int);
        lemma_last_pos(rest, t);
        assert forall|j: int| 1 <= j < entries.len() implies entries[j] == rest[j - 1] by {}
    }
}

/// What a decode pass computes, entry order notwithstanding: it succeeds
/// exactly when every entry can be consumed, and then each slot holds the
/// decoded value under the last occurrence of its tag, or stays as it
/// started when its tag never occurs. This makes decoding insensitive to
/// entry order up to the last-occurrence rule, and makes a later duplicate
/// win over an earlier one.
pub proof fn lemma_dec_characterization(
    schema: Seq<VFieldSpec>,
    cur: Seq<Option<VFieldValue>>,
    entries: Seq<(VVal, VVal)>,
)
    requires
        tags_unique(schema),
        cur.len() == schema.len(),
    ensures
        dec_entries(schema, cur, entries) is Ok <==> entries_ok(schema, entries),
        dec_entries(schema, cur, entries) matches Ok(res) ==> res.len() == schema.len() && forall|
            i: int,
        |
            0 <= i < schema.len() ==> #[trigger] res[i] == (
            if last_pos(entries, schema[i].tag) >= 0 {
                Some(dec_val(schema[i].ty, entries[last_pos(entries, schema[i].tag)].1)->Ok_0)
            } else {
                cur[i]
            }),
    decreases entries.len(),
{
    if entries.len() == 0 {
        assert forall|i: int| 0 <= i < schema.len() implies last_pos(entries, schema[i].tag)
            == -1 by {}
    } else {
        let e = entries[0];
        let rest = entries.subrange(1, entries.len() as int);
        assert forall|j: int| 1 <= j < entries.len() implies entries[j] == rest[j - 1] by {}
        match e.0 {
            VVal::Uint(t) => {
                let i0 = find_tag(schema, t);
                lemma_find_tag_from(schema, t, 0);
                if i0 < schema.len() {
                    match dec_val(schema[i0].ty, e.1) {
                        Ok(fv) => {
                            let cur2 = cur.update(i0, Some(fv));
                            lemma_dec_characterization(schema, cur2, rest);
                            assert(entry_ok(schema, e));
                            assert(entries_ok(schema, entries) <==> entries_ok(schema, rest))
                                by {
                                if entries_ok(schema, rest) {
                                    assert forall|j: int|
                                        0 <= j < entries.len() implies entry_ok(
                                        schema,
                                        entries[j],
                                    ) by {
                                        if j >= 1 {
                                            assert(entry_ok(schema, rest[j - 1]));
                                        }
                                    }
                                }
                            }
                            if dec_entries(schema, cur, entries) is Ok {
                                let res = dec_entries(schema, cur, entries)->Ok_0;
                                assert forall|i: int| 0 <= i < schema.len() implies #[trigger] res[i]
                                    == (if last_pos(entries, schema[i].tag) >= 0 {
                                    Some(
                                        dec_val(
                                            schema[i].ty,
                                            entries[last_pos(entries, schema[i].tag)].1,
                                        )->Ok_0,
                                    )
                                } else {
                                    cur[i]
                                }) by {
                                    let ti = schema[i].tag;
                                    lemma_last_pos(rest, ti);
                                    if i == i0 {
                                        lemma_find_tag_unique(schema, i);
                                        assert(ti == t);
                                        if last_pos(rest, ti) < 0 {
                                            assert(last_pos(entries, ti) == 0);
                                            assert(res[i] == cur2[i0]);
                                        }
                                    } else {
                                        assert(schema[i].tag != t) by {
                                            if schema[i].tag == t {
                                                lemma_find_tag_unique(schema, i);
                                            }
                                        }
                                        assert(e.0 != VVal::Uint(ti));
                                        if last_pos(rest, ti) < 0 {
                                            assert(last_pos(entries, ti) == -1);
                                            assert(res[i] == cur2[i]);
                                            assert(cur2[i] == cur[i]);
                                        }
                                    }
                                }
                            }
                        },
                        Err(_) => {
                            assert(!entry_ok(schema, e));
                            assert(!entries_ok(schema, entries));
                        },
                    }
                } else {
                    lemma_dec_characterization(schema, cur, rest);
                    assert(entry_ok(schema, e));
                    assert(entries_ok(schema, entries) <==> entries_ok(schema, rest)) by {
                        if entries_ok(schema, rest) {
                            assert forall|j: int|
                                0 <= j < entries.len() implies entry_ok(schema, entries[j]) by {
                                if j >= 1 {
                                    assert(entry_ok(schema, rest[j - 1]));
                                }
                            }
                        }
                    }
                    if dec_entries(schema, cur, entries) is Ok {
                        let res = dec_entries(schema, cur, entries)->Ok_0;
                        assert forall|i: int| 0 <= i < schema.len() implies #[trigger] res[i] == (
                        if last_pos(entries, schema[i].tag) >= 0 {
                            Some(
                                dec_val(
                                    schema[i].ty,
                                    entries[last_pos(entries, schema[i].tag)].1,
                                )->Ok_0,
                            )
                        } else {
                            cur[i]
                        }) by {
                            let ti = schema[i].tag;
                            lemma_last_pos(rest, ti);
                            assert(schema[i].tag != t) by {
                                if schema[i].tag == t {
                                    lemma_find_tag_unique(schema, i);
                                }
                            }
                            assert(e.0 != VVal::Uint(ti));
                        }
                    }
                }
            },
            _ => {
                assert(!entry_ok(schema, e));
                assert(!entries_ok(schema, entries));
            },
        }
    }
}

/// Round trip through the wire: parsing the bytes emitted for any
/// schema-conformant record reads back exactly the emitted tag-keyed map,
/// consuming every byte, and decoding that map gives the record back. The
/// size bound is a machine limit: every length inside a value held in
/// memory fits a 64-bit header argument.
pub proof fn lemma_wire_round_trip(schema: Seq<VFieldSpec>, r: Seq<Option<VFieldValue>>)
    requires
        wf_schema(schema),
        rec_conforms(r, schema),
        crate::wire::sizes_fit(enc_record(schema, r)),
    ensures
        ({
            let bytes = crate::wire::enc_val_bytes(enc_record(schema, r));
            &&& crate::wire::parse_val(bytes, 0) == Some((enc_record(schema, r), bytes.len() as int))
            &&& dec_record(schema, enc_entries_from(schema, r, 0)) == Ok::<
                Seq<Option<VFieldValue>>,
                DecodeError,
            >(r)
        }),
{
    let v = enc_record(schema, r);
    let bytes = crate::wire::enc_val_bytes(v);
    assert(bytes.subrange(0, bytes.len() as int) =~= bytes);
    crate::wire::lemma_parse_enc_val(v, bytes, 0);
    lemma_round_trip(schema, r);
}

/// Pointwise conformance of the slots from index `i` on gives
/// `slots_conform_from` back.
proof fn lemma_slots_conform_intro(
    fs: Seq<Option<VFieldValue>>,
    schema: Seq<VFieldSpec>,
    i: int,
)
    requires
        0 <= i <= fs.len(),
        forall|k: int| i <= k < fs.len() ==> (schema[k].optional || #[trigger] fs[k] is Some),
        forall|k: int|
            i <= k < fs.len() && #[trigger] fs[k] is Some ==> fv_conforms(fs[k]->0, schema[k].ty),
    ensures
        slots_conform_from(fs, schema, i),
    decreases fs.len() - i,
{
    if i < fs.len() {
        lemma_slots_conform_intro(fs, schema, i + 1);
    }
}

/// The default value of a well-formed field type conforms to the type.
proof fn lemma_default_fv_conforms(t: VFieldType)
    requires
        wf_ty(t),
    ensures
        fv_conforms(default_fv(t), t),
    decreases t, 1int,
{
    match t {
        VFieldType::Record(sub) => {
            lemma_default_slots(sub, 0);
            lemma_default_conforms(sub);
        },
        _ => {},
    }
}

/// The default record of a well-formed schema conforms to the schema: the
/// starting point of every decode pass is itself a valid record instance.
pub proof fn lemma_default_conforms(schema: Seq<VFieldSpec>)
    requires
        wf_fields_from(schema, 0),
    ensures
        rec_conforms(default_record(schema), schema),
    decreases schema, 0int,
{
    lemma_default_slots(schema, 0);
    let fs = default_record(schema);
    assert forall|k: int| 0 <= k < fs.len() && #[trigger] fs[k] is Some implies fv_conforms(
        fs[k]->0,
        schema[k].ty,
    ) by {
        lemma_wf_field_at(schema, 0, k);
        assert(decreases_to!(schema => schema[k]));
        assert(decreases_to!(schema[k] => schema[k].ty));
        lemma_default_fv_conforms(schema[k].ty);
    }
    lemma_slots_conform_intro(fs, schema, 0);
}

/// A value decoded as a well-formed field type conforms to the type.
proof fn lemma_dec_val_conforms(t: VFieldType, v: VVal)
    requires
        wf_ty(t),
        dec_val(t, v) is Ok,
    ensures
        fv_conforms(dec_val(t, v)->Ok_0, t),
    decreases v, 0int,
{
    match t {
        VFieldType::Record(sub) => match v {
            VVal::Table(es) => {
                lemma_default_slots(sub, 0);
                lemma_default_conforms(sub);
                lemma_dec_entries_conforms(sub, default_slots_from(sub, 0), es);
            },
            _ => {},
        },
        _ => {},
    }
}

/// A decode pass that starts from conforming slots and succeeds yields
/// conforming slots.
proof fn lemma_dec_entries_conforms(
    schema: Seq<VFieldSpec>,
    fs: Seq<Option<VFieldValue>>,
    entries: Seq<(VVal, VVal)>,
)
    requires
        wf_fields_from(schema, 0),
        fs.len() == schema.len(),
        slots_conform_from(fs, schema, 0),
        dec_entries(schema, fs, entries) is Ok,
    ensures
        rec_conforms(dec_entries(schema, fs, entries)->Ok_0, schema),
    decreases entries, 2int,
{
    if entries.len() > 0 {
        let rest = entries.subrange(1, entries.len() as int);
        match entries[0].0 {
            VVal::Uint(t) => {
                let i0 = find_tag(schema, t);
                lemma_find_tag_from(schema, t, 0);
                if i0 < schema.len() {
                    let fv = dec_val(schema[i0].ty, entries[0].1)->Ok_0;
                    lemma_wf_field_at(schema, 0, i0);
                    lemma_dec_val_conforms(schema[i0].ty, entries[0].1);
                    let fs2 = fs.update(i0, Some(fv));
                    lemma_slots_conform(fs, schema, 0);
                    lemma_slots_conform_intro(fs2, schema, 0);
                    lemma_dec_entries_conforms(schema, fs2, rest);
                } else {
                    lemma_dec_entries_conforms(schema, fs, rest);
                }
            },
            _ => {},
        }
    }
}

/// Every successful decode yields a schema-conformant record: required
/// fields are present and every present value matches its declared type, so
/// what decoding returns can always be encoded again.
pub proof fn lemma_decode_conforms(schema: Seq<VFieldSpec>, entries: Seq<(VVal, VVal)>)
    requires
        wf_schema(schema),
        dec_record(schema, entries) is Ok,
    ensures
        rec_conforms(dec_record(schema, entries)->Ok_0, schema),
{
    lemma_default_slots(schema, 0);
    lemma_default_conforms(schema);
    lemma_dec_entries_conforms(schema, default_record(schema), entries);
}

/// The incoming entries with every unknown-tag entry removed: entries whose
/// key is an unsigned integer that no schema field declares are dropped,
/// everything else is kept in order.
pub open spec fn strip_unknown(
    schema: Seq<VFieldSpec>,
    entries: Seq<(VVal, VVal)>,
) -> Seq<(VVal, VVal)>
    decreases entries.len(),
{
    if entries.len() == 0 {
        Seq::empty()
    } else {
        let keep = match entries[0].0 {
            VVal::Uint(t) => find_tag(schema, t) < schema.len(),
            _ => true,
        };
        (if keep {
            seq![entries[0]]
        } else {
            Seq::empty()
        }) + strip_unknown(schema, entries.subrange(1, entries.len() as int))
    }
}

/// Forward compatibility: decoding a map that carries tags unknown to the
/// schema gives exactly the same outcome as decoding the map with those
/// entries stripped, error cases included. Producers may add new tags that
/// old consumers silently ignore.
pub proof fn lemma_forward_compat(
    schema: Seq<VFieldSpec>,
    cur: Seq<Option<VFieldValue>>,
    entries: Seq<(VVal, VVal)>,
)
    ensures
        dec_entries(schema, cur, strip_unknown(schema, entries)) == dec_entries(
            schema,
            cur,
            entries,
        ),
    decreases entries.len(),
{
    if entries.len() > 0 {
        let e = entries[0];
        let rest = entries.subrange(1, entries.len() as int);
        let whole = strip_unknown(schema, entries);
        match e.0 {
            VVal::Uint(t) => {
                let i0 = find_tag(schema, t);
                if i0 < schema.len() {
                    assert(whole == seq![e] + strip_unknown(schema, rest));
                    assert(whole[0] == e);
                    assert(whole.subrange(1, whole.len() as int) =~= strip_unknown(schema, rest));
                    match dec_val(schema[i0].ty, e.1) {
                        Ok(fv) => {
                            lemma_forward_compat(schema, cur.update(i0, Some(fv)), rest);
                        },
                        Err(_) => {},
                    }
                } else {
                    assert(whole =~= strip_unknown(schema, rest));
                    lemma_forward_compat(schema, cur, rest);
                }
            },
            _ => {
                assert(whole == seq![e] + strip_unknown(schema, rest));
                assert(whole[0] == e);
            },
        }
    }
}

/// Backward compatibility: decoding a map whose entries are all consumable
/// succeeds even when tags are missing, and every field whose tag never
/// occurs comes out at its default: absent for an optional field, the
/// declared type's zero value otherwise.
pub proof fn lemma_backward_compat(schema: Seq<VFieldSpec>, entries: Seq<(VVal, VVal)>, i: int)
    requires
        tags_unique(schema),
        entries_ok(schema, entries),
        0 <= i < schema.len(),
        last_pos(entries, schema[i].tag) == -1,
    ensures
        dec_record(schema, entries) is Ok,
        dec_record(schema, entries)->Ok_0[i] == (if schema[i].optional {
            None::<VFieldValue>
        } else {
            Some(default_fv(schema[i].ty))
        }),
{
    lemma_default_slots(schema, 0);
    lemma_dec_characterization(schema, default_record(schema), entries);
}

/// Duplicate-tag determinism: when decoding succeeds, a field whose tag
/// occurs in the incoming map holds the value decoded from the last entry
/// that carries the tag; in particular, with the same tag appearing twice,
/// the later occurrence wins.
pub proof fn lemma_duplicate_last_wins(
    schema: Seq<VFieldSpec>,
    entries: Seq<(VVal, VVal)>,
    i: int,
)
    requires
        tags_unique(schema),
        dec_record(schema, entries) is Ok,
        0 <= i < schema.len(),
        last_pos(entries, schema[i].tag) >= 0,
    ensures
        0 <= last_pos(entries, schema[i].tag) < entries.len(),
        entries[last_pos(entries, schema[i].tag)].0 == VVal::Uint(schema[i].tag),
        forall|j: int|
            last_pos(entries, schema[i].tag) < j < entries.len() ==> #[trigger] entries[j].0
                != VVal::Uint(schema[i].tag),
        dec_record(schema, entries)->Ok_0[i] == Some(
            dec_val(schema[i].ty, entries[last_pos(entries, schema[i].tag)].1)->Ok_0,
        ),
{
    lemma_default_slots(schema, 0);
    lemma_last_pos(entries, schema[i].tag);
    lemma_dec_characterization(schema, default_record(schema), entries);
}

} // verus!
