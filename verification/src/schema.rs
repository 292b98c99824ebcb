//! The schema model: the ordered, immutable list of field-to-tag mappings
//! for one record type. A schema is built once, before any encode or decode
//! call; tag uniqueness is enforced at build time, never at decode time.

use vstd::prelude::*;

verus! {

/// The declared type of one field of a record.
#[derive(Debug, PartialEq)]
pub enum FieldType {
    /// An unsigned integer field.
    Uint,
    /// A text string field.
    Text,
    /// A boolean field.
    Bool,
    /// A nested record field, encoded recursively as a tagged map with its
    /// own schema.
    Record(RecordSchema),
    /// A dictionary field: a free-form key-value mapping whose keys are
    /// unrelated to the tag scheme and are carried through in wire order.
    Dict,
}

/// One declared field of a record type: its integer tag, whether its absence
/// is a valid distinct state, and its declared type.
#[derive(Debug, PartialEq)]
pub struct FieldSpec {
    pub tag: u64,
    pub optional: bool,
    pub ty: FieldType,
}

/// The ordered sequence of field specifications for one record type.
/// The order only affects wire-encoding order; decoding is order-independent.
#[derive(Debug, PartialEq)]
pub struct RecordSchema {
    pub fields: Vec<FieldSpec>,
}

/// The error reported when a schema is rejected at build time.
#[derive(Debug, PartialEq, Eq, Structural, Clone, Copy)]
pub enum SchemaError {
    /// Two fields of the same record declare the same tag.
    DuplicateTag,
}

/// The mathematical model of a field type.
pub enum VFieldType {
    Uint,
    Text,
    Bool,
    Record(Seq<VFieldSpec>),
    Dict,
}

/// The mathematical model of one field specification.
pub struct VFieldSpec {
    pub tag: u64,
    pub optional: bool,
    pub ty: VFieldType,
}

/// The model of a field type.
pub open spec fn vty_of(t: FieldType) -> VFieldType
    decreases t, 0int,
{
    match t {
        FieldType::Uint => VFieldType::Uint,
        FieldType::Text => VFieldType::Text,
        FieldType::Bool => VFieldType::Bool,
        FieldType::Record(s) => VFieldType::Record(vfields_of(s.fields@, 0)),
        FieldType::Dict => VFieldType::Dict,
    }
}

/// The model of a sequence of field specifications, from index `i` on.
pub open spec fn vfields_of(fs: Seq<FieldSpec>, i: int) -> Seq<VFieldSpec>
    decreases fs, fs.len() - i,
{
    if i < 0 || i >= fs.len() {
        Seq::empty()
    } else {
        seq![
            VFieldSpec { tag: fs[i].tag, optional: fs[i].optional, ty: vty_of(fs[i].ty) },
        ] + vfields_of(fs, i + 1)
    }
}

impl View for FieldType {
    type V = VFieldType;

    open spec fn view(&self) -> VFieldType {
        vty_of(*self)
    }
}

impl View for FieldSpec {
    type V = VFieldSpec;

    open spec fn view(&self) -> VFieldSpec {
        VFieldSpec { tag: self.tag, optional: self.optional, ty: vty_of(self.ty) }
    }
}

impl View for RecordSchema {
    type V = Seq<VFieldSpec>;

    open spec fn view(&self) -> Seq<VFieldSpec> {
        vfields_of(self.fields@, 0)
    }
}

/// Tags are pairwise distinct within one schema.
pub open spec fn tags_unique(s: Seq<VFieldSpec>) -> bool {
    forall|i: int, j: int| 0 <= i < j < s.len() ==> s[i].tag != s[j].tag
}

/// A well-formed field type: every nested record schema is well-formed.
pub open spec fn wf_ty(t: VFieldType) -> bool
    decreases t, 1int,
{
    match t {
        VFieldType::Record(sub) => tags_unique(sub) && wf_fields_from(sub, 0),
        _ => true,
    }
}

/// Every field type from index `i` on is well-formed.
pub open spec fn wf_fields_from(s: Seq<VFieldSpec>, i: int) -> bool
    decreases s, s.len() - i,
{
    if i < 0 || i >= s.len() {
        true
    } else {
        wf_ty(s[i].ty) && wf_fields_from(s, i + 1)
    }
}

/// A well-formed schema: tags are unique and every field type is well-formed,
/// recursively through nested record schemas.
pub open spec fn wf_schema(s: Seq<VFieldSpec>) -> bool {
    tags_unique(s) && wf_fields_from(s, 0)
}

/// Well-formedness of the field types from index `i` on gives the fact for
/// the single field at index `k`.
pub proof fn lemma_wf_field_at(s: Seq<VFieldSpec>, i: int, k: int)
    requires
        0 <= i <= k < s.len(),
        wf_fields_from(s, i),
    ensures
        wf_ty(s[k].ty),
    decreases k - i,
{
    if i < k {
        lemma_wf_field_at(s, i + 1, k);
    }
}

/// The index of the first field declaring tag `t`, or `s.len()` when no
/// field declares it.
pub open spec fn find_tag(s: Seq<VFieldSpec>, t: u64) -> int {
    find_tag_from(s, t, 0)
}

/// The index of the first field at or after `i` declaring tag `t`, or
/// `s.len()` when no such field exists.
pub open spec fn find_tag_from(s: Seq<VFieldSpec>, t: u64, i: int) -> int
    decreases s.len() - i,
{
    if i < 0 || i >= s.len() {
        s.len() as int
    } else if s[i].tag == t {
        i
    } else {
        find_tag_from(s, t, i + 1)
    }
}

/// `find_tag_from` returns either the first matching index at or after `i`,
/// or the length of the schema when no field at or after `i` matches.
pub proof fn lemma_find_tag_from(s: Seq<VFieldSpec>, t: u64, i: int)
    requires
        0 <= i <= s.len(),
    ensures
        i <= find_tag_from(s, t, i) <= s.len(),
        find_tag_from(s, t, i) < s.len() ==> s[find_tag_from(s, t, i)].tag == t,
        forall|k: int| i <= k < find_tag_from(s, t, i) ==> s[k].tag != t,
        find_tag_from(s, t, i) == s.len() ==> forall|k: int| i <= k < s.len() ==> s[k].tag != t,
    decreases s.len() - i,
{
    if i < s.len() && s[i].tag != t {
        lemma_find_tag_from(s, t, i + 1);
    }
}

/// Under unique tags, a field's own index is exactly what `find_tag` returns
/// for its tag.
pub proof fn lemma_find_tag_unique(s: Seq<VFieldSpec>, i: int)
    requires
        tags_unique(s),
        0 <= i < s.len(),
    ensures
        find_tag(s, s[i].tag) == i,
{
    lemma_find_tag_from(s, s[i].tag, 0);
}

impl RecordSchema {
    /// Builds a schema from an ordered field list, rejecting duplicate tags.
    /// Succeeds exactly when all declared tags are pairwise distinct.
    pub fn new(fields: Vec<FieldSpec>) -> (r: Result<RecordSchema, SchemaError>)
        ensures
            r is Ok <==> tags_unique(vfields_of(fields@, 0)),
            r matches Ok(s) ==> s.fields@ == fields@,
    {
        proof {
            lemma_vfields_len(fields@, 0);
        }
        let n = fields.len();
        let mut i: usize = 0;
        while i < n
            invariant
                n == fields@.len(),
                0 <= i <= n,
                forall|p: int, q: int|
                    0 <= p < q < fields@.len() && p < i ==> fields@[p].tag != fields@[q].tag,
            decreases n - i,
        {
            let mut j: usize = i + 1;
            while j < n
                invariant
                    n == fields@.len(),
                    0 <= i < j <= n,
                    forall|q: int| i < q < j ==> fields@[i as int].tag != fields@[q].tag,
                decreases n - j,
            {
                if fields[i].tag == fields[j].tag {
                    proof {
                        lemma_vfields_index(fields@, 0, i as int);
                        lemma_vfields_index(fields@, 0, j as int);
                    }
                    return Err(SchemaError::DuplicateTag);
                }
                j = j + 1;
            }
            i = i + 1;
        }
        proof {
            assert forall|p: int, q: int|
                0 <= p < q < vfields_of(fields@, 0).len() implies vfields_of(fields@, 0)[p].tag
                != vfields_of(fields@, 0)[q].tag by {
                lemma_vfields_index(fields@, 0, p);
                lemma_vfields_index(fields@, 0, q);
            }
        }
        Ok(RecordSchema { fields })
    }

    /// The number of declared fields.
    pub fn len(&self) -> (n: usize)
        ensures
            n == self@.len(),
    {
        proof {
            lemma_vfields_len(self.fields@, 0);
        }
        self.fields.len()
    }
}

/// The model of a field list is as long as the list itself.
pub proof fn lemma_vfields_len(fs: Seq<FieldSpec>, i: int)
    requires
        0 <= i <= fs.len(),
    ensures
        vfields_of(fs, i).len() == fs.len() - i,
    decreases fs.len() - i,
{
    if i < fs.len() {
        lemma_vfields_len(fs, i + 1);
    }
}

/// The model of a field list, element by element: as long as the list, each
/// element the model of the corresponding field.
pub proof fn lemma_vfields(fs: Seq<FieldSpec>, i: int)
    requires
        0 <= i <= fs.len(),
    ensures
        vfields_of(fs, i) == Seq::new((fs.len() - i) as nat, |k: int| fs[k + i]@),
    decreases fs.len() - i,
{
    if i < fs.len() {
        lemma_vfields(fs, i + 1);
    }
    assert(vfields_of(fs, i) =~= Seq::new((fs.len() - i) as nat, |k: int| fs[k + i]@));
}

/// Each element of the model of a field list is the model of the
/// corresponding field.
pub proof fn lemma_vfields_index(fs: Seq<FieldSpec>, i: int, k: int)
    requires
        0 <= i <= k < fs.len(),
    ensures
        vfields_of(fs, i).len() == fs.len() - i,
        vfields_of(fs, i)[k - i] == fs[k]@,
    decreases k - i,
{
    lemma_vfields_len(fs, i);
    if i < k {
        lemma_vfields_index(fs, i + 1, k);
    }
}

} // verus!
