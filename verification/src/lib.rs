//! A compact tagged-map codec: records are serialized as definite-length
//! maps keyed by small integer tags instead of field names. Optional fields
//! are omitted from the wire entirely when absent, decoding tolerates both
//! missing and unrecognized tags, and a duplicated tag is resolved in favor
//! of its last occurrence.

pub mod codec;
pub mod laws;
pub mod record;
pub mod schema;
pub mod value;
pub mod wire;

pub use codec::DecodeError;
pub use codec::decode_record;
pub use codec::default_record_for;
pub use codec::encode_record;
pub use record::FieldValue;
pub use record::Record;
pub use wire::decode_record_from_bytes;
pub use wire::encode_record_to_bytes;

pub use schema::FieldSpec;
pub use schema::FieldType;
pub use schema::RecordSchema;
pub use schema::SchemaError;
pub use value::Value;
pub use value::VVal;
