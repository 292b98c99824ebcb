//! The wire layer: the definite-length binary map encoding that records are
//! carried in. A value is written as a one-byte header holding a major kind
//! and a small argument (with 8-, 16-, 32- or 64-bit extensions), followed
//! by its payload: unsigned integers are the argument itself, text strings
//! carry their UTF-8 bytes after a byte-length header, booleans are a
//! one-byte simple value, and maps declare their exact entry count up front
//! and then carry the entries' encodings in order. Integers and lengths are
//! written in the shortest form that holds them; reading tolerates longer
//! forms.

use vstd::prelude::*;

use crate::codec::DecodeError;
use crate::codec::dec_record;
use crate::codec::decode_record;
use crate::codec::enc_record;
use crate::codec::encode_record;
use crate::record::Record;
use crate::record::VFieldValue;
use crate::record::rec_conforms;
use crate::schema::RecordSchema;
use crate::schema::wf_schema;
use crate::value::VVal;
use crate::value::Value;
use crate::value::lemma_ventries;
use crate::value::ventries_of;
use crate::value::vval_of;
use vstd::utf8::decode_utf8;
use vstd::utf8::encode_utf8;
use vstd::utf8::valid_utf8;

verus! {

/// The major kind of an unsigned integer.
pub const MAJOR_UINT: u8 = 0;

/// The major kind of a text string.
pub const MAJOR_TEXT: u8 = 3;

/// The major kind of a map.
pub const MAJOR_TABLE: u8 = 5;

/// The major kind of simple values; booleans are arguments 20 and 21.
pub const MAJOR_SIMPLE: u8 = 7;

/// The header bytes for one major kind and argument, in the shortest form
/// that holds the argument.
pub open spec fn header(major: u8, n: u64) -> Seq<u8> {
    if n < 24 {
        seq![(major * 32 + n as u8) as u8]
    } else if n < 0x100 {
        seq![(major * 32 + 24) as u8, n as u8]
    } else if n < 0x10000 {
        seq![(major * 32 + 25) as u8, (n / 0x100) as u8, (n % 0x100) as u8]
    } else if n < 0x100000000 {
        seq![
            (major * 32 + 26) as u8,
            (n / 0x1000000) as u8,
            ((n / 0x10000) % 0x100) as u8,
            ((n / 0x100) % 0x100) as u8,
            (n % 0x100) as u8,
        ]
    } else {
        seq![
            (major * 32 + 27) as u8,
            (n / 0x100000000000000) as u8,
            ((n / 0x1000000000000) % 0x100) as u8,
            ((n / 0x10000000000) % 0x100) as u8,
            ((n / 0x100000000) % 0x100) as u8,
            ((n / 0x1000000) % 0x100) as u8,
            ((n / 0x10000) % 0x100) as u8,
            ((n / 0x100) % 0x100) as u8,
            (n % 0x100) as u8,
        ]
    }
}

/// The byte encoding of one value.
pub open spec fn enc_val_bytes(v: VVal) -> Seq<u8>
    decreases v, 0int,
{
    match v {
        VVal::Uint(n) => header(MAJOR_UINT, n),
        VVal::Text(s) => header(MAJOR_TEXT, encode_utf8(s).len() as u64) + encode_utf8(s),
        VVal::Bool(b) => seq![
            if b {
                0xF5u8
            } else {
                0xF4u8
            },
        ],
        VVal::Table(es) => header(MAJOR_TABLE, es.len() as u64) + enc_entries_bytes(es, 0),
    }
}

/// The byte encodings of a map's entries from index `i` on, keys and values
/// alternating in order.
pub open spec fn enc_entries_bytes(es: Seq<(VVal, VVal)>, i: int) -> Seq<u8>
    decreases es, es.len() - i,
{
    if i < 0 || i >= es.len() {
        Seq::empty()
    } else {
        enc_val_bytes(es[i].0) + enc_val_bytes(es[i].1) + enc_entries_bytes(es, i + 1)
    }
}

/// Reading one header at `pos`: the major kind, the argument, and the
/// position after the header. Arguments 28 to 31 of the low five bits are
/// not a header.
pub open spec fn parse_header(bytes: Seq<u8>, pos: int) -> Option<(u8, u64, int)> {
    if pos < 0 || pos >= bytes.len() {
        None
    } else {
        let major = bytes[pos] / 32;
        let info = bytes[pos] % 32;
        if info < 24 {
            Some((major, info as u64, pos + 1))
        } else if info == 24 {
            if pos + 2 <= bytes.len() {
                Some((major, bytes[pos + 1] as u64, pos + 2))
            } else {
                None
            }
        } else if info == 25 {
            if pos + 3 <= bytes.len() {
                Some((major, (bytes[pos + 1] * 0x100 + bytes[pos + 2]) as u64, pos + 3))
            } else {
                None
            }
        } else if info == 26 {
            if pos + 5 <= bytes.len() {
                Some(
                    (
                        major,
                        (bytes[pos + 1] * 0x1000000 + bytes[pos + 2] * 0x10000 + bytes[pos + 3]
                            * 0x100 + bytes[pos + 4]) as u64,
                        pos + 5,
                    ),
                )
            } else {
                None
            }
        } else if info == 27 {
            if pos + 9 <= bytes.len() {
                Some(
                    (
                        major,
                        (bytes[pos + 1] * 0x100000000000000 + bytes[pos + 2] * 0x1000000000000
                            + bytes[pos + 3] * 0x10000000000 + bytes[pos + 4] * 0x100000000 + bytes[
                            pos + 5
                        ] * 0x1000000 + bytes[pos + 6] * 0x10000 + bytes[pos + 7] * 0x100 + bytes[
                            pos + 8
                        ]) as u64,
                        pos + 9,
                    ),
                )
            } else {
                None
            }
        } else {
            None
        }
    }
}

/// Reading one value at `pos`: the value and the position after it, or
/// nothing when the bytes at `pos` are not a well-formed encoding of a
/// value this codec can carry.
pub open spec fn parse_val(bytes: Seq<u8>, pos: int) -> Option<(VVal, int)>
    decreases bytes.len() - pos, 0int,
{
    match parse_header(bytes, pos) {
        None => None,
        Some((major, arg, end)) => {
            if end <= pos {
                None
            } else if major == MAJOR_UINT {
                Some((VVal::Uint(arg), end))
            } else if major == MAJOR_SIMPLE {
                if arg == 20 {
                    Some((VVal::Bool(false), end))
                } else if arg == 21 {
                    Some((VVal::Bool(true), end))
                } else {
                    None
                }
            } else if major == MAJOR_TEXT {
                if end + arg <= bytes.len() {
                    let chunk = bytes.subrange(end, end + arg);
                    if valid_utf8(chunk) {
                        Some((VVal::Text(decode_utf8(chunk)), end + arg))
                    } else {
                        None
                    }
                } else {
                    None
                }
            } else if major == MAJOR_TABLE {
                match parse_entries(bytes, end, arg as int) {
                    Some((es, end2)) => Some((VVal::Table(es), end2)),
                    None => None,
                }
            } else {
                None
            }
        },
    }
}

/// Reading `n` key-value entries starting at `pos`.
pub open spec fn parse_entries(bytes: Seq<u8>, pos: int, n: int) -> Option<
    (Seq<(VVal, VVal)>, int),
>
    decreases bytes.len() - pos, n + 1,
{
    if n <= 0 {
        Some((Seq::empty(), pos))
    } else {
        match parse_val(bytes, pos) {
            Some((k, p1)) => {
                if p1 <= pos || p1 > bytes.len() {
                    None
                } else {
                    match parse_val(bytes, p1) {
                        Some((v, p2)) => {
                            if p2 <= p1 || p2 > bytes.len() {
                                None
                            } else {
                                match parse_entries(bytes, p2, n - 1) {
                                    Some((rest, p3)) => Some((seq![(k, v)] + rest, p3)),
                                    None => None,
                                }
                            }
                        },
                        None => None,
                    }
                }
            },
            None => None,
        }
    }
}

/// Appends the header for one major kind and argument, in the shortest form
/// that holds the argument.
fn write_header(major: u8, n: u64, out: &mut Vec<u8>)
    requires
        major < 8,
    ensures
        final(out)@ == old(out)@ + header(major, n),
{
    if n < 24 {
        out.push(major * 32 + n as u8);
    } else if n < 0x100 {
        out.push(major * 32 + 24);
        out.push(n as u8);
    } else if n < 0x10000 {
        out.push(major * 32 + 25);
        out.push((n / 0x100) as u8);
        out.push((n % 0x100) as u8);
    } else if n < 0x100000000 {
        out.push(major * 32 + 26);
        out.push((n / 0x1000000) as u8);
        out.push(((n / 0x10000) % 0x100) as u8);
        out.push(((n / 0x100) % 0x100) as u8);
        out.push((n % 0x100) as u8);
    } else {
        out.push(major * 32 + 27);
        out.push((n / 0x100000000000000) as u8);
        out.push(((n / 0x1000000000000) % 0x100) as u8);
        out.push(((n / 0x10000000000) % 0x100) as u8);
        out.push(((n / 0x100000000) % 0x100) as u8);
        out.push(((n / 0x1000000) % 0x100) as u8);
        out.push(((n / 0x10000) % 0x100) as u8);
        out.push(((n / 0x100) % 0x100) as u8);
        out.push((n % 0x100) as u8);
    }
    proof {
        assert(out@ =~= old(out)@ + header(major, n));
    }
}

/// Appends the byte encoding of one value.
pub fn write_value(v: &Value, out: &mut Vec<u8>)
    ensures
        final(out)@ == old(out)@ + enc_val_bytes(v@),
    decreases v, 0int,
{
    match v {
        Value::Uint(n) => {
            write_header(MAJOR_UINT, *n, out);
        },
        Value::Text(s) => {
            let bs = s.as_str().as_bytes();
            write_header(MAJOR_TEXT, bs.len() as u64, out);
            let mut chunk = vstd::slice::slice_to_vec(bs);
            out.append(&mut chunk);
            proof {
                assert(out@ =~= old(out)@ + enc_val_bytes(v@));
            }
        },
        Value::Bool(b) => {
            if *b {
                out.push(0xF5);
            } else {
                out.push(0xF4);
            }
            proof {
                assert(out@ =~= old(out)@ + enc_val_bytes(v@));
            }
        },
        Value::Table(es) => {
            let ghost ges = ventries_of(es@, 0);
            proof {
                lemma_ventries(es@, 0);
            }
            let n = es.len();
            write_header(MAJOR_TABLE, n as u64, out);
            let ghost base = out@;
            let mut j: usize = 0;
            while j < n
                invariant
                    n == es@.len(),
                    ges == ventries_of(es@, 0),
                    ges.len() == n,
                    *es == v->Table_0,
                    *v is Table,
                    0 <= j <= n,
                    base + enc_entries_bytes(ges, 0) == out@ + enc_entries_bytes(ges, j as int),
                decreases n - j,
            {
                proof {
                    lemma_ventries(es@, 0);
                    assert(decreases_to!(*v => v->Table_0));
                    assert(decreases_to!(*es => es@[j as int]));
                    assert(decreases_to!(es@[j as int] => es@[j as int].0));
                    assert(decreases_to!(es@[j as int] => es@[j as int].1));
                }
                let ghost before = out@;
                let entry = &es[j];
                write_value(&entry.0, out);
                write_value(&entry.1, out);
                proof {
                    assert(ges[j as int] == (vval_of(entry.0), vval_of(entry.1)));
                    assert(enc_entries_bytes(ges, j as int) == enc_val_bytes(ges[j as int].0)
                        + enc_val_bytes(ges[j as int].1) + enc_entries_bytes(ges, j + 1));
                    assert(base + enc_entries_bytes(ges, 0) =~= out@ + enc_entries_bytes(
                        ges,
                        j + 1,
                    ));
                }
                j = j + 1;
            }
            proof {
                assert(enc_entries_bytes(ges, n as int) =~= Seq::<u8>::empty());
                assert(out@ =~= old(out)@ + enc_val_bytes(v@));
            }
        },
    }
}

/// Every length inside the value fits the 64-bit arguments of the wire
/// headers: the byte length of every text string and the entry count of
/// every map. Values held in memory always satisfy this.
pub open spec fn sizes_fit(v: VVal) -> bool
    decreases v, 0int,
{
    match v {
        VVal::Uint(_) => true,
        VVal::Text(s) => encode_utf8(s).len() < 0x10000000000000000,
        VVal::Bool(_) => true,
        VVal::Table(es) => es.len() < 0x10000000000000000 && entries_sizes_fit(es, 0),
    }
}

/// Every entry from index `i` on has fitting sizes on both sides.
pub open spec fn entries_sizes_fit(es: Seq<(VVal, VVal)>, i: int) -> bool
    decreases es, es.len() - i,
{
    if i < 0 || i >= es.len() {
        true
    } else {
        sizes_fit(es[i].0) && sizes_fit(es[i].1) && entries_sizes_fit(es, i + 1)
    }
}

/// The encoding of a value is never empty.
pub proof fn lemma_enc_nonempty(v: VVal)
    ensures
        enc_val_bytes(v).len() >= 1,
{
}

/// A window of a window: when a segment of `bytes` equals `whole`, any
/// sub-segment of it equals the matching subrange of `whole`.
proof fn lemma_segment(bytes: Seq<u8>, pos: int, whole: Seq<u8>, a: int, b: int)
    requires
        0 <= pos,
        pos + whole.len() <= bytes.len(),
        bytes.subrange(pos, pos + whole.len() as int) == whole,
        0 <= a <= b <= whole.len(),
    ensures
        bytes.subrange(pos + a, pos + b) == whole.subrange(a, b),
{
    assert forall|q: int| 0 <= q < b - a implies bytes.subrange(pos + a, pos + b)[q]
        == whole.subrange(a, b)[q] by {
        assert(bytes.subrange(pos, pos + whole.len() as int)[a + q] == bytes[pos + (a + q)]);
        assert(bytes.subrange(pos + a, pos + b)[q] == bytes[(pos + a) + q]);
        assert(whole.subrange(a, b)[q] == whole[a + q]);
        assert(bytes[pos + (a + q)] == bytes[(pos + a) + q]);
    }
    assert(bytes.subrange(pos + a, pos + b) =~= whole.subrange(a, b));
}

/// Reading a header back from where it was written gives the major kind and
/// argument that were written, and stops right after the header.
proof fn lemma_parse_header_of(major: u8, n: u64, bytes: Seq<u8>, pos: int)
    requires
        major < 8,
        0 <= pos,
        pos + header(major, n).len() <= bytes.len(),
        bytes.subrange(pos, pos + header(major, n).len() as int) == header(major, n),
    ensures
        parse_header(bytes, pos) == Some((major, n, pos + header(major, n).len() as int)),
{
    let h = header(major, n);
    assert forall|j: int| 0 <= j < h.len() implies bytes[pos + j] == h[j] by {
        assert(bytes.subrange(pos, pos + h.len() as int)[j] == bytes[pos + j]);
    }
    assert(bytes[pos + 0] == h[0]);
    assert(bytes[pos] == h[0]);
    let ni = n as int;
    if n < 24 {
        vstd::arithmetic::div_mod::lemma_fundamental_div_mod_converse_div(
            h[0] as int, 32, major as int, ni);
        vstd::arithmetic::div_mod::lemma_fundamental_div_mod_converse_mod(
            h[0] as int, 32, major as int, ni);
    } else {
        let info: int = if n < 0x100 { 24 } else if n < 0x10000 { 25 }
            else if n < 0x100000000 { 26 } else { 27 };
        assert(h[0] == major * 32 + info);
        vstd::arithmetic::div_mod::lemma_fundamental_div_mod_converse_div(
            h[0] as int, 32, major as int, info);
        vstd::arithmetic::div_mod::lemma_fundamental_div_mod_converse_mod(
            h[0] as int, 32, major as int, info);
        if n < 0x100 {
            assert(bytes[pos + 1] == h[1]);
        } else if n < 0x10000 {
            assert(bytes[pos + 1] == h[1]);
            assert(bytes[pos + 2] == h[2]);
            vstd::arithmetic::div_mod::lemma_fundamental_div_mod(ni, 0x100);
        } else if n < 0x100000000 {
            assert(bytes[pos + 1] == h[1]);
            assert(bytes[pos + 2] == h[2]);
            assert(bytes[pos + 3] == h[3]);
            assert(bytes[pos + 4] == h[4]);
            vstd::arithmetic::div_mod::lemma_fundamental_div_mod(ni, 0x100);
            vstd::arithmetic::div_mod::lemma_fundamental_div_mod(ni / 0x100, 0x100);
            vstd::arithmetic::div_mod::lemma_fundamental_div_mod(ni / 0x10000, 0x100);
            vstd::arithmetic::div_mod::lemma_div_denominator(ni, 0x100, 0x100);
            vstd::arithmetic::div_mod::lemma_div_denominator(ni, 0x10000, 0x100);
        } else {
            assert(bytes[pos + 1] == h[1]);
            assert(bytes[pos + 2] == h[2]);
            assert(bytes[pos + 3] == h[3]);
            assert(bytes[pos + 4] == h[4]);
            assert(bytes[pos + 5] == h[5]);
            assert(bytes[pos + 6] == h[6]);
            assert(bytes[pos + 7] == h[7]);
            assert(bytes[pos + 8] == h[8]);
            vstd::arithmetic::div_mod::lemma_fundamental_div_mod(ni, 0x100);
            vstd::arithmetic::div_mod::lemma_fundamental_div_mod(ni / 0x100, 0x100);
            vstd::arithmetic::div_mod::lemma_fundamental_div_mod(ni / 0x10000, 0x100);
            vstd::arithmetic::div_mod::lemma_fundamental_div_mod(ni / 0x1000000, 0x100);
            vstd::arithmetic::div_mod::lemma_fundamental_div_mod(ni / 0x100000000, 0x100);
            vstd::arithmetic::div_mod::lemma_fundamental_div_mod(ni / 0x10000000000, 0x100);
            vstd::arithmetic::div_mod::lemma_fundamental_div_mod(ni / 0x1000000000000, 0x100);
            vstd::arithmetic::div_mod::lemma_div_denominator(ni, 0x100, 0x100);
            vstd::arithmetic::div_mod::lemma_div_denominator(ni, 0x10000, 0x100);
            vstd::arithmetic::div_mod::lemma_div_denominator(ni, 0x1000000, 0x100);
            vstd::arithmetic::div_mod::lemma_div_denominator(ni, 0x100000000, 0x100);
            vstd::arithmetic::div_mod::lemma_div_denominator(ni, 0x10000000000, 0x100);
            vstd::arithmetic::div_mod::lemma_div_denominator(ni, 0x1000000000000, 0x100);
        }
    }
}

/// Reading a value back from where it was written gives the value that was
/// written, and stops right after its encoding.
pub proof fn lemma_parse_enc_val(v: VVal, bytes: Seq<u8>, pos: int)
    requires
        sizes_fit(v),
        0 <= pos,
        pos + enc_val_bytes(v).len() <= bytes.len(),
        bytes.subrange(pos, pos + enc_val_bytes(v).len() as int) == enc_val_bytes(v),
    ensures
        parse_val(bytes, pos) == Some((v, pos + enc_val_bytes(v).len() as int)),
    decreases v, 0int,
{
    let enc = enc_val_bytes(v);
    match v {
        VVal::Uint(n) => {
            lemma_parse_header_of(MAJOR_UINT, n, bytes, pos);
        },
        VVal::Text(s) => {
            let payload = encode_utf8(s);
            let h = header(MAJOR_TEXT, payload.len() as u64);
            assert(enc == h + payload);
            lemma_segment(bytes, pos, enc, 0, h.len() as int);
            assert(enc.subrange(0, h.len() as int) =~= h);
            lemma_parse_header_of(MAJOR_TEXT, payload.len() as u64, bytes, pos);
            let end = pos + h.len() as int;
            lemma_segment(bytes, pos, enc, h.len() as int, enc.len() as int);
            assert(enc.subrange(h.len() as int, enc.len() as int) =~= payload);
            assert(bytes.subrange(end, end + payload.len() as int) == payload);
            vstd::utf8::encode_utf8_valid_utf8(s);
            vstd::utf8::encode_utf8_decode_utf8(s);
        },
        VVal::Bool(b) => {
            assert(bytes.subrange(pos, pos + enc.len() as int)[0] == bytes[pos + 0]);
            assert(bytes[pos] == enc[0]);
        },
        VVal::Table(es) => {
            let h = header(MAJOR_TABLE, es.len() as u64);
            let payload = enc_entries_bytes(es, 0);
            assert(enc == h + payload);
            lemma_segment(bytes, pos, enc, 0, h.len() as int);
            assert(enc.subrange(0, h.len() as int) =~= h);
            lemma_parse_header_of(MAJOR_TABLE, es.len() as u64, bytes, pos);
            let end = pos + h.len() as int;
            lemma_segment(bytes, pos, enc, h.len() as int, enc.len() as int);
            assert(enc.subrange(h.len() as int, enc.len() as int) =~= payload);
            assert(bytes.subrange(end, end + payload.len() as int) == payload);
            lemma_parse_enc_entries(es, bytes, end, 0);
            assert(es.subrange(0, es.len() as int) =~= es);
        },
    }
}

/// Reading entries back from where they were written gives the entries from
/// index `i` on, and stops right after their encodings.
proof fn lemma_parse_enc_entries(es: Seq<(VVal, VVal)>, bytes: Seq<u8>, pos: int, i: int)
    requires
        entries_sizes_fit(es, i),
        0 <= i <= es.len(),
        0 <= pos,
        pos + enc_entries_bytes(es, i).len() <= bytes.len(),
        bytes.subrange(pos, pos + enc_entries_bytes(es, i).len() as int) == enc_entries_bytes(
            es,
            i,
        ),
    ensures
        parse_entries(bytes, pos, es.len() - i) == Some(
            (es.subrange(i, es.len() as int), pos + enc_entries_bytes(es, i).len() as int),
        ),
    decreases es, es.len() - i,
{
    let enc = enc_entries_bytes(es, i);
    if i == es.len() {
        assert(es.subrange(i, es.len() as int) =~= Seq::<(VVal, VVal)>::empty());
    } else {
        let enc_k = enc_val_bytes(es[i].0);
        let enc_v = enc_val_bytes(es[i].1);
        let rest = enc_entries_bytes(es, i + 1);
        assert(enc == enc_k + enc_v + rest);
        let ka = enc_k.len() as int;
        let va = enc_v.len() as int;
        let p1 = pos + ka;
        let p2 = p1 + va;
        lemma_segment(bytes, pos, enc, 0, ka);
        assert(enc.subrange(0, ka) =~= enc_k);
        lemma_segment(bytes, pos, enc, ka, ka + va);
        assert(enc.subrange(ka, ka + va) =~= enc_v);
        lemma_segment(bytes, pos, enc, ka + va, enc.len() as int);
        assert(enc.subrange(ka + va, enc.len() as int) =~= rest);
        assert(bytes.subrange(p1, p1 + va) == enc_v);
        assert(bytes.subrange(p2, p2 + rest.len() as int) == rest);
        lemma_parse_enc_val(es[i].0, bytes, pos);
        lemma_parse_enc_val(es[i].1, bytes, p1);
        lemma_enc_nonempty(es[i].0);
        lemma_enc_nonempty(es[i].1);
        lemma_parse_enc_entries(es, bytes, p2, i + 1);
        assert(seq![es[i]] + es.subrange(i + 1, es.len() as int) =~= es.subrange(
            i,
            es.len() as int,
        ));
    }
}

/// Relies on `String::from_utf8` of std: it succeeds exactly when the bytes
/// are a valid UTF-8 encoding, and then yields the string of the characters
/// they encode, as `vstd::utf8` defines validity and decoding.
#[verifier::external_body]
fn string_from_utf8(bytes: Vec<u8>) -> (r: Option<String>)
    ensures
        r is Some <==> valid_utf8(bytes@),
        r matches Some(s) ==> s@ == decode_utf8(bytes@),
{
    String::from_utf8(bytes).ok()
}

/// Reads one header at `pos`: the major kind, the argument, and the
/// position after the header.
fn read_header(bytes: &Vec<u8>, pos: usize) -> (r: Result<(u8, u64, usize), DecodeError>)
    ensures
        r matches Ok(h) ==> parse_header(bytes@, pos as int) == Some((h.0, h.1, h.2 as int))
            && pos < h.2 <= bytes@.len(),
        r matches Err(e) ==> parse_header(bytes@, pos as int) is None && e
            == DecodeError::Malformed,
{
    if pos >= bytes.len() {
        return Err(DecodeError::Malformed);
    }
    let b = bytes[pos];
    let major = b / 32;
    let info = b % 32;
    if info < 24 {
        Ok((major, info as u64, pos + 1))
    } else if info == 24 {
        if bytes.len() - pos >= 2 {
            Ok((major, bytes[pos + 1] as u64, pos + 2))
        } else {
            Err(DecodeError::Malformed)
        }
    } else if info == 25 {
        if bytes.len() - pos >= 3 {
            Ok((major, (bytes[pos + 1] as u64) * 0x100 + (bytes[pos + 2] as u64), pos + 3))
        } else {
            Err(DecodeError::Malformed)
        }
    } else if info == 26 {
        if bytes.len() - pos >= 5 {
            Ok(
                (
                    major,
                    (bytes[pos + 1] as u64) * 0x1000000 + (bytes[pos + 2] as u64) * 0x10000 + (
                    bytes[pos + 3] as u64) * 0x100 + (bytes[pos + 4] as u64),
                    pos + 5,
                ),
            )
        } else {
            Err(DecodeError::Malformed)
        }
    } else if info == 27 {
        if bytes.len() - pos >= 9 {
            Ok(
                (
                    major,
                    (bytes[pos + 1] as u64) * 0x100000000000000 + (bytes[pos + 2] as u64)
                        * 0x1000000000000 + (bytes[pos + 3] as u64) * 0x10000000000 + (bytes[pos
                        + 4] as u64) * 0x100000000 + (bytes[pos + 5] as u64) * 0x1000000 + (
                    bytes[pos + 6] as u64) * 0x10000 + (bytes[pos + 7] as u64) * 0x100 + (bytes[pos
                        + 8] as u64),
                    pos + 9,
                ),
            )
        } else {
            Err(DecodeError::Malformed)
        }
    } else {
        Err(DecodeError::Malformed)
    }
}

/// Reads one value at `pos`: the value and the position after it. Fails
/// exactly where the bytes at `pos` are not a well-formed encoding of a
/// value this codec can carry.
pub fn read_value(bytes: &Vec<u8>, pos: usize) -> (r: Result<(Value, usize), DecodeError>)
    ensures
        r matches Ok(p) ==> parse_val(bytes@, pos as int) == Some((p.0@, p.1 as int)) && pos < p.1
            <= bytes@.len(),
        r matches Err(e) ==> parse_val(bytes@, pos as int) is None && e == DecodeError::Malformed,
    decreases bytes@.len() - pos, 0int,
{
    match read_header(bytes, pos) {
        Err(e) => Err(e),
        Ok((major, arg, end)) => {
            if major == MAJOR_UINT {
                Ok((Value::Uint(arg), end))
            } else if major == MAJOR_SIMPLE {
                if arg == 20 {
                    Ok((Value::Bool(false), end))
                } else if arg == 21 {
                    Ok((Value::Bool(true), end))
                } else {
                    Err(DecodeError::Malformed)
                }
            } else if major == MAJOR_TEXT {
                let rem = bytes.len() - end;
                if arg > rem as u64 {
                    return Err(DecodeError::Malformed);
                }
                let m = arg as usize;
                let mut chunk: Vec<u8> = Vec::new();
                let mut k: usize = 0;
                while k < m
                    invariant
                        end + m <= bytes@.len(),
                        bytes@.len() <= usize::MAX,
                        0 <= k <= m,
                        chunk@ == bytes@.subrange(end as int, end + k),
                    decreases m - k,
                {
                    chunk.push(bytes[end + k]);
                    proof {
                        assert(chunk@ =~= bytes@.subrange(end as int, end + k + 1));
                    }
                    k = k + 1;
                }
                match string_from_utf8(chunk) {
                    Some(s) => Ok((Value::Text(s), end + m)),
                    None => Err(DecodeError::Malformed),
                }
            } else if major == MAJOR_TABLE {
                match read_entries(bytes, end, arg) {
                    Ok((es, end2)) => Ok((Value::Table(es), end2)),
                    Err(e) => Err(e),
                }
            } else {
                Err(DecodeError::Malformed)
            }
        },
    }
}

/// Reads `n` key-value entries starting at `pos`.
fn read_entries(bytes: &Vec<u8>, pos: usize, n: u64) -> (r: Result<
    (Vec<(Value, Value)>, usize),
    DecodeError,
>)
    requires
        pos <= bytes@.len(),
    ensures
        r matches Ok(p) ==> parse_entries(bytes@, pos as int, n as int) == Some(
            (ventries_of(p.0@, 0), p.1 as int),
        ) && pos <= p.1 <= bytes@.len(),
        r matches Err(e) ==> parse_entries(bytes@, pos as int, n as int) is None && e
            == DecodeError::Malformed,
    decreases bytes@.len() - pos, n + 1,
{
    if n == 0 {
        let es: Vec<(Value, Value)> = Vec::new();
        proof {
            assert(ventries_of(es@, 0) =~= Seq::<(VVal, VVal)>::empty());
        }
        Ok((es, pos))
    } else {
        match read_value(bytes, pos) {
            Err(e) => Err(e),
            Ok((k, p1)) => match read_value(bytes, p1) {
                Err(e) => Err(e),
                Ok((v, p2)) => match read_entries(bytes, p2, n - 1) {
                    Err(e) => Err(e),
                    Ok((rest, p3)) => {
                        let ghost grest = rest@;
                        let mut es: Vec<(Value, Value)> = Vec::new();
                        es.push((k, v));
                        let mut tail = rest;
                        es.append(&mut tail);
                        proof {
                            lemma_ventries(es@, 0);
                            lemma_ventries(grest, 0);
                            assert(ventries_of(es@, 0) =~= seq![(es@[0].0@, es@[0].1@)]
                                + ventries_of(grest, 0));
                        }
                        Ok((es, p3))
                    },
                },
            },
        }
    }
}

/// Serializes a record instance into its wire bytes: the tag-keyed map of
/// its present fields, in schema order, as a definite-length map whose
/// declared size is exactly the number of entries written.
pub fn encode_record_to_bytes(schema: &RecordSchema, rec: &Record) -> (out: Vec<u8>)
    requires
        rec_conforms(rec@, schema@),
    ensures
        out@ == enc_val_bytes(enc_record(schema@, rec@)),
{
    let v = encode_record(schema, rec);
    let mut out: Vec<u8> = Vec::new();
    write_value(&v, &mut out);
    out
}

/// Reconstructs a record instance from wire bytes: reads one value from the
/// front of the bytes (anything after it is left untouched) and decodes it
/// as a tag-keyed map against the schema.
pub fn decode_record_from_bytes(schema: &RecordSchema, bytes: &Vec<u8>) -> (r: Result<
    Record,
    DecodeError,
>)
    requires
        wf_schema(schema@),
    ensures
        parse_val(bytes@, 0) is None ==> r == Err::<Record, DecodeError>(DecodeError::Malformed),
        parse_val(bytes@, 0) matches Some(p) ==> (match p.0 {
            VVal::Table(es) => (match r {
                Ok(rec) => dec_record(schema@, es) == Ok::<Seq<Option<VFieldValue>>, DecodeError>(
                    rec@,
                ),
                Err(e) => dec_record(schema@, es) == Err::<Seq<Option<VFieldValue>>, DecodeError>(
                    e,
                ),
            }),
            _ => r == Err::<Record, DecodeError>(DecodeError::ExpectedMap),
        }),
{
    match read_value(bytes, 0) {
        Err(e) => Err(e),
        Ok((v, _end)) => decode_record(schema, &v),
    }
}

} // verus!
