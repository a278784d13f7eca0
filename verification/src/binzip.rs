//! The rows of the BINZIP data format.
//!
//! A BINZIP archive holds, for each probe, a binary file of rows. Each row is
//! a little endian IEEE 754 double (the timestamp, in seconds) followed by one
//! value per variable of the probe, each in the little endian encoding of its
//! data type. This module reads and writes those rows as raw values: integers
//! as they are, floating point numbers as their bits.

use vstd::bytes::{
    lemma_auto_spec_u64_to_from_le_bytes, spec_u16_from_le_bytes, spec_u32_from_le_bytes,
    spec_u64_from_le_bytes, spec_u64_to_le_bytes, u16_from_le_bytes, u32_from_le_bytes,
    u64_from_le_bytes, u64_to_le_bytes,
};
use vstd::prelude::*;
use vstd::slice::slice_subrange;

verus! {

/// The data type of a variable in a row.
#[derive(Clone, Copy, Debug, PartialEq, Eq, Structural)]
pub enum DataType {
    UInt8,
    UInt16,
    UInt32,
    Float,
    Double,
}

/// The data type that a variable's type name in `info.json` stands for.
pub open spec fn datatype_named(name: Seq<char>) -> Option<DataType> {
    if name == "uint8"@ {
        Some(DataType::UInt8)
    } else if name == "uint16"@ {
        Some(DataType::UInt16)
    } else if name == "uint32"@ {
        Some(DataType::UInt32)
    } else if name == "float"@ {
        Some(DataType::Float)
    } else if name == "double"@ {
        Some(DataType::Double)
    } else {
        None
    }
}

impl DataType {
    /// The number of bytes a value of this type takes in a row.
    pub open spec fn spec_size(self) -> nat {
        match self {
            DataType::UInt8 => 1,
            DataType::UInt16 => 2,
            DataType::UInt32 => 4,
            DataType::Float => 4,
            DataType::Double => 8,
        }
    }

    /// The number of bytes a value of this type takes in a row.
    pub fn size(&self) -> (r: usize)
        ensures
            r == self.spec_size(),
    {
        match self {
            DataType::UInt8 => 1,
            DataType::UInt16 => 2,
            DataType::UInt32 => 4,
            DataType::Float => 4,
            DataType::Double => 8,
        }
    }

    /// The data type of the given type name, if it is one of the known ones.
    pub fn from_name(name: &String) -> (r: Option<DataType>)
        ensures
            r == datatype_named(name@),
    {
        if *name == "uint8".to_owned() {
            Some(DataType::UInt8)
        } else if *name == "uint16".to_owned() {
            Some(DataType::UInt16)
        } else if *name == "uint32".to_owned() {
            Some(DataType::UInt32)
        } else if *name == "float".to_owned() {
            Some(DataType::Float)
        } else if *name == "double".to_owned() {
            Some(DataType::Double)
        } else {
            None
        }
    }
}

/// A value read from a row: an unsigned integer, or the bits of a single
/// (`Float`) or double (`Double`) precision floating point number.
#[derive(Clone, Copy, Debug, PartialEq, Eq, Structural)]
pub enum RawValue {
    UInt8(u8),
    UInt16(u16),
    UInt32(u32),
    Float(u32),
    Double(u64),
}

/// The value of type `t` that the little endian `bytes` encode.
pub open spec fn decode_value(t: DataType, bytes: Seq<u8>) -> RawValue {
    match t {
        DataType::UInt8 => RawValue::UInt8(bytes[0]),
        DataType::UInt16 => RawValue::UInt16(spec_u16_from_le_bytes(bytes)),
        DataType::UInt32 => RawValue::UInt32(spec_u32_from_le_bytes(bytes)),
        DataType::Float => RawValue::Float(spec_u32_from_le_bytes(bytes)),
        DataType::Double => RawValue::Double(spec_u64_from_le_bytes(bytes)),
    }
}

/// Read a value of the given type at `offset` in `chunk`, and move `offset`
/// past it.
pub fn load_value(offset: &mut usize, chunk: &[u8], datatype: DataType) -> (r: RawValue)
    requires
        *old(offset) + datatype.spec_size() <= chunk@.len(),
    ensures
        *final(offset) == *old(offset) + datatype.spec_size(),
        r == decode_value(datatype, chunk@.subrange(*old(offset) as int, *final(offset) as int)),
{
    let start: usize = *offset;
    let available: usize = chunk.len();
    assert(start + datatype.spec_size() <= available);
    let end: usize = start + datatype.size();
    let bytes = slice_subrange(chunk, start, end);
    *offset = end;
    match datatype {
        DataType::UInt8 => RawValue::UInt8(bytes[0]),
        DataType::UInt16 => RawValue::UInt16(u16_from_le_bytes(bytes)),
        DataType::UInt32 => RawValue::UInt32(u32_from_le_bytes(bytes)),
        DataType::Float => RawValue::Float(u32_from_le_bytes(bytes)),
        DataType::Double => RawValue::Double(u64_from_le_bytes(bytes)),
    }
}

/// The number of bytes that the values of one row take, for variables of the
/// data types `dts`.
pub open spec fn row_data_size(dts: Seq<DataType>) -> nat
    decreases dts.len(),
{
    if dts.len() == 0 {
        0
    } else {
        row_data_size(dts.drop_last()) + dts.last().spec_size()
    }
}

/// The number of bytes of a row: the timestamp, then the values.
pub open spec fn row_size_of(dts: Seq<DataType>) -> nat {
    8 + row_data_size(dts)
}

/// The values that the `row` holds for variables of the data types `dts`, in
/// order; the first value starts right after the timestamp.
pub open spec fn decode_fields(row: Seq<u8>, dts: Seq<DataType>) -> Seq<RawValue>
    decreases dts.len(),
{
    if dts.len() == 0 {
        Seq::empty()
    } else {
        let start = (8 + row_data_size(dts.drop_last())) as int;
        decode_fields(row, dts.drop_last()).push(
            decode_value(dts.last(), row.subrange(start, start + dts.last().spec_size() as int)),
        )
    }
}

/// A row, read: the bits of its timestamp (a double, in seconds) and its values.
pub struct DecodedRow {
    pub timestamp: u64,
    pub values: Vec<RawValue>,
}

impl DecodedRow {
    /// This row is what the bytes `row` encode, for variables of the data
    /// types `dts`.
    pub open spec fn decodes(self, row: Seq<u8>, dts: Seq<DataType>) -> bool {
        &&& self.timestamp == spec_u64_from_le_bytes(row.subrange(0, 8))
        &&& self.values@ == decode_fields(row, dts)
    }
}

/// The `i`-th row of `size` bytes in `buf`.
pub open spec fn row_at(buf: Seq<u8>, size: nat, i: int) -> Seq<u8> {
    buf.subrange(i * size as int, i * size as int + size as int)
}

/// A prefix of the variables takes no more room than all of them.
proof fn lemma_row_data_size_prefix(dts: Seq<DataType>, j: int)
    requires
        0 <= j <= dts.len(),
    ensures
        row_data_size(dts.take(j)) <= row_data_size(dts),
    decreases dts.len() - j,
{
    if j < dts.len() {
        lemma_row_data_size_prefix(dts, j + 1);
        assert(dts.take(j + 1).drop_last() =~= dts.take(j));
    } else {
        assert(dts.take(j) =~= dts);
    }
}

/// The size of a row for variables of the data types `dts`, or `None` when it
/// does not fit in a `usize`.
pub fn row_size(dts: &Vec<DataType>) -> (r: Option<usize>)
    ensures
        r is None <==> row_size_of(dts@) > usize::MAX,
        r matches Some(n) ==> n == row_size_of(dts@),
{
    let mut total: usize = 8;
    let mut j: usize = 0;
    while j < dts.len()
        invariant
            0 <= j <= dts@.len(),
            total == 8 + row_data_size(dts@.take(j as int)),
        decreases dts@.len() - j,
    {
        proof {
            assert(dts@.take(j + 1).drop_last() =~= dts@.take(j as int));
            lemma_row_data_size_prefix(dts@, j + 1);
        }
        let size: usize = dts[j].size();
        if total > usize::MAX - size {
            proof {
                lemma_row_data_size_prefix(dts@, j + 1);
            }
            return None;
        }
        total = total + size;
        j = j + 1;
    }
    assert(dts@.take(j as int) =~= dts@);
    Some(total)
}

/// Read one row: the timestamp, then one value per variable.
pub fn decode_row(chunk: &[u8], dts: &Vec<DataType>) -> (r: DecodedRow)
    requires
        chunk@.len() == row_size_of(dts@),
    ensures
        r.decodes(chunk@, dts@),
{
    let mut offset: usize = 0;
    let timestamp = u64_from_le_bytes(slice_subrange(chunk, 0, 8));
    offset = 8;
    let mut values: Vec<RawValue> = Vec::new();
    let mut j: usize = 0;
    assert(dts@.take(0) =~= Seq::<DataType>::empty());
    while j < dts.len()
        invariant
            chunk@.len() == row_size_of(dts@),
            0 <= j <= dts@.len(),
            offset == 8 + row_data_size(dts@.take(j as int)),
            values@ == decode_fields(chunk@, dts@.take(j as int)),
        decreases dts@.len() - j,
    {
        proof {
            assert(dts@.take(j + 1).drop_last() =~= dts@.take(j as int));
            assert(dts@.take(j + 1).last() == dts@[j as int]);
            lemma_row_data_size_prefix(dts@, j + 1);
        }
        let value = load_value(&mut offset, chunk, dts[j]);
        values.push(value);
        j = j + 1;
    }
    assert(dts@.take(j as int) =~= dts@);
    DecodedRow { timestamp, values }
}

/// Read all rows of `buf`, for variables of the data types `dts`.
pub fn decode_rows(buf: &[u8], dts: &Vec<DataType>) -> (r: Vec<DecodedRow>)
    requires
        row_size_of(dts@) <= usize::MAX,
        buf@.len() % row_size_of(dts@) == 0,
    ensures
        r@.len() == buf@.len() / row_size_of(dts@),
        forall|i: int| 0 <= i < r@.len() ==> (#[trigger] r@[i]).decodes(row_at(buf@, row_size_of(dts@), i), dts@),
{
    let ghost rs = row_size_of(dts@);
    let size: usize = row_size(dts).unwrap();
    let len: usize = buf.len();
    let n: usize = len / size;
    proof {
        vstd::arithmetic::div_mod::lemma_fundamental_div_mod(len as int, size as int);
        assert(n * rs == len) by (nonlinear_arith)
            requires
                len == size * (len / size) + len % size,
                len % size == 0,
                n == len / size,
                size == rs,
        ;
    }
    let mut rows: Vec<DecodedRow> = Vec::new();
    let mut i: usize = 0;
    let mut base: usize = 0;
    while i < n
        invariant
            rs == row_size_of(dts@),
            size == rs,
            rs > 0,
            len == buf@.len(),
            n * rs == len,
            0 <= i <= n,
            base == i * rs,
            rows@.len() == i,
            forall|k: int| 0 <= k < i ==> (#[trigger] rows@[k]).decodes(row_at(buf@, rs, k), dts@),
        decreases n - i,
    {
        assert(base + size <= len) by (nonlinear_arith)
            requires
                base == i * rs,
                i < n,
                n * rs == len,
                size == rs,
        ;
        assert(base + size == (i + 1) * rs) by (nonlinear_arith)
            requires
                base == i * rs,
                size == rs,
        ;
        let chunk = slice_subrange(buf, base, base + size);
        let row = decode_row(chunk, dts);
        rows.push(row);
        base = base + size;
        i = i + 1;
    }
    rows
}

/// The bytes of rows that each hold one double next to the timestamp: per
/// row, the little endian bits of the timestamp, then those of the value.
pub open spec fn encode_pairs(rows: Seq<(u64, u64)>) -> Seq<u8>
    decreases rows.len(),
{
    if rows.len() == 0 {
        Seq::empty()
    } else {
        encode_pairs(rows.drop_last()) + spec_u64_to_le_bytes(rows.last().0) + spec_u64_to_le_bytes(
            rows.last().1,
        )
    }
}

/// Write rows that each hold the bits of a timestamp and of one double value.
pub fn encode_double_rows(rows: &Vec<(u64, u64)>) -> (r: Vec<u8>)
    ensures
        r@ == encode_pairs(rows@),
{
    let mut out: Vec<u8> = Vec::new();
    let mut i: usize = 0;
    assert(rows@.take(0) =~= Seq::<(u64, u64)>::empty());
    while i < rows.len()
        invariant
            0 <= i <= rows@.len(),
            out@ == encode_pairs(rows@.take(i as int)),
        decreases rows@.len() - i,
    {
        let (timestamp, value) = rows[i];
        let mut timestamp_bytes = u64_to_le_bytes(timestamp);
        let mut value_bytes = u64_to_le_bytes(value);
        out.append(&mut timestamp_bytes);
        out.append(&mut value_bytes);
        proof {
            assert(rows@.take(i + 1).drop_last() =~= rows@.take(i as int));
            assert(rows@.take(i + 1).last() == rows@[i as int]);
        }
        i = i + 1;
    }
    assert(rows@.take(i as int) =~= rows@);
    out
}

/// Reading back rows of one double value gives the rows that were written:
/// the `i`-th row of 16 bytes holds the `i`-th timestamp and value.
pub proof fn lemma_double_rows_roundtrip(rows: Seq<(u64, u64)>, i: int, row: DecodedRow)
    requires
        0 <= i < rows.len(),
        row.decodes(row_at(encode_pairs(rows), 16, i), seq![DataType::Double]),
    ensures
        encode_pairs(rows).len() == 16 * rows.len(),
        row_size_of(seq![DataType::Double]) == 16,
        row.timestamp == rows[i].0,
        row.values@ == seq![RawValue::Double(rows[i].1)],
{
    lemma_auto_spec_u64_to_from_le_bytes();
    lemma_encode_pairs_rows(rows, i);
    let dts = seq![DataType::Double];
    assert(dts.drop_last() =~= Seq::<DataType>::empty());
    assert(row_data_size(dts) == 8);
    let bytes = row_at(encode_pairs(rows), 16, i);
    let a = spec_u64_to_le_bytes(rows[i].0);
    let b = spec_u64_to_le_bytes(rows[i].1);
    assert(bytes.subrange(0, 8) =~= a);
    assert(bytes.subrange(8, 16) =~= b);
    assert(row_data_size(dts.drop_last()) == 0);
    assert(dts.last() == DataType::Double);
    assert(decode_fields(bytes, dts.drop_last()) =~= Seq::<RawValue>::empty());
    assert(spec_u64_from_le_bytes(b) == rows[i].1);
    assert(decode_value(DataType::Double, bytes.subrange(8, 16)) == RawValue::Double(rows[i].1));
    assert(decode_fields(bytes, dts) =~= seq![RawValue::Double(rows[i].1)]);
}

/// The rows written take 16 bytes each, and the `i`-th 16 bytes are those of
/// the `i`-th row.
proof fn lemma_encode_pairs_rows(rows: Seq<(u64, u64)>, i: int)
    requires
        0 <= i < rows.len(),
    ensures
        encode_pairs(rows).len() == 16 * rows.len(),
        row_at(encode_pairs(rows), 16, i) == spec_u64_to_le_bytes(rows[i].0) + spec_u64_to_le_bytes(rows[i].1),
    decreases rows.len(),
{
    lemma_auto_spec_u64_to_from_le_bytes();
    lemma_encode_pairs_len(rows);
    let d = rows.drop_last();
    let n = rows.len() - 1;
    lemma_encode_pairs_len(d);
    let e = encode_pairs(rows);
    let a = spec_u64_to_le_bytes(rows.last().0);
    let b = spec_u64_to_le_bytes(rows.last().1);
    if i < n {
        lemma_encode_pairs_rows(d, i);
        assert(d[i] == rows[i]);
        assert(row_at(e, 16, i) =~= row_at(encode_pairs(d), 16, i));
    } else {
        assert(row_at(e, 16, i) =~= a + b);
    }
}

/// The rows written take 16 bytes each.
proof fn lemma_encode_pairs_len(rows: Seq<(u64, u64)>)
    ensures
        encode_pairs(rows).len() == 16 * rows.len(),
    decreases rows.len(),
{
    lemma_auto_spec_u64_to_from_le_bytes();
    if rows.len() > 0 {
        lemma_encode_pairs_len(rows.drop_last());
    }
}

} // verus!
