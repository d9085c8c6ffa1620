//! The unknown-field store: an append-only holder of fields whose numbers
//! the current schema does not recognize. Entries are kept in the order
//! they were recorded and re-emitted verbatim on encode, so a record
//! survives a round trip through a peer with a different schema version.

use vstd::prelude::*;

use crate::wire::{
    le_bytes_32, le_bytes_64, le_value_32, le_value_64, lemma_concat_take, lemma_concat_take_short,
    lemma_le_32_round_trip, lemma_le_64_round_trip, lemma_take_varint_of_encoding,
    lemma_take_varint_range, lemma_take_varint_truncated, lemma_varint_bound_ten,
    lemma_varint_shape, lemma_window_split, read_fixed_32, read_fixed_64,
    read_len_delimited, read_varint, spec_read_len_delimited, spec_read_varint, spec_tag, varint,
    varint_size, write_fixed_32, write_fixed_64, write_varint, DecodeError, MAX_FIELD_NUMBER,
};

verus! {

broadcast use {vstd::seq::group_seq_axioms, vstd::seq_lib::group_seq_lib_default};

/// The payload of a field kept in the unknown-field store, in the shape its
/// wire type dictates.
#[derive(Clone, Debug, PartialEq, Eq)]
pub enum UnknownValue {
    /// A bare varint value (wire type 0).
    Varint(u64),
    /// Eight little-endian bytes (wire type 1).
    Fixed64(u64),
    /// A length-prefixed byte run (wire type 2).
    LengthDelimited(Vec<u8>),
    /// Four little-endian bytes (wire type 5).
    Fixed32(u32),
}

/// The mathematical shape of an unknown payload.
#[verifier::ext_equal]
pub enum UnknownValueModel {
    Varint(u64),
    Fixed64(u64),
    LengthDelimited(Seq<u8>),
    Fixed32(u32),
}

impl View for UnknownValue {
    type V = UnknownValueModel;

    open spec fn view(&self) -> UnknownValueModel {
        match self {
            UnknownValue::Varint(n) => UnknownValueModel::Varint(*n),
            UnknownValue::Fixed64(n) => UnknownValueModel::Fixed64(*n),
            UnknownValue::LengthDelimited(b) => UnknownValueModel::LengthDelimited(b@),
            UnknownValue::Fixed32(n) => UnknownValueModel::Fixed32(*n),
        }
    }
}

/// One entry of the unknown-field store: a field number and its payload.
#[derive(Clone, Debug, PartialEq, Eq)]
pub struct UnknownField {
    pub field_number: u32,
    pub value: UnknownValue,
}

/// The mathematical shape of one unknown field.
#[verifier::ext_equal]
pub struct UnknownFieldModel {
    pub field_number: u32,
    pub value: UnknownValueModel,
}

impl View for UnknownField {
    type V = UnknownFieldModel;

    open spec fn view(&self) -> UnknownFieldModel {
        UnknownFieldModel { field_number: self.field_number, value: self.value@ }
    }
}

/// The wire-type code an unknown payload carries in its tag.
pub open spec fn value_wire_code(v: UnknownValueModel) -> u64 {
    match v {
        UnknownValueModel::Varint(_) => 0,
        UnknownValueModel::Fixed64(_) => 1,
        UnknownValueModel::LengthDelimited(_) => 2,
        UnknownValueModel::Fixed32(_) => 5,
    }
}

/// The bytes of an unknown payload, without its tag.
pub open spec fn value_bytes(v: UnknownValueModel) -> Seq<u8> {
    match v {
        UnknownValueModel::Varint(n) => varint(n),
        UnknownValueModel::Fixed64(n) => le_bytes_64(n),
        UnknownValueModel::LengthDelimited(b) => varint(b.len() as u64) + b,
        UnknownValueModel::Fixed32(n) => le_bytes_32(n),
    }
}

/// The bytes of one whole unknown field: its tag varint, then its payload.
pub open spec fn field_bytes(f: UnknownFieldModel) -> Seq<u8> {
    varint(spec_tag(f.field_number, value_wire_code(f.value))) + value_bytes(f.value)
}

/// The bytes of a run of unknown fields, in order.
pub open spec fn fields_bytes(s: Seq<UnknownFieldModel>) -> Seq<u8>
    decreases s.len(),
{
    if s.len() == 0 {
        Seq::empty()
    } else {
        field_bytes(s[0]) + fields_bytes(s.drop_first())
    }
}

/// The bytes of a known length-delimited field holding `payload`: written
/// as a tag, a length varint and the payload itself, and omitted entirely
/// when the payload is empty (default omission).
pub open spec fn len_field_chunk(field_number: u32, payload: Seq<u8>) -> Seq<u8> {
    if payload.len() == 0 {
        Seq::empty()
    } else {
        field_bytes(
            UnknownFieldModel {
                field_number,
                value: UnknownValueModel::LengthDelimited(payload),
            },
        )
    }
}

/// True when `k` bytes into the encoding of the field run `fs` lands
/// exactly between two fields (or at either end).
pub open spec fn is_field_boundary(fs: Seq<UnknownFieldModel>, k: int) -> bool
    decreases fs.len(),
{
    k == 0 || (fs.len() > 0 && k >= field_bytes(fs[0]).len() && is_field_boundary(
        fs.drop_first(),
        k - field_bytes(fs[0]).len(),
    ))
}

/// The end of the encoding is a field boundary.
pub proof fn lemma_boundary_at_end(fs: Seq<UnknownFieldModel>)
    ensures
        is_field_boundary(fs, fields_bytes(fs).len() as int),
    decreases fs.len(),
{
    if fs.len() > 0 {
        lemma_boundary_at_end(fs.drop_first());
    }
}

/// A storable unknown field: its number is in range and a byte payload is
/// small enough to sit in memory.
pub open spec fn wf_field(f: UnknownFieldModel) -> bool {
    &&& 1 <= f.field_number <= MAX_FIELD_NUMBER
    &&& match f.value {
        UnknownValueModel::LengthDelimited(b) => b.len() <= usize::MAX,
        _ => true,
    }
}

/// Every field of the run is storable.
pub open spec fn wf_fields(s: Seq<UnknownFieldModel>) -> bool {
    forall|i: int| 0 <= i < s.len() ==> wf_field(#[trigger] s[i])
}

// ---------------------------------------------------------------------------
// Decomposing runs of unknown fields
// ---------------------------------------------------------------------------

/// The bytes of a run split at any point into the bytes of its two halves.
pub proof fn lemma_fields_bytes_decompose(s: Seq<UnknownFieldModel>, i: int)
    requires
        0 <= i <= s.len(),
    ensures
        fields_bytes(s) == fields_bytes(s.take(i)) + fields_bytes(s.skip(i)),
    decreases i,
{
    if i == 0 {
        assert(s.take(0).len() == 0);
        assert(s.skip(0) =~= s);
        assert(Seq::empty() + fields_bytes(s) =~= fields_bytes(s));
    } else {
        let d = s.drop_first();
        lemma_fields_bytes_decompose(d, i - 1);
        assert(s.take(i).len() == i);
        assert(s.take(i)[0] == s[0]);
        assert(s.take(i).drop_first() =~= d.take(i - 1)) by {
            assert forall|j: int| 0 <= j < i - 1 implies s.take(i).drop_first()[j] == d.take(
                i - 1,
            )[j] by {
                assert(s.take(i).drop_first()[j] == s.take(i)[j + 1]);
                assert(s.take(i)[j + 1] == s[j + 1]);
                assert(d.take(i - 1)[j] == d[j]);
                assert(d[j] == s[j + 1]);
            }
        }
        assert(s.skip(i) =~= d.skip(i - 1)) by {
            assert forall|j: int| 0 <= j < s.len() - i implies s.skip(i)[j] == d.skip(i - 1)[j] by {
                assert(s.skip(i)[j] == s[i + j]);
                assert(d.skip(i - 1)[j] == d[i - 1 + j]);
                assert(d[i - 1 + j] == s[i + j]);
            }
        }
        assert(fields_bytes(s.take(i)) == field_bytes(s[0]) + fields_bytes(d.take(i - 1)));
        assert(fields_bytes(s) == field_bytes(s[0]) + fields_bytes(d));
        assert(field_bytes(s[0]) + (fields_bytes(d.take(i - 1)) + fields_bytes(d.skip(i - 1)))
            =~= (field_bytes(s[0]) + fields_bytes(d.take(i - 1))) + fields_bytes(d.skip(i - 1)));
    }
}

/// Extending the encoded prefix by one more field.
pub proof fn lemma_fields_bytes_take_step(s: Seq<UnknownFieldModel>, i: int)
    requires
        0 <= i < s.len(),
    ensures
        fields_bytes(s.take(i + 1)) == fields_bytes(s.take(i)) + field_bytes(s[i]),
{
    lemma_fields_bytes_decompose(s.take(i + 1), i);
    assert(s.take(i + 1).take(i) =~= s.take(i));
    let t = s.take(i + 1).skip(i);
    assert(t.len() == 1);
    assert(t[0] == s[i]);
    assert(t.drop_first().len() == 0);
    assert(fields_bytes(t) == field_bytes(s[i]) + fields_bytes(t.drop_first()));
    assert(field_bytes(s[i]) + Seq::<u8>::empty() =~= field_bytes(s[i]));
}

/// A first storable field is parsed off the front of a run.
pub proof fn lemma_fields_bytes_first(s: Seq<UnknownFieldModel>)
    requires
        s.len() > 0,
    ensures
        fields_bytes(s) == field_bytes(s[0]) + fields_bytes(s.drop_first()),
{
}

// ---------------------------------------------------------------------------
// The store
// ---------------------------------------------------------------------------

/// An ordered store of fields the schema did not recognize, owned by the
/// record instance that decoded them.
#[derive(Clone, Debug, PartialEq, Eq)]
pub struct UnknownFieldSet {
    pub entries: Vec<UnknownField>,
}

impl View for UnknownFieldSet {
    type V = Seq<UnknownFieldModel>;

    open spec fn view(&self) -> Seq<UnknownFieldModel> {
        self.entries@.map_values(|f: UnknownField| f@)
    }
}

impl UnknownFieldSet {
    /// An empty store.
    pub fn new() -> (r: UnknownFieldSet)
        ensures
            r@ == Seq::<UnknownFieldModel>::empty(),
    {
        let r = UnknownFieldSet { entries: Vec::new() };
        proof {
            assert(r@ =~= Seq::<UnknownFieldModel>::empty());
        }
        r
    }

    /// Appends one field, rejecting a field number that no tag could carry.
    pub fn record(&mut self, field_number: u32, value: UnknownValue) -> (r: Result<
        (),
        DecodeError,
    >)
        ensures
            1 <= field_number <= MAX_FIELD_NUMBER ==> r == Ok::<(), DecodeError>(())
                && final(self)@ == old(self)@.push(
                UnknownFieldModel { field_number, value: value@ },
            ),
            !(1 <= field_number <= MAX_FIELD_NUMBER) ==> r == Err::<(), DecodeError>(
                DecodeError::InvalidFieldNumber,
            ) && final(self)@ == old(self)@,
    {
        if field_number < 1 || field_number > MAX_FIELD_NUMBER {
            return Err(DecodeError::InvalidFieldNumber);
        }
        let ghost v = value@;
        self.entries.push(UnknownField { field_number, value });
        proof {
            assert(self@ =~= old(self)@.push(UnknownFieldModel { field_number, value: v }));
        }
        Ok(())
    }

    /// The number of bytes the whole store re-encodes to.
    pub fn total_size(&self) -> (r: usize)
        requires
            fields_bytes(self@).len() <= usize::MAX,
        ensures
            r == fields_bytes(self@).len(),
    {
        let n = self.entries.len();
        let mut total: usize = 0;
        let mut i: usize = 0;
        while i < n
            invariant
                i <= n,
                n == self.entries.len(),
                fields_bytes(self@).len() <= usize::MAX,
                total == fields_bytes(self@.take(i as int)).len(),
            decreases n - i,
        {
            proof {
                assert(self@[i as int] == self.entries@[i as int]@);
                lemma_fields_bytes_take_step(self@, i as int);
                lemma_fields_bytes_decompose(self@, i as int + 1);
            }
            let fs = field_size(&self.entries[i]);
            total = total + fs;
            i = i + 1;
        }
        proof {
            assert(self@.take(n as int) =~= self@);
        }
        total
    }

    /// Re-emits every stored field, unchanged and in the order recorded.
    pub fn write_all(&self, out: &mut Vec<u8>)
        ensures
            final(out)@ == old(out)@ + fields_bytes(self@),
    {
        let n = self.entries.len();
        let mut i: usize = 0;
        while i < n
            invariant
                i <= n,
                n == self.entries.len(),
                out@ == old(out)@ + fields_bytes(self@.take(i as int)),
            decreases n - i,
        {
            proof {
                assert(self@[i as int] == self.entries@[i as int]@);
                lemma_fields_bytes_take_step(self@, i as int);
            }
            write_field(out, &self.entries[i]);
            i = i + 1;
            proof {
                assert(out@ =~= old(out)@ + fields_bytes(self@.take(i as int)));
            }
        }
        proof {
            assert(self@.take(n as int) =~= self@);
        }
    }
}

/// Appends the tag and payload of one unknown field to `out`.
pub fn write_field(out: &mut Vec<u8>, f: &UnknownField)
    ensures
        final(out)@ == old(out)@ + field_bytes(f@),
{
    let code: u64 = match &f.value {
        UnknownValue::Varint(_) => 0,
        UnknownValue::Fixed64(_) => 1,
        UnknownValue::LengthDelimited(_) => 2,
        UnknownValue::Fixed32(_) => 5,
    };
    let tag: u64 = (f.field_number as u64) * 8 + code;
    assert(tag == spec_tag(f.field_number, value_wire_code(f.value@)));
    write_varint(out, tag);
    match &f.value {
        UnknownValue::Varint(n) => write_varint(out, *n),
        UnknownValue::Fixed64(n) => write_fixed_64(out, *n),
        UnknownValue::LengthDelimited(b) => {
            write_varint(out, b.len() as u64);
            out.extend_from_slice(b.as_slice());
            assert(out@ =~= (old(out)@ + varint(tag)) + (varint(b@.len() as u64) + b@));
        },
        UnknownValue::Fixed32(n) => write_fixed_32(out, *n),
    }
    assert(final(out)@ =~= old(out)@ + field_bytes(f@));
}

// ---------------------------------------------------------------------------
// Parsing one field off the wire
// ---------------------------------------------------------------------------

/// Reads one raw field at `pos`: its tag varint, then the payload its wire
/// type dictates. The field number must be in 1..=MAX_FIELD_NUMBER; wire
/// types outside 0, 1, 2 and 5 (the group and reserved codes) are refused.
pub open spec fn spec_parse_field(s: Seq<u8>, pos: int) -> Result<
    (UnknownFieldModel, int),
    DecodeError,
> {
    match spec_read_varint(s, pos) {
        Err(e) => Err(e),
        Ok((tag, p1)) => {
            let field = tag / 8;
            let wt = tag % 8;
            if field < 1 || field > MAX_FIELD_NUMBER as u64 {
                Err(DecodeError::InvalidFieldNumber)
            } else if wt == 0 {
                match spec_read_varint(s, p1) {
                    Err(e) => Err(e),
                    Ok((v, p2)) => Ok(
                        (
                            UnknownFieldModel {
                                field_number: field as u32,
                                value: UnknownValueModel::Varint(v),
                            },
                            p2,
                        ),
                    ),
                }
            } else if wt == 1 {
                if p1 + 8 <= s.len() {
                    Ok(
                        (
                            UnknownFieldModel {
                                field_number: field as u32,
                                value: UnknownValueModel::Fixed64(le_value_64(s, p1)),
                            },
                            p1 + 8,
                        ),
                    )
                } else {
                    Err(DecodeError::Truncated)
                }
            } else if wt == 2 {
                match spec_read_len_delimited(s, p1) {
                    Err(e) => Err(e),
                    Ok((b, p2)) => Ok(
                        (
                            UnknownFieldModel {
                                field_number: field as u32,
                                value: UnknownValueModel::LengthDelimited(b),
                            },
                            p2,
                        ),
                    ),
                }
            } else if wt == 5 {
                if p1 + 4 <= s.len() {
                    Ok(
                        (
                            UnknownFieldModel {
                                field_number: field as u32,
                                value: UnknownValueModel::Fixed32(le_value_32(s, p1)),
                            },
                            p1 + 4,
                        ),
                    )
                } else {
                    Err(DecodeError::Truncated)
                }
            } else {
                Err(DecodeError::UnsupportedWireType)
            }
        },
    }
}

/// Reads one raw field from `buf` at `pos`.
pub fn parse_field(buf: &[u8], pos: usize) -> (r: Result<(UnknownField, usize), DecodeError>)
    requires
        pos <= buf@.len(),
    ensures
        r matches Ok(v) ==> spec_parse_field(buf@, pos as int) == Ok::<
            (UnknownFieldModel, int),
            DecodeError,
        >((v.0@, v.1 as int)) && pos < v.1 <= buf@.len(),
        r matches Err(e) ==> spec_parse_field(buf@, pos as int) == Err::<
            (UnknownFieldModel, int),
            DecodeError,
        >(e),
{
    let (tag, p1) = match read_varint(buf, pos) {
        Ok(t) => t,
        Err(e) => {
            return Err(e);
        },
    };
    let field_wide: u64 = tag / 8;
    let wt: u64 = tag % 8;
    if field_wide < 1 || field_wide > MAX_FIELD_NUMBER as u64 {
        return Err(DecodeError::InvalidFieldNumber);
    }
    let field_number: u32 = field_wide as u32;
    if wt == 0 {
        match read_varint(buf, p1) {
            Ok((v, p2)) => Ok(
                (UnknownField { field_number, value: UnknownValue::Varint(v) }, p2),
            ),
            Err(e) => Err(e),
        }
    } else if wt == 1 {
        if buf.len() - p1 >= 8 {
            let v = read_fixed_64(buf, p1);
            Ok((UnknownField { field_number, value: UnknownValue::Fixed64(v) }, p1 + 8))
        } else {
            Err(DecodeError::Truncated)
        }
    } else if wt == 2 {
        match read_len_delimited(buf, p1) {
            Ok((b, p2)) => Ok(
                (UnknownField { field_number, value: UnknownValue::LengthDelimited(b) }, p2),
            ),
            Err(e) => Err(e),
        }
    } else if wt == 5 {
        if buf.len() - p1 >= 4 {
            let v = read_fixed_32(buf, p1);
            Ok((UnknownField { field_number, value: UnknownValue::Fixed32(v) }, p1 + 4))
        } else {
            Err(DecodeError::Truncated)
        }
    } else {
        Err(DecodeError::UnsupportedWireType)
    }
}

/// A successfully parsed field sits strictly inside the stream.
pub proof fn lemma_parse_field_range(s: Seq<u8>, pos: int)
    ensures
        spec_parse_field(s, pos) matches Ok(r) ==> pos < r.1 <= s.len(),
{
    lemma_take_varint_range(s, pos, 10);
    match spec_read_varint(s, pos) {
        Ok((tag, p1)) => {
            lemma_take_varint_range(s, p1, 10);
        },
        Err(_) => {},
    }
}

/// A successfully parsed field carries an in-range field number, and a
/// byte payload no longer than the stream it was read from.
pub proof fn lemma_parse_field_wf(s: Seq<u8>, pos: int)
    ensures
        spec_parse_field(s, pos) matches Ok(r) ==> 1 <= r.0.field_number <= MAX_FIELD_NUMBER && (
        r.0.value is LengthDelimited ==> r.0.value->LengthDelimited_0.len() <= s.len()),
{
    match spec_read_varint(s, pos) {
        Ok((tag, p1)) => {
            lemma_take_varint_range(s, pos, 10);
            lemma_take_varint_range(s, p1, 10);
            if tag % 8 == 2 {
                match spec_read_varint(s, p1) {
                    Ok((n, p2)) => {
                        if p2 + n <= s.len() {
                            assert(s.subrange(p2, p2 + n).len() == n as int);
                        }
                    },
                    Err(_) => {},
                }
            }
        },
        Err(_) => {},
    }
}

/// Parsing where the stream holds the bytes of a storable field yields
/// exactly that field and consumes exactly its bytes.
pub proof fn lemma_parse_field_of_encoding(s: Seq<u8>, pos: int, f: UnknownFieldModel)
    requires
        0 <= pos,
        wf_field(f),
        pos + field_bytes(f).len() <= s.len(),
        s.subrange(pos, pos + field_bytes(f).len()) == field_bytes(f),
    ensures
        spec_parse_field(s, pos) == Ok::<(UnknownFieldModel, int), DecodeError>(
            (f, pos + field_bytes(f).len()),
        ),
{
    let code = value_wire_code(f.value);
    let tag = spec_tag(f.field_number, code);
    let tv = varint(tag);
    let vb = value_bytes(f.value);
    assert(tag as int == (f.field_number as int) * 8 + code);
    assert(tag / 8 == f.field_number as u64 && tag % 8 == code);
    lemma_varint_bound_ten();
    lemma_window_split(s, pos, tv, vb);
    lemma_take_varint_of_encoding(s, pos, tag, 10);
    let p1 = pos + tv.len() as int;
    match f.value {
        UnknownValueModel::Varint(n) => {
            lemma_take_varint_of_encoding(s, p1, n, 10);
        },
        UnknownValueModel::Fixed64(n) => {
            lemma_le_64_round_trip(s, p1, n);
        },
        UnknownValueModel::LengthDelimited(b) => {
            let lv = varint(b.len() as u64);
            assert((b.len() as u64) as int == b.len() as int);
            lemma_window_split(s, p1, lv, b);
            lemma_take_varint_of_encoding(s, p1, b.len() as u64, 10);
            let p2 = p1 + lv.len() as int;
            assert(spec_read_len_delimited(s, p1) == Ok::<(Seq<u8>, int), DecodeError>(
                (b, p2 + b.len()),
            ));
        },
        UnknownValueModel::Fixed32(n) => {
            lemma_le_32_round_trip(s, p1, n);
        },
    }
}

/// A stream that ends strictly inside the bytes of a storable field makes
/// the parse fail with `Truncated`.
pub proof fn lemma_parse_field_truncated(s: Seq<u8>, pos: int, f: UnknownFieldModel, k: int)
    requires
        0 <= pos,
        wf_field(f),
        1 <= k < field_bytes(f).len(),
        s.len() == pos + k,
        s.subrange(pos, pos + k) == field_bytes(f).take(k),
    ensures
        spec_parse_field(s, pos) == Err::<(UnknownFieldModel, int), DecodeError>(
            DecodeError::Truncated,
        ),
{
    let code = value_wire_code(f.value);
    let tag = spec_tag(f.field_number, code);
    let tv = varint(tag);
    let vb = value_bytes(f.value);
    assert(tag as int == (f.field_number as int) * 8 + code);
    assert(tag / 8 == f.field_number as u64 && tag % 8 == code);
    lemma_varint_bound_ten();
    lemma_varint_shape(tag);
    if k < tv.len() {
        lemma_concat_take_short(tv, vb, k);
        lemma_take_varint_truncated(s, pos, tag, k, 10);
    } else {
        lemma_concat_take(tv, vb, k);
        let kv = k - tv.len() as int;
        lemma_window_split(s, pos, tv, vb.take(kv));
        lemma_take_varint_of_encoding(s, pos, tag, 10);
        let p1 = pos + tv.len() as int;
        match f.value {
            UnknownValueModel::Varint(n) => {
                lemma_varint_shape(n);
                lemma_take_varint_truncated(s, p1, n, kv, 10);
            },
            UnknownValueModel::Fixed64(n) => {
                assert(p1 + 8 > s.len());
            },
            UnknownValueModel::LengthDelimited(b) => {
                let lv = varint(b.len() as u64);
                assert((b.len() as u64) as int == b.len() as int);
                lemma_varint_shape(b.len() as u64);
                if kv < lv.len() {
                    lemma_concat_take_short(lv, b, kv);
                    assert(vb.take(kv) == lv.take(kv));
                    lemma_take_varint_truncated(s, p1, b.len() as u64, kv, 10);
                } else {
                    lemma_concat_take(lv, b, kv);
                    lemma_window_split(s, p1, lv, b.take(kv - lv.len()));
                    lemma_take_varint_of_encoding(s, p1, b.len() as u64, 10);
                    let p2 = p1 + lv.len() as int;
                    assert(p2 + b.len() > s.len());
                }
            },
            UnknownValueModel::Fixed32(n) => {
                assert(p1 + 4 > s.len());
            },
        }
    }
}

/// The number of bytes one unknown field re-encodes to.
pub fn field_size(f: &UnknownField) -> (r: usize)
    requires
        field_bytes(f@).len() <= usize::MAX,
    ensures
        r == field_bytes(f@).len(),
{
    let code: u64 = match &f.value {
        UnknownValue::Varint(_) => 0,
        UnknownValue::Fixed64(_) => 1,
        UnknownValue::LengthDelimited(_) => 2,
        UnknownValue::Fixed32(_) => 5,
    };
    let tag: u64 = (f.field_number as u64) * 8 + code;
    assert(tag == spec_tag(f.field_number, value_wire_code(f.value@)));
    let tag_size = varint_size(tag);
    match &f.value {
        UnknownValue::Varint(n) => tag_size + varint_size(*n),
        UnknownValue::Fixed64(_) => tag_size + 8,
        UnknownValue::LengthDelimited(b) => {
            let ls = varint_size(b.len() as u64);
            tag_size + ls + b.len()
        },
        UnknownValue::Fixed32(_) => tag_size + 4,
    }
}

} // verus!
