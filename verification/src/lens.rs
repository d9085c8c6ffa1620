//! The `Lens` record: an identifier plus an unknown-field store, with its
//! encode / decode / size triplet and the laws that relate them.

use vstd::prelude::*;
use vstd::utf8::{decode_utf8, encode_utf8, valid_utf8};

use crate::text::string_from_utf8;
use crate::unknown::{
    field_bytes, fields_bytes, is_field_boundary, lemma_boundary_at_end, lemma_fields_bytes_first,
    lemma_parse_field_of_encoding, lemma_parse_field_range, lemma_parse_field_truncated,
    len_field_chunk, parse_field, spec_parse_field, wf_field, wf_fields, UnknownField,
    UnknownFieldModel, UnknownFieldSet, UnknownValue, UnknownValueModel,
};
use crate::wire::{
    lemma_concat_take, lemma_concat_take_short, lemma_varint_shape, lemma_window_split, spec_tag,
    varint, varint_size, write_varint, DecodeError,
};

verus! {

broadcast use {vstd::seq::group_seq_axioms, vstd::seq_lib::group_seq_lib_default};

/// The mathematical shape of a `Lens`: its text and its unknown fields.
#[verifier::ext_equal]
pub struct LensModel {
    pub identifier: Seq<char>,
    pub unknown: Seq<UnknownFieldModel>,
}

/// An identifier-only record. An absent identifier is the empty string,
/// not a distinct null state.
#[derive(Clone, Debug, PartialEq, Eq)]
pub struct Lens {
    pub identifier: String,
    pub unknown_fields: UnknownFieldSet,
}

impl View for Lens {
    type V = LensModel;

    open spec fn view(&self) -> LensModel {
        LensModel { identifier: self.identifier@, unknown: self.unknown_fields@ }
    }
}

/// The record every field of which holds its default value.
pub open spec fn lens_default() -> LensModel {
    LensModel { identifier: Seq::empty(), unknown: Seq::empty() }
}

/// The encoding of a `Lens`: the identifier field if non-empty, then the
/// unknown fields in the order recorded.
pub open spec fn lens_bytes(m: LensModel) -> Seq<u8> {
    len_field_chunk(1, encode_utf8(m.identifier)) + fields_bytes(m.unknown)
}

/// No stored unknown field collides with the tag of `identifier`, so a
/// re-encoded record decodes the same way.
pub open spec fn lens_unknown_ok(u: Seq<UnknownFieldModel>) -> bool {
    forall|i: int|
        0 <= i < u.len() ==> !((#[trigger] u[i]).field_number == 1
            && u[i].value is LengthDelimited)
}

/// A representable `Lens` value: text and payloads fit in memory, and the
/// unknown fields are storable and do not collide with the schema.
pub open spec fn wf_lens(m: LensModel) -> bool {
    &&& encode_utf8(m.identifier).len() <= usize::MAX
    &&& wf_fields(m.unknown)
    &&& lens_unknown_ok(m.unknown)
}

/// One decode step: route a parsed field into the record. Field 1 with
/// wire type 2 is the identifier (its bytes must be valid UTF-8); every
/// other field is kept as an unknown field.
pub open spec fn lens_step(acc: LensModel, f: UnknownFieldModel) -> Result<
    LensModel,
    DecodeError,
> {
    if f.field_number == 1 && f.value is LengthDelimited {
        let b = f.value->LengthDelimited_0;
        if valid_utf8(b) {
            Ok(LensModel { identifier: decode_utf8(b), unknown: acc.unknown })
        } else {
            Err(DecodeError::InvalidUtf8)
        }
    } else {
        Ok(LensModel { identifier: acc.identifier, unknown: acc.unknown.push(f) })
    }
}

/// The decode loop from `pos` with the record accumulated so far: read
/// fields tag by tag until the stream ends at a tag boundary.
pub open spec fn spec_lens_decode_from(s: Seq<u8>, pos: int, acc: LensModel) -> Result<
    LensModel,
    DecodeError,
>
    decreases s.len() - pos
        when 0 <= pos <= s.len()
        via spec_lens_decode_from_dec
{
    if pos == s.len() {
        Ok(acc)
    } else {
        match spec_parse_field(s, pos) {
            Err(e) => Err(e),
            Ok((f, end)) => match lens_step(acc, f) {
                Err(e) => Err(e),
                Ok(acc2) => spec_lens_decode_from(s, end, acc2),
            },
        }
    }
}

#[via_fn]
proof fn spec_lens_decode_from_dec(s: Seq<u8>, pos: int, acc: LensModel) {
    lemma_parse_field_range(s, pos);
}

/// Decoding a whole byte stream into a `Lens`.
pub open spec fn spec_lens_decode(s: Seq<u8>) -> Result<LensModel, DecodeError> {
    spec_lens_decode_from(s, 0, lens_default())
}

/// A non-empty character sequence has a non-empty UTF-8 encoding.
pub proof fn lemma_encode_utf8_empty(cs: Seq<char>)
    ensures
        (encode_utf8(cs).len() == 0) <==> (cs.len() == 0),
{
    if cs.len() > 0 {
        vstd::utf8::char_is_scalar(cs[0]);
        assert(vstd::utf8::encode_scalar(cs[0] as u32).len() >= 1);
    }
}

impl Lens {
    /// A record with every field at its default value.
    pub fn new() -> (r: Lens)
        ensures
            r@ == lens_default(),
    {
        let r = Lens { identifier: String::new(), unknown_fields: UnknownFieldSet::new() };
        proof {
            assert(r@ =~= lens_default());
        }
        r
    }

    /// The exact number of bytes `encode` will produce, computed before
    /// any byte is written.
    pub fn size(&self) -> (r: usize)
        requires
            lens_bytes(self@).len() <= usize::MAX,
        ensures
            r == lens_bytes(self@).len(),
    {
        proof {
            lemma_encode_utf8_empty(self@.identifier);
        }
        let mut total: usize = 0;
        if !self.identifier.as_str().is_empty() {
            let b = self.identifier.as_str().as_bytes();
            proof {
                assert(spec_tag(1, 2) == 10);
                assert(field_bytes(
                    UnknownFieldModel {
                        field_number: 1,
                        value: UnknownValueModel::LengthDelimited(b@),
                    },
                ) == varint(10) + (varint(b@.len() as u64) + b@));
            }
            let ts = varint_size(10);
            let ls = varint_size(b.len() as u64);
            total = ts + ls + b.len();
        }
        let us = self.unknown_fields.total_size();
        total + us
    }

    /// Appends the encoding of `self` to `out`.
    pub fn write_to(&self, out: &mut Vec<u8>)
        ensures
            final(out)@ == old(out)@ + lens_bytes(self@),
    {
        proof {
            lemma_encode_utf8_empty(self@.identifier);
        }
        if !self.identifier.as_str().is_empty() {
            let b = self.identifier.as_str().as_bytes();
            proof {
                assert(spec_tag(1, 2) == 10);
            }
            write_varint(out, 10);
            write_varint(out, b.len() as u64);
            out.extend_from_slice(b);
            proof {
                assert(out@ =~= old(out)@ + len_field_chunk(1, encode_utf8(self@.identifier)));
            }
        }
        self.unknown_fields.write_all(out);
        proof {
            assert(final(out)@ =~= old(out)@ + lens_bytes(self@));
        }
    }

    /// Encodes `self` into a fresh buffer of exactly the right size.
    pub fn encode(&self) -> (r: Vec<u8>)
        requires
            lens_bytes(self@).len() <= usize::MAX,
        ensures
            r@ == lens_bytes(self@),
    {
        let n = self.size();
        let mut out: Vec<u8> = Vec::with_capacity(n);
        self.write_to(&mut out);
        proof {
            assert(out@ =~= lens_bytes(self@));
        }
        out
    }

    /// Decodes a byte stream into a `Lens`. Either the whole stream is a
    /// valid encoding and the full record is returned, or nothing is.
    pub fn decode(buf: &[u8]) -> (r: Result<Lens, DecodeError>)
        ensures
            r matches Ok(m) ==> spec_lens_decode(buf@) == Ok::<LensModel, DecodeError>(m@)
                && wf_lens(m@),
            r matches Err(e) ==> spec_lens_decode(buf@) == Err::<LensModel, DecodeError>(e),
    {
        let n = buf.len();
        let mut m = Lens::new();
        let mut pos: usize = 0;
        while pos < n
            invariant
                pos <= n,
                n == buf@.len(),
                spec_lens_decode(buf@) == spec_lens_decode_from(buf@, pos as int, m@),
                wf_lens(m@),
            decreases n - pos,
        {
            let ghost acc = m@;
            match parse_field(buf, pos) {
                Err(e) => {
                    return Err(e);
                },
                Ok((f, end)) => {
                    proof {
                        crate::unknown::lemma_parse_field_wf(buf@, pos as int);
                    }
                    let ghost fm = f@;
                    let UnknownField { field_number, value } = f;
                    if field_number == 1 {
                        match value {
                            UnknownValue::LengthDelimited(b) => {
                                let ghost bb = b@;
                                match string_from_utf8(b) {
                                    Some(s) => {
                                        m.identifier = s;
                                        proof {
                                            vstd::utf8::decode_utf8_encode_utf8(bb);
                                            assert(m@ =~= LensModel {
                                                identifier: decode_utf8(bb),
                                                unknown: acc.unknown,
                                            });
                                            assert(lens_step(acc, fm) == Ok::<
                                                LensModel,
                                                DecodeError,
                                            >(m@));
                                            assert(spec_lens_decode_from(buf@, pos as int, acc)
                                                == spec_lens_decode_from(buf@, end as int, m@));
                                        }
                                    },
                                    None => {
                                        proof {
                                            assert(lens_step(acc, fm) == Err::<
                                                LensModel,
                                                DecodeError,
                                            >(DecodeError::InvalidUtf8));
                                            assert(spec_lens_decode_from(buf@, pos as int, acc)
                                                == Err::<LensModel, DecodeError>(
                                                DecodeError::InvalidUtf8,
                                            ));
                                        }
                                        return Err(DecodeError::InvalidUtf8);
                                    },
                                }
                            },
                            other => {
                                push_unknown(&mut m, UnknownField { field_number, value: other });
                                proof {
                                    assert(lens_step(acc, fm) == Ok::<LensModel, DecodeError>(
                                        m@,
                                    ));
                                    assert(spec_lens_decode_from(buf@, pos as int, acc)
                                        == spec_lens_decode_from(buf@, end as int, m@));
                                }
                            },
                        }
                    } else {
                        push_unknown(&mut m, UnknownField { field_number, value });
                        proof {
                            assert(lens_step(acc, fm) == Ok::<LensModel, DecodeError>(m@));
                            assert(spec_lens_decode_from(buf@, pos as int, acc)
                                == spec_lens_decode_from(buf@, end as int, m@));
                        }
                    }
                    pos = end;
                },
            }
        }
        Ok(m)
    }
}

impl Default for Lens {
    fn default() -> (r: Lens)
        ensures
            r@ == lens_default(),
    {
        Lens::new()
    }
}

/// Appends one decoded field to the record's unknown-field store.
fn push_unknown(m: &mut Lens, f: UnknownField)
    ensures
        final(m)@ == (LensModel {
            identifier: old(m)@.identifier,
            unknown: old(m)@.unknown.push(f@),
        }),
{
    m.unknown_fields.entries.push(f);
    proof {
        assert(m@.unknown =~= old(m)@.unknown.push(f@));
        assert(m@ =~= LensModel {
            identifier: old(m)@.identifier,
            unknown: old(m)@.unknown.push(f@),
        });
    }
}

// ---------------------------------------------------------------------------
// Laws
// ---------------------------------------------------------------------------

/// Decoding a stream whose remainder is exactly a run of storable,
/// non-colliding unknown fields appends that run and succeeds.
proof fn lemma_lens_decode_unknown_suffix(
    s: Seq<u8>,
    pos: int,
    acc: LensModel,
    rest: Seq<UnknownFieldModel>,
)
    requires
        0 <= pos,
        wf_fields(rest),
        lens_unknown_ok(rest),
        s.len() == pos + fields_bytes(rest).len(),
        s.subrange(pos, s.len() as int) == fields_bytes(rest),
    ensures
        spec_lens_decode_from(s, pos, acc) == Ok::<LensModel, DecodeError>(
            LensModel { identifier: acc.identifier, unknown: acc.unknown + rest },
        ),
    decreases rest.len(),
{
    if rest.len() == 0 {
        assert(pos == s.len());
        assert(LensModel { identifier: acc.identifier, unknown: acc.unknown + rest } =~= acc);
    } else {
        let f = rest[0];
        assert(wf_field(f));
        lemma_fields_bytes_first(rest);
        lemma_varint_shape(spec_tag(f.field_number, crate::unknown::value_wire_code(f.value)));
        lemma_window_split(s, pos, field_bytes(f), fields_bytes(rest.drop_first()));
        lemma_parse_field_of_encoding(s, pos, f);
        let acc2 = LensModel { identifier: acc.identifier, unknown: acc.unknown.push(f) };
        assert(lens_step(acc, f) == Ok::<LensModel, DecodeError>(acc2));
        assert(wf_fields(rest.drop_first())) by {
            assert forall|i: int| 0 <= i < rest.drop_first().len() implies wf_field(
                #[trigger] rest.drop_first()[i],
            ) by {
                assert(rest.drop_first()[i] == rest[i + 1]);
            }
        }
        assert(lens_unknown_ok(rest.drop_first())) by {
            assert forall|i: int| 0 <= i < rest.drop_first().len() implies !((
            #[trigger] rest.drop_first()[i]).field_number == 1
                && rest.drop_first()[i].value is LengthDelimited) by {
                assert(rest.drop_first()[i] == rest[i + 1]);
            }
        }
        lemma_lens_decode_unknown_suffix(
            s,
            pos + field_bytes(f).len(),
            acc2,
            rest.drop_first(),
        );
        assert(acc2.unknown + rest.drop_first() =~= acc.unknown + rest);
    }
}

/// Round trip: decoding the encoding of any representable record yields
/// that record back, unknown fields included.
pub proof fn lemma_lens_round_trip(m: LensModel)
    requires
        wf_lens(m),
    ensures
        spec_lens_decode(lens_bytes(m)) == Ok::<LensModel, DecodeError>(m),
{
    let s = lens_bytes(m);
    lemma_encode_utf8_empty(m.identifier);
    if m.identifier.len() == 0 {
        assert(s =~= fields_bytes(m.unknown));
        assert(s.subrange(0, s.len() as int) =~= s);
        lemma_lens_decode_unknown_suffix(s, 0, lens_default(), m.unknown);
        assert(lens_default().unknown + m.unknown =~= m.unknown);
        assert(LensModel {
            identifier: lens_default().identifier,
            unknown: lens_default().unknown + m.unknown,
        } =~= m);
    } else {
        let b = encode_utf8(m.identifier);
        let f0 = UnknownFieldModel { field_number: 1, value: UnknownValueModel::LengthDelimited(b) };
        assert(len_field_chunk(1, b) == field_bytes(f0));
        assert(s.subrange(0, s.len() as int) =~= s);
        lemma_window_split(s, 0, field_bytes(f0), fields_bytes(m.unknown));
        lemma_parse_field_of_encoding(s, 0, f0);
        vstd::utf8::encode_utf8_valid_utf8(m.identifier);
        vstd::utf8::encode_utf8_decode_utf8(m.identifier);
        let acc2 = LensModel { identifier: decode_utf8(b), unknown: Seq::empty() };
        assert(lens_step(lens_default(), f0) == Ok::<LensModel, DecodeError>(acc2));
        lemma_lens_decode_unknown_suffix(s, field_bytes(f0).len() as int, acc2, m.unknown);
        assert(acc2.unknown + m.unknown =~= m.unknown);
        assert(LensModel { identifier: acc2.identifier, unknown: acc2.unknown + m.unknown }
            =~= m);
    }
}

/// Default omission: a record whose fields are all at their defaults
/// encodes to exactly its recorded unknown fields, and to the empty byte
/// sequence when there are none.
pub proof fn lemma_lens_default_omission(m: LensModel)
    requires
        m.identifier.len() == 0,
    ensures
        lens_bytes(m) == fields_bytes(m.unknown),
        lens_bytes(m).len() == fields_bytes(m.unknown).len(),
{
    lemma_encode_utf8_empty(m.identifier);
    assert(lens_bytes(m) =~= fields_bytes(m.unknown));
}

/// Unknown-field passthrough: bytes holding only unrecognized fields
/// decode into a record that re-encodes to exactly those bytes.
pub proof fn lemma_lens_unknown_passthrough(u: Seq<UnknownFieldModel>)
    requires
        wf_fields(u),
        lens_unknown_ok(u),
    ensures
        spec_lens_decode(fields_bytes(u)) == Ok::<LensModel, DecodeError>(
            LensModel { identifier: Seq::empty(), unknown: u },
        ),
        lens_bytes(LensModel { identifier: Seq::empty(), unknown: u }) == fields_bytes(u),
{
    let m = LensModel { identifier: Seq::empty(), unknown: u };
    lemma_lens_default_omission(m);
    lemma_lens_round_trip(m);
}

/// Decoding a valid encoding and re-encoding the result reproduces the
/// input byte for byte.
pub proof fn lemma_lens_decode_then_encode(bytes: Seq<u8>, m0: LensModel)
    requires
        wf_lens(m0),
        bytes == lens_bytes(m0),
    ensures
        spec_lens_decode(bytes) is Ok,
        lens_bytes(spec_lens_decode(bytes)->Ok_0) == bytes,
{
    lemma_lens_round_trip(m0);
}

/// The fields of a record in encoding order: the identifier field when
/// present, then the unknown fields.
pub open spec fn lens_fields(m: LensModel) -> Seq<UnknownFieldModel> {
    if encode_utf8(m.identifier).len() == 0 {
        m.unknown
    } else {
        seq![
            UnknownFieldModel {
                field_number: 1,
                value: UnknownValueModel::LengthDelimited(encode_utf8(m.identifier)),
            },
        ] + m.unknown
    }
}

/// The encoding of a record is the encoding of its field run.
pub proof fn lemma_lens_fields_bytes(m: LensModel)
    ensures
        lens_bytes(m) == fields_bytes(lens_fields(m)),
{
    lemma_encode_utf8_empty(m.identifier);
    if encode_utf8(m.identifier).len() == 0 {
        assert(lens_bytes(m) =~= fields_bytes(m.unknown));
    } else {
        let b = encode_utf8(m.identifier);
        let f0 = UnknownFieldModel { field_number: 1, value: UnknownValueModel::LengthDelimited(b) };
        let fs = lens_fields(m);
        assert(fs[0] == f0);
        assert(fs.drop_first() =~= m.unknown);
        assert(fields_bytes(fs) == field_bytes(f0) + fields_bytes(m.unknown));
        assert(lens_bytes(m) =~= fields_bytes(fs));
    }
}

/// Every field of the run can be stepped through by the decoder.
pub open spec fn lens_steppable(fs: Seq<UnknownFieldModel>) -> bool {
    forall|i: int|
        0 <= i < fs.len() ==> ((#[trigger] fs[i]).field_number == 1
            && fs[i].value is LengthDelimited ==> valid_utf8(fs[i].value->LengthDelimited_0))
}

/// Decoding a stream that ends strictly inside a field of an otherwise
/// valid run fails with `Truncated`.
proof fn lemma_lens_truncated_from(
    s: Seq<u8>,
    pos: int,
    acc: LensModel,
    fs: Seq<UnknownFieldModel>,
    k: int,
)
    requires
        0 <= pos,
        wf_fields(fs),
        lens_steppable(fs),
        0 <= k < fields_bytes(fs).len(),
        !is_field_boundary(fs, k),
        s.len() == pos + k,
        s.subrange(pos, s.len() as int) == fields_bytes(fs).take(k),
    ensures
        spec_lens_decode_from(s, pos, acc) == Err::<LensModel, DecodeError>(
            DecodeError::Truncated,
        ),
    decreases fs.len(),
{
    assert(fs.len() > 0);
    let f = fs[0];
    assert(wf_field(f));
    let c0 = field_bytes(f);
    lemma_fields_bytes_first(fs);
    lemma_varint_shape(spec_tag(f.field_number, crate::unknown::value_wire_code(f.value)));
    if k < c0.len() {
        assert(k != 0);
        lemma_concat_take_short(c0, fields_bytes(fs.drop_first()), k);
        lemma_parse_field_truncated(s, pos, f, k);
    } else {
        lemma_concat_take(c0, fields_bytes(fs.drop_first()), k);
        let kr = k - c0.len() as int;
        lemma_window_split(s, pos, c0, fields_bytes(fs.drop_first()).take(kr));
        lemma_parse_field_of_encoding(s, pos, f);
        let acc2 = match lens_step(acc, f) {
            Ok(a) => a,
            Err(_) => arbitrary(),
        };
        assert(lens_step(acc, f) is Ok);
        assert(wf_fields(fs.drop_first()) && lens_steppable(fs.drop_first())) by {
            assert forall|i: int| 0 <= i < fs.drop_first().len() implies wf_field(
                #[trigger] fs.drop_first()[i],
            ) && (fs.drop_first()[i].field_number == 1
                && fs.drop_first()[i].value is LengthDelimited ==> valid_utf8(
                fs.drop_first()[i].value->LengthDelimited_0,
            )) by {
                assert(fs.drop_first()[i] == fs[i + 1]);
            }
        }
        lemma_lens_truncated_from(s, pos + c0.len(), acc2, fs.drop_first(), kr);
    }
}

/// Truncation detection: cutting the encoding of a representable record
/// anywhere strictly inside a field makes decode fail with `Truncated`.
pub proof fn lemma_lens_truncation_detected(m: LensModel, k: int)
    requires
        wf_lens(m),
        0 <= k <= lens_bytes(m).len(),
        !is_field_boundary(lens_fields(m), k),
    ensures
        spec_lens_decode(lens_bytes(m).take(k)) == Err::<LensModel, DecodeError>(
            DecodeError::Truncated,
        ),
{
    let fs = lens_fields(m);
    lemma_lens_fields_bytes(m);
    lemma_boundary_at_end(fs);
    assert(k < fields_bytes(fs).len());
    assert(lens_steppable(fs)) by {
        vstd::utf8::encode_utf8_valid_utf8(m.identifier);
        if encode_utf8(m.identifier).len() != 0 {
            assert forall|i: int| 0 <= i < fs.len() implies ((#[trigger] fs[i]).field_number == 1
                && fs[i].value is LengthDelimited ==> valid_utf8(
                fs[i].value->LengthDelimited_0,
            )) by {
                if i > 0 {
                    assert(fs[i] == m.unknown[i - 1]);
                }
            }
        }
    }
    assert(wf_fields(fs)) by {
        if encode_utf8(m.identifier).len() != 0 {
            assert forall|i: int| 0 <= i < fs.len() implies wf_field(#[trigger] fs[i]) by {
                if i > 0 {
                    assert(fs[i] == m.unknown[i - 1]);
                }
            }
        }
    }
    let t = lens_bytes(m).take(k);
    assert(t.subrange(0, t.len() as int) =~= fields_bytes(fs).take(k));
    lemma_lens_truncated_from(t, 0, lens_default(), fs, k);
}

} // verus!
