//! The `LensState` record: an identifier and an opaque revision token plus
//! an unknown-field store, with its encode / decode / size triplet and the
//! laws that relate them.

use vstd::prelude::*;
use vstd::utf8::{decode_utf8, encode_utf8, valid_utf8};

use crate::text::string_from_utf8;
use crate::unknown::{
    field_bytes, fields_bytes, is_field_boundary, lemma_boundary_at_end,
    lemma_fields_bytes_decompose, lemma_fields_bytes_first, lemma_parse_field_of_encoding,
    lemma_parse_field_range, lemma_parse_field_truncated, lemma_parse_field_wf, len_field_chunk,
    parse_field, spec_parse_field, value_wire_code, wf_field, wf_fields, UnknownField,
    UnknownFieldModel, UnknownFieldSet, UnknownValue, UnknownValueModel,
};
use crate::wire::{
    lemma_concat_take, lemma_concat_take_short, lemma_varint_shape, lemma_window_split, spec_tag,
    varint, varint_size, write_varint, DecodeError,
};

verus! {

broadcast use {vstd::seq::group_seq_axioms, vstd::seq_lib::group_seq_lib_default};

/// The mathematical shape of a `LensState`.
#[verifier::ext_equal]
pub struct LensStateModel {
    pub identifier: Seq<char>,
    pub revision: Seq<u8>,
    pub unknown: Seq<UnknownFieldModel>,
}

/// An identifier-plus-revision record. Both fields are independently
/// optional by emptiness; the revision is an uninterpreted version token
/// whose bytes the codec never inspects.
#[derive(Clone, Debug, PartialEq, Eq)]
pub struct LensState {
    pub identifier: String,
    pub revision: Vec<u8>,
    pub unknown_fields: UnknownFieldSet,
}

impl View for LensState {
    type V = LensStateModel;

    open spec fn view(&self) -> LensStateModel {
        LensStateModel {
            identifier: self.identifier@,
            revision: self.revision@,
            unknown: self.unknown_fields@,
        }
    }
}

/// The record every field of which holds its default value.
pub open spec fn lens_state_default() -> LensStateModel {
    LensStateModel { identifier: Seq::empty(), revision: Seq::empty(), unknown: Seq::empty() }
}

/// The encoding of a `LensState`: the identifier field if non-empty, the
/// revision field if non-empty, then the unknown fields in order.
pub open spec fn lens_state_bytes(m: LensStateModel) -> Seq<u8> {
    len_field_chunk(1, encode_utf8(m.identifier)) + len_field_chunk(2, m.revision)
        + fields_bytes(m.unknown)
}

/// No stored unknown field collides with the tags of `identifier` or
/// `revision`.
pub open spec fn lens_state_unknown_ok(u: Seq<UnknownFieldModel>) -> bool {
    forall|i: int|
        0 <= i < u.len() ==> !(((#[trigger] u[i]).field_number == 1 || u[i].field_number == 2)
            && u[i].value is LengthDelimited)
}

/// A representable `LensState` value.
pub open spec fn wf_lens_state(m: LensStateModel) -> bool {
    &&& encode_utf8(m.identifier).len() <= usize::MAX
    &&& m.revision.len() <= usize::MAX
    &&& wf_fields(m.unknown)
    &&& lens_state_unknown_ok(m.unknown)
}

/// One decode step: field 1 with wire type 2 is the identifier (validated
/// as UTF-8), field 2 with wire type 2 is the revision (kept as opaque
/// bytes); every other field is kept as an unknown field.
pub open spec fn lens_state_step(acc: LensStateModel, f: UnknownFieldModel) -> Result<
    LensStateModel,
    DecodeError,
> {
    if f.field_number == 1 && f.value is LengthDelimited {
        let b = f.value->LengthDelimited_0;
        if valid_utf8(b) {
            Ok(
                LensStateModel {
                    identifier: decode_utf8(b),
                    revision: acc.revision,
                    unknown: acc.unknown,
                },
            )
        } else {
            Err(DecodeError::InvalidUtf8)
        }
    } else if f.field_number == 2 && f.value is LengthDelimited {
        Ok(
            LensStateModel {
                identifier: acc.identifier,
                revision: f.value->LengthDelimited_0,
                unknown: acc.unknown,
            },
        )
    } else {
        Ok(
            LensStateModel {
                identifier: acc.identifier,
                revision: acc.revision,
                unknown: acc.unknown.push(f),
            },
        )
    }
}

/// The decode loop from `pos` with the record accumulated so far.
pub open spec fn spec_lens_state_decode_from(s: Seq<u8>, pos: int, acc: LensStateModel) -> Result<
    LensStateModel,
    DecodeError,
>
    decreases s.len() - pos
        when 0 <= pos <= s.len()
        via spec_lens_state_decode_from_dec
{
    if pos == s.len() {
        Ok(acc)
    } else {
        match spec_parse_field(s, pos) {
            Err(e) => Err(e),
            Ok((f, end)) => match lens_state_step(acc, f) {
                Err(e) => Err(e),
                Ok(acc2) => spec_lens_state_decode_from(s, end, acc2),
            },
        }
    }
}

#[via_fn]
proof fn spec_lens_state_decode_from_dec(s: Seq<u8>, pos: int, acc: LensStateModel) {
    lemma_parse_field_range(s, pos);
}

/// Decoding a whole byte stream into a `LensState`.
pub open spec fn spec_lens_state_decode(s: Seq<u8>) -> Result<LensStateModel, DecodeError> {
    spec_lens_state_decode_from(s, 0, lens_state_default())
}

impl LensState {
    /// A record with every field at its default value.
    pub fn new() -> (r: LensState)
        ensures
            r@ == lens_state_default(),
    {
        let r = LensState {
            identifier: String::new(),
            revision: Vec::new(),
            unknown_fields: UnknownFieldSet::new(),
        };
        proof {
            assert(r@ =~= lens_state_default());
        }
        r
    }

    /// The exact number of bytes `encode` will produce.
    pub fn size(&self) -> (r: usize)
        requires
            lens_state_bytes(self@).len() <= usize::MAX,
        ensures
            r == lens_state_bytes(self@).len(),
    {
        proof {
            crate::lens::lemma_encode_utf8_empty(self@.identifier);
        }
        let mut total: usize = 0;
        if !self.identifier.as_str().is_empty() {
            let b = self.identifier.as_str().as_bytes();
            proof {
                assert(spec_tag(1, 2) == 10);
                assert(field_bytes(
                    UnknownFieldModel {
                        field_number: 1,
                        value: UnknownValueModel::LengthDelimited(b@),
                    },
                ) == varint(10) + (varint(b@.len() as u64) + b@));
            }
            let ts = varint_size(10);
            let ls = varint_size(b.len() as u64);
            total = ts + ls + b.len();
        }
        if self.revision.len() > 0 {
            proof {
                assert(spec_tag(2, 2) == 18);
                assert(field_bytes(
                    UnknownFieldModel {
                        field_number: 2,
                        value: UnknownValueModel::LengthDelimited(self.revision@),
                    },
                ) == varint(18) + (varint(self.revision@.len() as u64) + self.revision@));
            }
            let ts = varint_size(18);
            let ls = varint_size(self.revision.len() as u64);
            total = total + ts + ls + self.revision.len();
        }
        let us = self.unknown_fields.total_size();
        total + us
    }

    /// Appends the encoding of `self` to `out`.
    pub fn write_to(&self, out: &mut Vec<u8>)
        ensures
            final(out)@ == old(out)@ + lens_state_bytes(self@),
    {
        proof {
            crate::lens::lemma_encode_utf8_empty(self@.identifier);
        }
        if !self.identifier.as_str().is_empty() {
            let b = self.identifier.as_str().as_bytes();
            proof {
                assert(spec_tag(1, 2) == 10);
            }
            write_varint(out, 10);
            write_varint(out, b.len() as u64);
            out.extend_from_slice(b);
            proof {
                assert(out@ =~= old(out)@ + len_field_chunk(1, encode_utf8(self@.identifier)));
            }
        }
        let ghost mid = out@;
        if self.revision.len() > 0 {
            proof {
                assert(spec_tag(2, 2) == 18);
            }
            write_varint(out, 18);
            write_varint(out, self.revision.len() as u64);
            out.extend_from_slice(self.revision.as_slice());
            proof {
                assert(out@ =~= mid + len_field_chunk(2, self@.revision));
            }
        }
        self.unknown_fields.write_all(out);
        proof {
            assert(final(out)@ =~= old(out)@ + lens_state_bytes(self@));
        }
    }

    /// Encodes `self` into a fresh buffer of exactly the right size.
    pub fn encode(&self) -> (r: Vec<u8>)
        requires
            lens_state_bytes(self@).len() <= usize::MAX,
        ensures
            r@ == lens_state_bytes(self@),
    {
        let n = self.size();
        let mut out: Vec<u8> = Vec::with_capacity(n);
        self.write_to(&mut out);
        proof {
            assert(out@ =~= lens_state_bytes(self@));
        }
        out
    }

    /// Decodes a byte stream into a `LensState`. Either the whole stream
    /// is a valid encoding and the full record is returned, or nothing is.
    pub fn decode(buf: &[u8]) -> (r: Result<LensState, DecodeError>)
        ensures
            r matches Ok(m) ==> spec_lens_state_decode(buf@) == Ok::<LensStateModel, DecodeError>(
                m@,
            ) && wf_lens_state(m@),
            r matches Err(e) ==> spec_lens_state_decode(buf@) == Err::<
                LensStateModel,
                DecodeError,
            >(e),
    {
        let n = buf.len();
        let mut m = LensState::new();
        let mut pos: usize = 0;
        while pos < n
            invariant
                pos <= n,
                n == buf@.len(),
                spec_lens_state_decode(buf@) == spec_lens_state_decode_from(buf@, pos as int, m@),
                wf_lens_state(m@),
            decreases n - pos,
        {
            let ghost acc = m@;
            match parse_field(buf, pos) {
                Err(e) => {
                    return Err(e);
                },
                Ok((f, end)) => {
                    proof {
                        lemma_parse_field_wf(buf@, pos as int);
                    }
                    let ghost fm = f@;
                    let UnknownField { field_number, value } = f;
                    if field_number == 1 {
                        match value {
                            UnknownValue::LengthDelimited(b) => {
                                let ghost bb = b@;
                                match string_from_utf8(b) {
                                    Some(s) => {
                                        m.identifier = s;
                                        proof {
                                            vstd::utf8::decode_utf8_encode_utf8(bb);
                                            assert(m@ =~= LensStateModel {
                                                identifier: decode_utf8(bb),
                                                revision: acc.revision,
                                                unknown: acc.unknown,
                                            });
                                            assert(lens_state_step(acc, fm) == Ok::<
                                                LensStateModel,
                                                DecodeError,
                                            >(m@));
                                            assert(spec_lens_state_decode_from(
                                                buf@,
                                                pos as int,
                                                acc,
                                            ) == spec_lens_state_decode_from(
                                                buf@,
                                                end as int,
                                                m@,
                                            ));
                                        }
                                    },
                                    None => {
                                        proof {
                                            assert(lens_state_step(acc, fm) == Err::<
                                                LensStateModel,
                                                DecodeError,
                                            >(DecodeError::InvalidUtf8));
                                            assert(spec_lens_state_decode_from(
                                                buf@,
                                                pos as int,
                                                acc,
                                            ) == Err::<LensStateModel, DecodeError>(
                                                DecodeError::InvalidUtf8,
                                            ));
                                        }
                                        return Err(DecodeError::InvalidUtf8);
                                    },
                                }
                            },
                            other => {
                                push_unknown(&mut m, UnknownField { field_number, value: other });
                                proof {
                                    assert(lens_state_step(acc, fm) == Ok::<
                                        LensStateModel,
                                        DecodeError,
                                    >(m@));
                                    assert(spec_lens_state_decode_from(buf@, pos as int, acc)
                                        == spec_lens_state_decode_from(buf@, end as int, m@));
                                }
                            },
                        }
                    } else if field_number == 2 {
                        match value {
                            UnknownValue::LengthDelimited(b) => {
                                m.revision = b;
                                proof {
                                    assert(m@ =~= LensStateModel {
                                        identifier: acc.identifier,
                                        revision: fm.value->LengthDelimited_0,
                                        unknown: acc.unknown,
                                    });
                                    assert(lens_state_step(acc, fm) == Ok::<
                                        LensStateModel,
                                        DecodeError,
                                    >(m@));
                                    assert(spec_lens_state_decode_from(buf@, pos as int, acc)
                                        == spec_lens_state_decode_from(buf@, end as int, m@));
                                }
                            },
                            other => {
                                push_unknown(&mut m, UnknownField { field_number, value: other });
                                proof {
                                    assert(lens_state_step(acc, fm) == Ok::<
                                        LensStateModel,
                                        DecodeError,
                                    >(m@));
                                    assert(spec_lens_state_decode_from(buf@, pos as int, acc)
                                        == spec_lens_state_decode_from(buf@, end as int, m@));
                                }
                            },
                        }
                    } else {
                        push_unknown(&mut m, UnknownField { field_number, value });
                        proof {
                            assert(lens_state_step(acc, fm) == Ok::<LensStateModel, DecodeError>(
                                m@,
                            ));
                            assert(spec_lens_state_decode_from(buf@, pos as int, acc)
                                == spec_lens_state_decode_from(buf@, end as int, m@));
                        }
                    }
                    pos = end;
                },
            }
        }
        Ok(m)
    }
}

impl Default for LensState {
    fn default() -> (r: LensState)
        ensures
            r@ == lens_state_default(),
    {
        LensState::new()
    }
}

/// Appends one decoded field to the record's unknown-field store.
fn push_unknown(m: &mut LensState, f: UnknownField)
    ensures
        final(m)@ == (LensStateModel {
            identifier: old(m)@.identifier,
            revision: old(m)@.revision,
            unknown: old(m)@.unknown.push(f@),
        }),
{
    m.unknown_fields.entries.push(f);
    proof {
        assert(m@.unknown =~= old(m)@.unknown.push(f@));
        assert(m@ =~= LensStateModel {
            identifier: old(m)@.identifier,
            revision: old(m)@.revision,
            unknown: old(m)@.unknown.push(f@),
        });
    }
}

// ---------------------------------------------------------------------------
// Laws
// ---------------------------------------------------------------------------

/// Decoding a stream whose remainder is exactly a run of storable,
/// non-colliding unknown fields appends that run and succeeds.
proof fn lemma_state_decode_unknown_suffix(
    s: Seq<u8>,
    pos: int,
    acc: LensStateModel,
    rest: Seq<UnknownFieldModel>,
)
    requires
        0 <= pos,
        wf_fields(rest),
        lens_state_unknown_ok(rest),
        s.len() == pos + fields_bytes(rest).len(),
        s.subrange(pos, s.len() as int) == fields_bytes(rest),
    ensures
        spec_lens_state_decode_from(s, pos, acc) == Ok::<LensStateModel, DecodeError>(
            LensStateModel {
                identifier: acc.identifier,
                revision: acc.revision,
                unknown: acc.unknown + rest,
            },
        ),
    decreases rest.len(),
{
    if rest.len() == 0 {
        assert(pos == s.len());
        assert(LensStateModel {
            identifier: acc.identifier,
            revision: acc.revision,
            unknown: acc.unknown + rest,
        } =~= acc);
    } else {
        let f = rest[0];
        assert(wf_field(f));
        lemma_fields_bytes_first(rest);
        lemma_varint_shape(spec_tag(f.field_number, value_wire_code(f.value)));
        lemma_window_split(s, pos, field_bytes(f), fields_bytes(rest.drop_first()));
        lemma_parse_field_of_encoding(s, pos, f);
        let acc2 = LensStateModel {
            identifier: acc.identifier,
            revision: acc.revision,
            unknown: acc.unknown.push(f),
        };
        assert(lens_state_step(acc, f) == Ok::<LensStateModel, DecodeError>(acc2));
        assert(wf_fields(rest.drop_first()) && lens_state_unknown_ok(rest.drop_first())) by {
            assert forall|i: int| 0 <= i < rest.drop_first().len() implies wf_field(
                #[trigger] rest.drop_first()[i],
            ) && !((rest.drop_first()[i].field_number == 1 || rest.drop_first()[i].field_number
                == 2) && rest.drop_first()[i].value is LengthDelimited) by {
                assert(rest.drop_first()[i] == rest[i + 1]);
            }
        }
        lemma_state_decode_unknown_suffix(
            s,
            pos + field_bytes(f).len(),
            acc2,
            rest.drop_first(),
        );
        assert(acc2.unknown + rest.drop_first() =~= acc.unknown + rest);
    }
}

/// Round trip: decoding the encoding of any representable record yields
/// that record back.
#[verifier::rlimit(100)]
pub proof fn lemma_lens_state_round_trip(m: LensStateModel)
    requires
        wf_lens_state(m),
    ensures
        spec_lens_state_decode(lens_state_bytes(m)) == Ok::<LensStateModel, DecodeError>(m),
{
    let s = lens_state_bytes(m);
    let c1 = len_field_chunk(1, encode_utf8(m.identifier));
    let c2 = len_field_chunk(2, m.revision);
    let u = fields_bytes(m.unknown);
    crate::lens::lemma_encode_utf8_empty(m.identifier);
    assert(s.subrange(0, s.len() as int) =~= s);
    assert(s =~= c1 + (c2 + u));
    let pos1: int = c1.len() as int;
    let acc1 = LensStateModel {
        identifier: m.identifier,
        revision: Seq::empty(),
        unknown: Seq::empty(),
    };
    if m.identifier.len() == 0 {
        assert(acc1 =~= lens_state_default());
        assert(s.subrange(0, s.len() as int) == c2 + u);
    } else {
        let b = encode_utf8(m.identifier);
        let f1 = UnknownFieldModel { field_number: 1, value: UnknownValueModel::LengthDelimited(b) };
        assert(c1 == field_bytes(f1));
        lemma_window_split(s, 0, c1, c2 + u);
        lemma_parse_field_of_encoding(s, 0, f1);
        vstd::utf8::encode_utf8_valid_utf8(m.identifier);
        vstd::utf8::encode_utf8_decode_utf8(m.identifier);
        assert(lens_state_step(lens_state_default(), f1) == Ok::<LensStateModel, DecodeError>(
            acc1,
        ));
        assert(0 < s.len());
    }
    assert(spec_lens_state_decode(s) == spec_lens_state_decode_from(s, pos1, acc1));
    let pos2: int = pos1 + c2.len() as int;
    let acc2 = LensStateModel {
        identifier: m.identifier,
        revision: m.revision,
        unknown: Seq::empty(),
    };
    if m.revision.len() == 0 {
        assert(acc2 =~= acc1);
        assert(pos2 == pos1);
    } else {
        let f2 = UnknownFieldModel {
            field_number: 2,
            value: UnknownValueModel::LengthDelimited(m.revision),
        };
        assert(c2 == field_bytes(f2));
        lemma_window_split(s, pos1, c2, u);
        lemma_parse_field_of_encoding(s, pos1, f2);
        assert(lens_state_step(acc1, f2) == Ok::<LensStateModel, DecodeError>(acc2));
        assert(pos1 < s.len());
    }
    assert(spec_lens_state_decode_from(s, pos1, acc1) == spec_lens_state_decode_from(
        s,
        pos2,
        acc2,
    ));
    assert(s.subrange(pos2, s.len() as int) == u) by {
        lemma_window_split(s, pos1, c2, u);
    }
    lemma_state_decode_unknown_suffix(s, pos2, acc2, m.unknown);
    assert(acc2.unknown + m.unknown =~= m.unknown);
    assert(LensStateModel {
        identifier: acc2.identifier,
        revision: acc2.revision,
        unknown: acc2.unknown + m.unknown,
    } =~= m);
}

/// Default omission: a record whose fields are all at their defaults
/// encodes to exactly its recorded unknown fields.
pub proof fn lemma_lens_state_default_omission(m: LensStateModel)
    requires
        m.identifier.len() == 0,
        m.revision.len() == 0,
    ensures
        lens_state_bytes(m) == fields_bytes(m.unknown),
        lens_state_bytes(m).len() == fields_bytes(m.unknown).len(),
{
    crate::lens::lemma_encode_utf8_empty(m.identifier);
    assert(lens_state_bytes(m) =~= fields_bytes(m.unknown));
}

/// Unknown-field passthrough: bytes holding only unrecognized fields
/// decode into a record that re-encodes to exactly those bytes.
pub proof fn lemma_lens_state_unknown_passthrough(u: Seq<UnknownFieldModel>)
    requires
        wf_fields(u),
        lens_state_unknown_ok(u),
    ensures
        spec_lens_state_decode(fields_bytes(u)) == Ok::<LensStateModel, DecodeError>(
            LensStateModel { identifier: Seq::empty(), revision: Seq::empty(), unknown: u },
        ),
        lens_state_bytes(
            LensStateModel { identifier: Seq::empty(), revision: Seq::empty(), unknown: u },
        ) == fields_bytes(u),
{
    let m = LensStateModel { identifier: Seq::empty(), revision: Seq::empty(), unknown: u };
    lemma_lens_state_default_omission(m);
    lemma_lens_state_round_trip(m);
}

/// Decoding a valid encoding and re-encoding the result reproduces the
/// input byte for byte.
pub proof fn lemma_lens_state_decode_then_encode(bytes: Seq<u8>, m0: LensStateModel)
    requires
        wf_lens_state(m0),
        bytes == lens_state_bytes(m0),
    ensures
        spec_lens_state_decode(bytes) is Ok,
        lens_state_bytes(spec_lens_state_decode(bytes)->Ok_0) == bytes,
{
    lemma_lens_state_round_trip(m0);
}

/// The fields of a record in encoding order.
pub open spec fn lens_state_fields(m: LensStateModel) -> Seq<UnknownFieldModel> {
    let head = if encode_utf8(m.identifier).len() == 0 {
        Seq::empty()
    } else {
        seq![
            UnknownFieldModel {
                field_number: 1,
                value: UnknownValueModel::LengthDelimited(encode_utf8(m.identifier)),
            },
        ]
    };
    let mid = if m.revision.len() == 0 {
        Seq::empty()
    } else {
        seq![
            UnknownFieldModel {
                field_number: 2,
                value: UnknownValueModel::LengthDelimited(m.revision),
            },
        ]
    };
    head + mid + m.unknown
}

/// The encoding of a record is the encoding of its field run.
pub proof fn lemma_lens_state_fields_bytes(m: LensStateModel)
    ensures
        lens_state_bytes(m) == fields_bytes(lens_state_fields(m)),
{
    crate::lens::lemma_encode_utf8_empty(m.identifier);
    let fs = lens_state_fields(m);
    let head_len: int = if encode_utf8(m.identifier).len() == 0 {
        0
    } else {
        1
    };
    let mid_len: int = if m.revision.len() == 0 {
        0
    } else {
        1
    };
    lemma_fields_bytes_decompose(fs, head_len);
    lemma_fields_bytes_decompose(fs.skip(head_len), mid_len);
    let head = fs.take(head_len);
    let midu = fs.skip(head_len);
    let mid = midu.take(mid_len);
    let tail = midu.skip(mid_len);
    assert(tail =~= m.unknown);
    if head_len == 1 {
        assert(head[0] == fs[0]);
        assert(head.drop_first().len() == 0);
        assert(fields_bytes(head) == field_bytes(fs[0]) + fields_bytes(head.drop_first()));
        assert(fields_bytes(head) =~= len_field_chunk(1, encode_utf8(m.identifier)));
    } else {
        assert(fields_bytes(head) =~= len_field_chunk(1, encode_utf8(m.identifier)));
    }
    if mid_len == 1 {
        assert(mid[0] == fs[head_len]);
        assert(fs[head_len] == (UnknownFieldModel {
            field_number: 2,
            value: UnknownValueModel::LengthDelimited(m.revision),
        }));
        assert(mid.drop_first().len() == 0);
        assert(fields_bytes(mid) == field_bytes(mid[0]) + fields_bytes(mid.drop_first()));
        assert(fields_bytes(mid) =~= len_field_chunk(2, m.revision));
    } else {
        assert(fields_bytes(mid) =~= len_field_chunk(2, m.revision));
    }
    assert(lens_state_bytes(m) =~= fields_bytes(fs));
}

/// Every field of the run can be stepped through by the decoder.
pub open spec fn lens_state_steppable(fs: Seq<UnknownFieldModel>) -> bool {
    forall|i: int|
        0 <= i < fs.len() ==> ((#[trigger] fs[i]).field_number == 1
            && fs[i].value is LengthDelimited ==> valid_utf8(fs[i].value->LengthDelimited_0))
}

/// Decoding a stream that ends strictly inside a field of an otherwise
/// valid run fails with `Truncated`.
proof fn lemma_state_truncated_from(
    s: Seq<u8>,
    pos: int,
    acc: LensStateModel,
    fs: Seq<UnknownFieldModel>,
    k: int,
)
    requires
        0 <= pos,
        wf_fields(fs),
        lens_state_steppable(fs),
        0 <= k < fields_bytes(fs).len(),
        !is_field_boundary(fs, k),
        s.len() == pos + k,
        s.subrange(pos, s.len() as int) == fields_bytes(fs).take(k),
    ensures
        spec_lens_state_decode_from(s, pos, acc) == Err::<LensStateModel, DecodeError>(
            DecodeError::Truncated,
        ),
    decreases fs.len(),
{
    assert(fs.len() > 0);
    let f = fs[0];
    assert(wf_field(f));
    let c0 = field_bytes(f);
    lemma_fields_bytes_first(fs);
    lemma_varint_shape(spec_tag(f.field_number, value_wire_code(f.value)));
    if k < c0.len() {
        assert(k != 0);
        lemma_concat_take_short(c0, fields_bytes(fs.drop_first()), k);
        lemma_parse_field_truncated(s, pos, f, k);
    } else {
        lemma_concat_take(c0, fields_bytes(fs.drop_first()), k);
        let kr = k - c0.len() as int;
        lemma_window_split(s, pos, c0, fields_bytes(fs.drop_first()).take(kr));
        lemma_parse_field_of_encoding(s, pos, f);
        let acc2 = match lens_state_step(acc, f) {
            Ok(a) => a,
            Err(_) => arbitrary(),
        };
        assert(lens_state_step(acc, f) is Ok);
        assert(wf_fields(fs.drop_first()) && lens_state_steppable(fs.drop_first())) by {
            assert forall|i: int| 0 <= i < fs.drop_first().len() implies wf_field(
                #[trigger] fs.drop_first()[i],
            ) && (fs.drop_first()[i].field_number == 1
                && fs.drop_first()[i].value is LengthDelimited ==> valid_utf8(
                fs.drop_first()[i].value->LengthDelimited_0,
            )) by {
                assert(fs.drop_first()[i] == fs[i + 1]);
            }
        }
        lemma_state_truncated_from(s, pos + c0.len(), acc2, fs.drop_first(), kr);
    }
}

/// Truncation detection: cutting the encoding of a representable record
/// anywhere strictly inside a field makes decode fail with `Truncated`.
pub proof fn lemma_lens_state_truncation_detected(m: LensStateModel, k: int)
    requires
        wf_lens_state(m),
        0 <= k <= lens_state_bytes(m).len(),
        !is_field_boundary(lens_state_fields(m), k),
    ensures
        spec_lens_state_decode(lens_state_bytes(m).take(k)) == Err::<
            LensStateModel,
            DecodeError,
        >(DecodeError::Truncated),
{
    let fs = lens_state_fields(m);
    lemma_lens_state_fields_bytes(m);
    lemma_boundary_at_end(fs);
    assert(k < fields_bytes(fs).len());
    assert(wf_fields(fs) && lens_state_steppable(fs)) by {
        vstd::utf8::encode_utf8_valid_utf8(m.identifier);
        let head_len: int = if encode_utf8(m.identifier).len() == 0 {
            0
        } else {
            1
        };
        let mid_len: int = if m.revision.len() == 0 {
            0
        } else {
            1
        };
        assert forall|i: int| 0 <= i < fs.len() implies wf_field(#[trigger] fs[i]) && (
        fs[i].field_number == 1 && fs[i].value is LengthDelimited ==> valid_utf8(
            fs[i].value->LengthDelimited_0,
        )) by {
            if i >= head_len + mid_len {
                assert(fs[i] == m.unknown[i - head_len - mid_len]);
            }
        }
    }
    let t = lens_state_bytes(m).take(k);
    assert(t.subrange(0, t.len() as int) =~= fields_bytes(fs).take(k));
    lemma_state_truncated_from(t, 0, lens_state_default(), fs, k);
}

} // verus!
