use lens_model::lens::Lens;
use lens_model::lens_state::LensState;
use lens_model::unknown::{UnknownField, UnknownValue};
use lens_model::wire::{pack_tag, read_varint, DecodeError, WireType};

fn lens_with_identifier(id: &str) -> Lens {
    let mut m = Lens::new();
    m.identifier = id.to_string();
    m
}

fn state_with(id: &str, revision: &[u8]) -> LensState {
    let mut m = LensState::new();
    m.identifier = id.to_string();
    m.revision = revision.to_vec();
    m
}

#[test]
fn encode_lens_concrete_scenario() {
    let m = lens_with_identifier("abc");
    assert_eq!(m.encode(), vec![0x0A, 0x03, 0x61, 0x62, 0x63]);
}

#[test]
fn encode_lens_state_concrete_scenario() {
    let m = state_with("", &[0x01, 0x02]);
    assert_eq!(m.encode(), vec![0x12, 0x02, 0x01, 0x02]);
}

#[test]
fn encode_lens_state_both_fields() {
    let m = state_with("ab", &[0x07]);
    assert_eq!(m.encode(), vec![0x0A, 0x02, 0x61, 0x62, 0x12, 0x01, 0x07]);
}

#[test]
fn round_trip_lens() {
    let m = lens_with_identifier("hello world");
    let bytes = m.encode();
    let back = Lens::decode(&bytes).unwrap();
    assert_eq!(back.identifier, "hello world");
    assert!(back.unknown_fields.entries.is_empty());
}

#[test]
fn round_trip_lens_non_ascii() {
    let m = lens_with_identifier("caf\u{e9} \u{1F600}");
    let bytes = m.encode();
    let back = Lens::decode(&bytes).unwrap();
    assert_eq!(back.identifier, "caf\u{e9} \u{1F600}");
}

#[test]
fn round_trip_lens_state() {
    let m = state_with("spotify:lens:1", &[0xDE, 0xAD, 0xBE, 0xEF]);
    let bytes = m.encode();
    let back = LensState::decode(&bytes).unwrap();
    assert_eq!(back.identifier, "spotify:lens:1");
    assert_eq!(back.revision, vec![0xDE, 0xAD, 0xBE, 0xEF]);
}

#[test]
fn round_trip_empty_records() {
    let bytes = Lens::new().encode();
    assert_eq!(bytes, Vec::<u8>::new());
    let back = Lens::decode(&bytes).unwrap();
    assert_eq!(back.identifier, "");

    let bytes = LensState::new().encode();
    assert_eq!(bytes, Vec::<u8>::new());
    let back = LensState::decode(&bytes).unwrap();
    assert_eq!(back.identifier, "");
    assert_eq!(back.revision, Vec::<u8>::new());
}

#[test]
fn default_fields_are_omitted() {
    // An explicitly empty identifier is indistinguishable from an unset one.
    let m = state_with("", &[]);
    assert_eq!(m.size(), 0);
    assert_eq!(m.encode(), Vec::<u8>::new());
}

#[test]
fn size_matches_encoding_length() {
    let cases: Vec<LensState> = vec![
        state_with("", &[]),
        state_with("a", &[]),
        state_with("", &[1, 2, 3]),
        state_with("some fairly long identifier string", &[9; 300]),
    ];
    for m in cases {
        assert_eq!(m.size(), m.encode().len());
    }
    let long = lens_with_identifier(&"x".repeat(200));
    assert_eq!(long.size(), long.encode().len());
}

#[test]
fn size_counts_unknown_fields() {
    let mut m = Lens::new();
    m.unknown_fields.record(3, UnknownValue::Varint(300)).unwrap();
    m.unknown_fields
        .record(4, UnknownValue::LengthDelimited(vec![1, 2, 3]))
        .unwrap();
    assert_eq!(m.size(), m.encode().len());
    assert_eq!(m.size(), m.unknown_fields.total_size());
}

#[test]
fn unknown_varint_passthrough() {
    // Field 3, wire type 0 (varint), value 5.
    let bytes = vec![0x18, 0x05];
    let m = Lens::decode(&bytes).unwrap();
    assert_eq!(m.identifier, "");
    assert_eq!(m.unknown_fields.entries.len(), 1);
    assert_eq!(m.unknown_fields.entries[0].field_number, 3);
    assert_eq!(m.unknown_fields.entries[0].value, UnknownValue::Varint(5));
    assert_eq!(m.encode(), bytes);
}

#[test]
fn unknown_fields_of_every_wire_type_pass_through() {
    let mut bytes = Vec::new();
    bytes.extend_from_slice(&[0x18, 0x96, 0x01]); // field 3, varint 150
    bytes.extend_from_slice(&[0x21, 1, 2, 3, 4, 5, 6, 7, 8]); // field 4, fixed64
    bytes.extend_from_slice(&[0x2A, 0x02, 0xAA, 0xBB]); // field 5, bytes
    bytes.extend_from_slice(&[0x35, 9, 8, 7, 6]); // field 6, fixed32
    let m = LensState::decode(&bytes).unwrap();
    assert_eq!(m.unknown_fields.entries.len(), 4);
    assert_eq!(m.unknown_fields.entries[0].value, UnknownValue::Varint(150));
    assert_eq!(
        m.unknown_fields.entries[1].value,
        UnknownValue::Fixed64(0x0807060504030201)
    );
    assert_eq!(
        m.unknown_fields.entries[2].value,
        UnknownValue::LengthDelimited(vec![0xAA, 0xBB])
    );
    assert_eq!(m.unknown_fields.entries[3].value, UnknownValue::Fixed32(0x06070809));
    assert_eq!(m.encode(), bytes);
}

#[test]
fn non_canonical_unknown_varint_reencodes_canonically() {
    // The store keeps the decoded value, so a padded varint comes back out
    // in its one canonical form.
    let bytes = vec![0x18, 0x85, 0x00];
    let m = Lens::decode(&bytes).unwrap();
    assert_eq!(m.unknown_fields.entries[0].value, UnknownValue::Varint(5));
    assert_eq!(m.encode(), vec![0x18, 0x05]);
}

#[test]
fn unknown_fields_kept_alongside_known_ones() {
    // identifier "a", then an unknown varint field, then revision.
    let bytes = vec![0x0A, 0x01, 0x61, 0x18, 0x2A, 0x12, 0x01, 0x05];
    let m = LensState::decode(&bytes).unwrap();
    assert_eq!(m.identifier, "a");
    assert_eq!(m.revision, vec![0x05]);
    assert_eq!(m.unknown_fields.entries.len(), 1);
    // Re-encoding writes known fields first, unknown fields after them.
    assert_eq!(m.encode(), vec![0x0A, 0x01, 0x61, 0x12, 0x01, 0x05, 0x18, 0x2A]);
}

#[test]
fn known_field_number_with_other_wire_type_is_unknown() {
    // Field 1 with wire type 0 is not the identifier tag: it is preserved
    // as an unknown field, not interpreted.
    let bytes = vec![0x08, 0x05];
    let m = Lens::decode(&bytes).unwrap();
    assert_eq!(m.identifier, "");
    assert_eq!(m.unknown_fields.entries.len(), 1);
    assert_eq!(m.unknown_fields.entries[0].field_number, 1);
    assert_eq!(m.unknown_fields.entries[0].value, UnknownValue::Varint(5));
    assert_eq!(m.encode(), bytes);
}

#[test]
fn later_field_occurrence_wins() {
    let bytes = vec![0x0A, 0x01, 0x61, 0x0A, 0x01, 0x62];
    let m = Lens::decode(&bytes).unwrap();
    assert_eq!(m.identifier, "b");
}

#[test]
fn truncation_is_detected_everywhere_inside_a_field() {
    let m = state_with("abc", &[1, 2, 3, 4]);
    let bytes = m.encode();
    // Field boundaries of this encoding: 0, 5 (after identifier), 11 (end).
    for cut in 0..bytes.len() {
        let r = LensState::decode(&bytes[..cut]);
        if cut == 0 || cut == 5 {
            // A cut at a field boundary is a valid shorter record.
            let prefix = r.unwrap();
            assert_eq!(prefix.identifier, if cut == 0 { "" } else { "abc" });
            assert_eq!(prefix.revision, Vec::<u8>::new());
        } else {
            assert_eq!(r.unwrap_err(), DecodeError::Truncated);
        }
    }
}

#[test]
fn truncation_inside_unknown_payloads() {
    let bytes = vec![0x21, 1, 2, 3, 4, 5, 6, 7, 8]; // unknown fixed64 field
    for cut in 1..bytes.len() {
        assert_eq!(Lens::decode(&bytes[..cut]).unwrap_err(), DecodeError::Truncated);
    }
}

#[test]
fn decode_rejects_field_number_zero() {
    // Tag varint 0x02: field number 0, wire type 2.
    let r = Lens::decode(&[0x02, 0x00]);
    assert_eq!(r.unwrap_err(), DecodeError::InvalidFieldNumber);
}

#[test]
fn decode_rejects_group_wire_types() {
    // Field 1 with wire type 3 (group start) and 4 (group end).
    assert_eq!(Lens::decode(&[0x0B]).unwrap_err(), DecodeError::UnsupportedWireType);
    assert_eq!(Lens::decode(&[0x0C]).unwrap_err(), DecodeError::UnsupportedWireType);
}

#[test]
fn decode_rejects_overlong_varint() {
    // Eleven continuation groups can never fit 64 bits.
    let bytes = vec![0xFF, 0xFF, 0xFF, 0xFF, 0xFF, 0xFF, 0xFF, 0xFF, 0xFF, 0xFF, 0x01];
    assert_eq!(Lens::decode(&bytes).unwrap_err(), DecodeError::Malformed);
    // A tenth byte holding more than one data bit overflows 64 bits too.
    let bytes = vec![0xFF, 0xFF, 0xFF, 0xFF, 0xFF, 0xFF, 0xFF, 0xFF, 0xFF, 0x02];
    assert_eq!(Lens::decode(&bytes).unwrap_err(), DecodeError::Malformed);
}

#[test]
fn decode_rejects_invalid_utf8_identifier() {
    let r = Lens::decode(&[0x0A, 0x01, 0xFF]);
    assert_eq!(r.unwrap_err(), DecodeError::InvalidUtf8);
}

#[test]
fn revision_bytes_are_not_utf8_validated() {
    let m = LensState::decode(&[0x12, 0x02, 0xFF, 0xFE]).unwrap();
    assert_eq!(m.revision, vec![0xFF, 0xFE]);
}

#[test]
fn identifier_is_decoded_text_not_raw_bytes() {
    // Two UTF-8 bytes decode to the single character U+00E9.
    let m = Lens::decode(&[0x0A, 0x02, 0xC3, 0xA9]).unwrap();
    assert_eq!(m.identifier, "\u{e9}");
    assert_eq!(m.identifier.chars().count(), 1);
}

#[test]
fn read_varint_accepts_non_canonical_encodings() {
    let bytes: &[u8] = &[0x80, 0x01, 0x00];
    assert_eq!(read_varint(bytes, 0).unwrap(), (128, 2));
    assert_eq!(read_varint(bytes, 2).unwrap(), (0, 3));
    // A non-canonical zero.
    let bytes: &[u8] = &[0x80, 0x00];
    assert_eq!(read_varint(bytes, 0).unwrap(), (0, 2));
}

#[test]
fn read_varint_reports_truncation() {
    let bytes: &[u8] = &[0x80, 0x80];
    assert_eq!(read_varint(bytes, 0).unwrap_err(), DecodeError::Truncated);
    assert_eq!(read_varint(bytes, 2).unwrap_err(), DecodeError::Truncated);
}

#[test]
fn read_varint_round_trips_u64_max() {
    let bytes: &[u8] = &[0xFF, 0xFF, 0xFF, 0xFF, 0xFF, 0xFF, 0xFF, 0xFF, 0xFF, 0x01];
    assert_eq!(read_varint(bytes, 0).unwrap(), (u64::MAX, 10));
}

#[test]
fn pack_tag_matches_field_table() {
    assert_eq!(pack_tag(1, WireType::LengthDelimited).unwrap(), 10);
    assert_eq!(pack_tag(2, WireType::LengthDelimited).unwrap(), 18);
    assert_eq!(pack_tag(3, WireType::Varint).unwrap(), 24);
    assert_eq!(pack_tag(0x1FFF_FFFF, WireType::Fixed32).unwrap(), 0xFFFF_FFFD);
}

#[test]
fn pack_tag_rejects_bad_field_numbers() {
    assert_eq!(pack_tag(0, WireType::Varint).unwrap_err(), DecodeError::InvalidFieldNumber);
    assert_eq!(
        pack_tag(0x2000_0000, WireType::Varint).unwrap_err(),
        DecodeError::InvalidFieldNumber
    );
}

#[test]
fn record_rejects_bad_field_numbers() {
    let mut m = Lens::new();
    assert_eq!(
        m.unknown_fields.record(0, UnknownValue::Varint(1)).unwrap_err(),
        DecodeError::InvalidFieldNumber
    );
    assert!(m.unknown_fields.entries.is_empty());
}

#[test]
fn recorded_unknown_fields_round_trip() {
    let mut m = state_with("id", &[1]);
    m.unknown_fields
        .record(9, UnknownValue::LengthDelimited(vec![4, 5]))
        .unwrap();
    m.unknown_fields.record(10, UnknownValue::Fixed32(7)).unwrap();
    let bytes = m.encode();
    let back = LensState::decode(&bytes).unwrap();
    assert_eq!(back.identifier, "id");
    assert_eq!(back.revision, vec![1]);
    assert_eq!(
        back.unknown_fields.entries,
        vec![
            UnknownField { field_number: 9, value: UnknownValue::LengthDelimited(vec![4, 5]) },
            UnknownField { field_number: 10, value: UnknownValue::Fixed32(7) },
        ]
    );
    assert_eq!(back.encode(), bytes);
}

#[test]
fn two_byte_length_prefix() {
    let id = "y".repeat(300);
    let m = lens_with_identifier(&id);
    let bytes = m.encode();
    assert_eq!(bytes.len(), 1 + 2 + 300);
    assert_eq!(bytes[0], 0x0A);
    assert_eq!(bytes[1], 0xAC); // 300 = 0b1_0010_1100
    assert_eq!(bytes[2], 0x02);
    assert_eq!(Lens::decode(&bytes).unwrap().identifier, id);
}
