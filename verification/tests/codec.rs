use slot_codec::nbt_codec::{Enchantment, ItemNbt};
use slot_codec::slot::{ItemStack, Slot};
use slot_codec::stream::{ByteReader, ByteWriter, DecodeError};

fn encode(slot: Slot) -> Vec<u8> {
    let mut w = ByteWriter::new();
    slot.write_to_bytes(&mut w);
    w.into_bytes()
}

fn decode(bytes: Vec<u8>) -> Result<Slot, DecodeError> {
    let mut r = ByteReader::new(bytes);
    Slot::read_from_bytes(&mut r)
}

fn ench(id: u16, lvl: u16) -> Enchantment {
    Enchantment { id, lvl }
}

#[test]
fn empty_slot_encodes_to_sentinel_bytes() {
    assert_eq!(encode(Slot::empty()), vec![0xff, 0xff]);
}

#[test]
fn sentinel_bytes_decode_to_empty_slot() {
    let slot = decode(vec![0xff, 0xff]).unwrap();
    assert_eq!(slot.block_id, -1);
    assert_eq!(slot.item_count, None);
    assert_eq!(slot.item_damage, None);
    assert!(slot.nbt.is_none());
}

#[test]
fn present_is_the_sentinel_test() {
    assert!(!Slot::empty().present());
    let slot = Slot {
        block_id: 0,
        item_count: Some(1),
        item_damage: Some(0),
        nbt: None,
    };
    assert!(slot.present());
    let negative = Slot {
        block_id: -2,
        item_count: Some(1),
        item_damage: Some(0),
        nbt: None,
    };
    assert!(negative.present());
}

#[test]
fn absent_nbt_writes_exactly_one_zero_marker() {
    let slot = Slot {
        block_id: 5,
        item_count: Some(3),
        item_damage: Some(7),
        nbt: None,
    };
    assert_eq!(encode(slot), vec![0x00, 0x05, 0x03, 0x00, 0x07, 0x00]);
}

#[test]
fn zero_marker_decodes_to_absent_nbt() {
    let slot = decode(vec![0x00, 0x05, 0x03, 0x00, 0x07, 0x00]).unwrap();
    assert_eq!(slot.block_id, 5);
    assert_eq!(slot.item_count, Some(3));
    assert_eq!(slot.item_damage, Some(7));
    assert!(slot.nbt.is_none());
}

#[test]
fn present_nbt_starts_with_nonzero_byte() {
    let slot = Slot {
        block_id: 5,
        item_count: Some(3),
        item_damage: Some(7),
        nbt: Some(ItemNbt {
            ench: Some(vec![ench(16, 2)]),
        }),
    };
    let bytes = encode(slot);
    assert!(bytes.len() > 6);
    assert_ne!(bytes[5], 0);
}

#[test]
fn nbt_payload_is_the_compound_bytes() {
    // Compound tag, empty name, IntArray field "ench" with the id/level
    // entries interleaved, end tag.
    let slot = Slot {
        block_id: 5,
        item_count: Some(3),
        item_damage: Some(7),
        nbt: Some(ItemNbt {
            ench: Some(vec![ench(16, 2)]),
        }),
    };
    let expected = vec![
        0x00, 0x05, 0x03, 0x00, 0x07, // id, count, damage
        0x0a, 0x00, 0x00, // compound tag, empty name
        0x0b, 0x00, 0x04, b'e', b'n', b'c', b'h', // IntArray header
        0x00, 0x00, 0x00, 0x02, // two entries
        0x00, 0x00, 0x00, 0x10, // id 16
        0x00, 0x00, 0x00, 0x02, // level 2
        0x00, // end tag
    ];
    assert_eq!(encode(slot), expected);
}

#[test]
fn round_trip_with_enchantments_keeps_order_and_content() {
    let slot = Slot {
        block_id: 276,
        item_count: Some(1),
        item_damage: Some(0),
        nbt: Some(ItemNbt {
            ench: Some(vec![ench(16, 2), ench(21, 5), ench(34, 3)]),
        }),
    };
    let bytes = encode(slot);
    let back = decode(bytes).unwrap();
    assert_eq!(back.block_id, 276);
    assert_eq!(back.item_count, Some(1));
    assert_eq!(back.item_damage, Some(0));
    assert_eq!(
        back.nbt.unwrap().ench.unwrap(),
        vec![ench(16, 2), ench(21, 5), ench(34, 3)]
    );
}

#[test]
fn round_trip_without_nbt() {
    let slot = Slot {
        block_id: 32767,
        item_count: Some(255),
        item_damage: Some(65535),
        nbt: None,
    };
    let back = decode(encode(slot)).unwrap();
    let again = Slot {
        block_id: 32767,
        item_count: Some(255),
        item_damage: Some(65535),
        nbt: None,
    };
    assert_eq!(back, again);
}

#[test]
fn round_trip_with_nbt_but_no_ench_field() {
    let slot = Slot {
        block_id: 1,
        item_count: Some(64),
        item_damage: Some(0),
        nbt: Some(ItemNbt { ench: None }),
    };
    let back = decode(encode(slot)).unwrap();
    assert_eq!(back.block_id, 1);
    let nbt = back.nbt.expect("payload must survive");
    assert_eq!(nbt.ench, None);
}

#[test]
fn round_trip_with_empty_enchantment_list() {
    let slot = Slot {
        block_id: 1,
        item_count: Some(1),
        item_damage: Some(0),
        nbt: Some(ItemNbt {
            ench: Some(vec![]),
        }),
    };
    let back = decode(encode(slot)).unwrap();
    assert_eq!(back.nbt.unwrap().ench, Some(vec![]));
}

#[test]
fn round_trip_negative_block_id() {
    let slot = Slot {
        block_id: -2,
        item_count: Some(9),
        item_damage: Some(300),
        nbt: None,
    };
    let bytes = encode(slot);
    assert_eq!(bytes[0], 0xff);
    assert_eq!(bytes[1], 0xfe);
    let back = decode(bytes).unwrap();
    assert_eq!(back.block_id, -2);
    assert_eq!(back.item_count, Some(9));
    assert_eq!(back.item_damage, Some(300));
}

#[test]
fn conversion_example() {
    let stack = ItemStack {
        kind: 5,
        count: 3,
        damage: 7,
        nbt: None,
    };
    let slot = Slot::from(stack);
    assert_eq!(slot.block_id, 5);
    assert_eq!(slot.item_count, Some(3));
    assert_eq!(slot.item_damage, Some(7));
    assert!(slot.nbt.is_none());
    let back = decode(encode(slot)).unwrap();
    assert_eq!(back.block_id, 5);
    assert_eq!(back.item_count, Some(3));
    assert_eq!(back.item_damage, Some(7));
    assert!(back.nbt.is_none());
}

#[test]
fn conversion_keeps_only_low_sixteen_bits() {
    let stack = ItemStack {
        kind: 0x0001_0005,
        count: 1,
        damage: 0,
        nbt: None,
    };
    assert_eq!(Slot::from(stack).block_id, 5);
    let wrapped = ItemStack {
        kind: 0xffff,
        count: 1,
        damage: 0,
        nbt: None,
    };
    assert_eq!(Slot::from(wrapped).block_id, -1);
}

#[test]
fn truncated_stream_fails_with_decode_error() {
    assert_eq!(decode(vec![0x00, 0x05]), Err(DecodeError::UnexpectedEof));
}

#[test]
fn truncated_variants_all_fail() {
    assert_eq!(decode(vec![]), Err(DecodeError::UnexpectedEof));
    assert_eq!(decode(vec![0x00]), Err(DecodeError::UnexpectedEof));
    assert_eq!(decode(vec![0x00, 0x05, 0x03]), Err(DecodeError::UnexpectedEof));
    assert_eq!(
        decode(vec![0x00, 0x05, 0x03, 0x00]),
        Err(DecodeError::UnexpectedEof)
    );
    assert_eq!(
        decode(vec![0x00, 0x05, 0x03, 0x00, 0x07]),
        Err(DecodeError::UnexpectedEof)
    );
}

#[test]
fn malformed_compound_fails_with_invalid_nbt() {
    // Nonzero marker that is not the compound tag.
    let bytes = vec![0x00, 0x05, 0x03, 0x00, 0x07, 0x01, 0x00];
    assert_eq!(decode(bytes), Err(DecodeError::InvalidNbt));
}

#[test]
fn truncated_compound_fails_with_invalid_nbt() {
    // The compound tag alone, with the payload cut off.
    let bytes = vec![0x00, 0x05, 0x03, 0x00, 0x07, 0x0a];
    assert_eq!(decode(bytes), Err(DecodeError::InvalidNbt));
}

#[test]
fn decoder_stops_exactly_after_the_record() {
    let mut bytes = encode(Slot {
        block_id: 5,
        item_count: Some(3),
        item_damage: Some(7),
        nbt: None,
    });
    let record_len = bytes.len();
    bytes.extend_from_slice(&[0xde, 0xad, 0xbe, 0xef]);
    let mut reader = ByteReader::new(bytes);
    let slot = Slot::read_from_bytes(&mut reader).unwrap();
    assert_eq!(slot.block_id, 5);
    assert_eq!(reader.position(), record_len);
}

#[test]
fn decoder_stops_exactly_after_the_payload() {
    let mut bytes = encode(Slot {
        block_id: 5,
        item_count: Some(3),
        item_damage: Some(7),
        nbt: Some(ItemNbt {
            ench: Some(vec![ench(1, 1)]),
        }),
    });
    let record_len = bytes.len();
    bytes.push(0xff);
    bytes.push(0xff);
    let mut reader = ByteReader::new(bytes);
    let slot = Slot::read_from_bytes(&mut reader).unwrap();
    assert!(slot.nbt.is_some());
    assert_eq!(reader.position(), record_len);
    // The next record on the stream is still readable.
    let next = Slot::read_from_bytes(&mut reader).unwrap();
    assert_eq!(next, Slot::empty());
}

#[test]
fn item_nbt_codec_round_trips_on_its_own() {
    let payload = ItemNbt {
        ench: Some(vec![ench(7, 4), ench(7, 4)]),
    };
    let mut w = ByteWriter::new();
    payload.write_to_bytes(&mut w);
    let bytes = w.into_bytes();
    assert_eq!(bytes[0], 0x0a);
    let mut r = ByteReader::new(bytes);
    let back = ItemNbt::read_from_bytes(&mut r).unwrap();
    assert_eq!(back.ench, Some(vec![ench(7, 4), ench(7, 4)]));
}

#[test]
fn stream_primitives_are_big_endian_with_pushback() {
    let mut w = ByteWriter::new();
    w.write_i16(-1);
    w.write_u16(0x1234);
    w.write_u8(0x56);
    let bytes = w.into_bytes();
    assert_eq!(bytes, vec![0xff, 0xff, 0x12, 0x34, 0x56]);

    let mut r = ByteReader::new(bytes);
    assert_eq!(r.read_i16(), Ok(-1));
    assert_eq!(r.read_u16(), Ok(0x1234));
    r.back(2);
    assert_eq!(r.read_u8(), Ok(0x12));
    assert_eq!(r.read_u8(), Ok(0x34));
    assert_eq!(r.read_u8(), Ok(0x56));
    assert_eq!(r.read_u8(), Err(DecodeError::UnexpectedEof));
}

#[test]
fn negative_array_length_fails_with_invalid_nbt() {
    // A compound whose `ench` integer array declares a negative length.
    let bytes = vec![
        0x00, 0x05, 0x03, 0x00, 0x07, // id, count, damage
        0x0a, 0x00, 0x00, // compound tag, empty name
        0x0b, 0x00, 0x04, b'e', b'n', b'c', b'h', // IntArray header
        0xff, 0xff, 0xff, 0xff, // length -1
    ];
    assert_eq!(decode(bytes), Err(DecodeError::InvalidNbt));
}

#[test]
fn oversized_array_length_fails_with_invalid_nbt() {
    // The declared length far exceeds the bytes that follow.
    let bytes = vec![
        0x00, 0x05, 0x03, 0x00, 0x07, // id, count, damage
        0x0a, 0x00, 0x00, // compound tag, empty name
        0x0b, 0x00, 0x04, b'e', b'n', b'c', b'h', // IntArray header
        0x7f, 0xff, 0xff, 0xff, // length 2^31 - 1
        0x00, 0x00, 0x00, 0x01, // one lone entry
    ];
    assert_eq!(decode(bytes), Err(DecodeError::InvalidNbt));
}

#[test]
fn oversized_list_count_fails_with_invalid_nbt() {
    // A foreign list field whose declared element count is absurd.
    let bytes = vec![
        0x00, 0x05, 0x03, 0x00, 0x07, // id, count, damage
        0x0a, 0x00, 0x00, // compound tag, empty name
        0x09, 0x00, 0x03, b'f', b'o', b'o', // List header
        0x01, // element tag: byte
        0x7f, 0xff, 0xff, 0xff, // count 2^31 - 1
        0x00,
    ];
    assert_eq!(decode(bytes), Err(DecodeError::InvalidNbt));
}

#[test]
fn overdeep_nesting_fails_with_invalid_nbt() {
    // One hundred compounds inside each other: deeper than the decoder
    // lets metadata nest.
    let mut bytes = vec![0x00, 0x05, 0x03, 0x00, 0x07];
    bytes.extend_from_slice(&[0x0a, 0x00, 0x00]);
    for _ in 0..100 {
        // An entry holding a nested compound with an empty name.
        bytes.extend_from_slice(&[0x0a, 0x00, 0x00]);
    }
    for _ in 0..101 {
        bytes.push(0x00); // every compound's end tag
    }
    assert_eq!(decode(bytes), Err(DecodeError::InvalidNbt));
}

#[test]
fn foreign_fields_are_ignored() {
    // A compound carrying a byte field and a short list, but no `ench`.
    let bytes = vec![
        0x00, 0x05, 0x03, 0x00, 0x07, // id, count, damage
        0x0a, 0x00, 0x00, // compound tag, empty name
        0x01, 0x00, 0x01, b'x', 0x2a, // byte field x = 42
        0x09, 0x00, 0x03, b'f', b'o', b'o', // List header
        0x02, 0x00, 0x00, 0x00, 0x02, // two shorts
        0x00, 0x01, 0x00, 0x02, // their values
        0x00, // end tag
    ];
    let slot = decode(bytes).unwrap();
    assert_eq!(slot.block_id, 5);
    assert_eq!(slot.nbt.unwrap().ench, None);
}
