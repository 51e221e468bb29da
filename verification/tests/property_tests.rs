use std::collections::HashMap;

use bird_protocol::bytes::{InputByteQueue, InputByteQueueError, OutputByteQueue};
use bird_protocol::containers::{LengthProvidedArray, RemainingBytesArray};
use bird_protocol::packet::PacketWritable;
use bird_protocol::packet_default::HandshakePacket;
use bird_protocol::payload::{ProtocolJson, Slot};
use bird_protocol::position::{Angle, BlockPosition, Rotation, Uuid};
use bird_protocol::protocol::{ReadError, Readable, Writable};
use bird_protocol::ident::{Identifier, IdentifierError};
use bird_protocol::text::read_string_with_limit;
use bird_protocol::varnum::{BlockId, VarInt, VarLong};

fn shortage() -> ReadError {
    ReadError::InputQueue(InputByteQueueError::NoBytes)
}

#[test]
fn truncated_fixed_width_reads_fail_with_shortage() {
    let mut input = InputByteQueue::new(vec![1, 2, 3]);
    assert_eq!(u32::read(&mut input).unwrap_err(), shortage());
    let mut input = InputByteQueue::new(vec![]);
    assert_eq!(u64::read(&mut input).unwrap_err(), shortage());
    let mut input = InputByteQueue::new(vec![0; 7]);
    assert_eq!(BlockPosition::read(&mut input).unwrap_err(), shortage());
    let mut input = InputByteQueue::new(vec![0; 15]);
    assert_eq!(Uuid::read(&mut input).unwrap_err(), shortage());
    let mut input = InputByteQueue::new(vec![0; 11]);
    assert_eq!(Rotation::read(&mut input).unwrap_err(), shortage());
    let mut input = InputByteQueue::new(vec![0; 15]);
    assert_eq!(u128::read(&mut input).unwrap_err(), shortage());
    let mut input = InputByteQueue::new(vec![1]);
    assert_eq!(i16::read(&mut input).unwrap_err(), shortage());
}

#[test]
fn var_num_shortage_and_overlong() {
    // continuation bit set but the queue ends
    let mut input = InputByteQueue::new(vec![0x80]);
    assert_eq!(VarInt::read(&mut input).unwrap_err(), shortage());
    // more 7-bit groups than a 32-bit value can carry
    let mut input = InputByteQueue::new(vec![0xff, 0xff, 0xff, 0xff, 0xff]);
    assert_eq!(VarInt::read(&mut input).unwrap_err(), ReadError::BadVarNum);
    // the same for the 64-bit family at ten groups
    let mut input = InputByteQueue::new(vec![0xff; 10]);
    assert_eq!(VarLong::read(&mut input).unwrap_err(), ReadError::BadVarNum);
    // nine continuation groups are still in range for a VarLong
    let mut input = InputByteQueue::new(vec![0xff, 0xff, 0xff, 0xff, 0xff, 0xff, 0xff, 0xff, 0xff, 0x01]);
    assert_eq!(VarLong::read(&mut input).unwrap(), VarLong(-1));
}

#[test]
fn string_limit_is_enforced_even_with_bytes_present() {
    // declared length 32768 with all bytes physically present
    let mut output = OutputByteQueue::new();
    VarInt(32768).write(&mut output).unwrap();
    let mut bytes = output.get_bytes();
    bytes.extend(std::iter::repeat(b'a').take(32768));
    let mut input = InputByteQueue::new(bytes);
    assert_eq!(
        String::read(&mut input).unwrap_err(),
        ReadError::BadStringLimit(32767)
    );

    // the larger structured-text limit behaves the same way
    let mut output = OutputByteQueue::new();
    VarInt(262145).write(&mut output).unwrap();
    let mut bytes = output.get_bytes();
    bytes.extend(std::iter::repeat(b'a').take(262145));
    let mut input = InputByteQueue::new(bytes);
    assert_eq!(
        read_string_with_limit(&mut input, 262144).unwrap_err(),
        ReadError::BadStringLimit(262144)
    );

    // a string of exactly the limit round-trips
    let s: String = std::iter::repeat('a').take(32767).collect();
    let mut output = OutputByteQueue::new();
    s.write(&mut output).unwrap();
    let mut input = InputByteQueue::new(output.get_bytes());
    assert_eq!(String::read(&mut input).unwrap(), s);
}

#[test]
fn string_rejects_invalid_utf8_and_truncation() {
    let mut input = InputByteQueue::new(vec![2, 0xff, 0xfe]);
    assert_eq!(String::read(&mut input).unwrap_err(), ReadError::BadUtf8);
    let mut input = InputByteQueue::new(vec![5, b'a', b'b']);
    assert_eq!(String::read(&mut input).unwrap_err(), shortage());
}

#[test]
fn remaining_bytes_array_empty_queue_yields_empty() {
    let mut input = InputByteQueue::new(vec![]);
    let arr = RemainingBytesArray::<u8>::read(&mut input).unwrap();
    assert_eq!(arr.result, Vec::<u8>::new());
    assert_eq!(input.available(), 0);

    let mut input = InputByteQueue::new(vec![32, 233, 211]);
    let arr = RemainingBytesArray::<u8>::read(&mut input).unwrap();
    assert_eq!(arr.result, vec![32, 233, 211]);
    assert_eq!(input.available(), 0);
}

#[test]
fn length_provided_array_layout_is_count_then_elements() {
    let values = [VarInt(321), VarInt(-312325), VarInt(328138)];
    let arr = LengthProvidedArray::<VarInt, i16>::new(values.to_vec());
    let mut output = OutputByteQueue::new();
    arr.write(&mut output).unwrap();
    let bytes = output.get_bytes();

    let mut expected = OutputByteQueue::new();
    3_i16.write(&mut expected).unwrap();
    values[0].write(&mut expected).unwrap();
    values[1].write(&mut expected).unwrap();
    values[2].write(&mut expected).unwrap();
    let expected = expected.get_bytes();

    assert_eq!(&bytes[0..2], &[3, 0]);
    assert_eq!(bytes, expected);
}

#[test]
fn option_round_trip_and_layout() {
    let mut output = OutputByteQueue::new();
    Some(VarInt(5)).write(&mut output).unwrap();
    Option::<VarInt>::None.write(&mut output).unwrap();
    let bytes = output.get_bytes();
    assert_eq!(bytes, vec![1, 5, 0]);
    let mut input = InputByteQueue::new(bytes);
    assert_eq!(Option::<VarInt>::read(&mut input).unwrap(), Some(VarInt(5)));
    assert_eq!(Option::<VarInt>::read(&mut input).unwrap(), None);
}

#[test]
fn angle_is_one_exact_byte() {
    let mut output = OutputByteQueue::new();
    Angle(200).write(&mut output).unwrap();
    let bytes = output.get_bytes();
    assert_eq!(bytes, vec![200]);
    let mut input = InputByteQueue::new(bytes);
    assert_eq!(Angle::read(&mut input).unwrap(), Angle(200));
}

#[test]
fn rotation_round_trips_bit_exact() {
    let r = Rotation { x_bits: 0x3f800000, y_bits: 0, z_bits: 0xc0490fdb };
    let mut output = OutputByteQueue::new();
    r.write(&mut output).unwrap();
    let bytes = output.get_bytes();
    assert_eq!(bytes.len(), 12);
    assert_eq!(&bytes[0..4], &[0x00, 0x00, 0x80, 0x3f]);
    let mut input = InputByteQueue::new(bytes);
    assert_eq!(Rotation::read(&mut input).unwrap(), r);
}

#[test]
fn uuid_is_sixteen_big_endian_bytes() {
    let u = Uuid(0x00112233445566778899aabbccddeeff_u128);
    let mut output = OutputByteQueue::new();
    u.write(&mut output).unwrap();
    let bytes = output.get_bytes();
    assert_eq!(
        bytes,
        vec![
            0x00, 0x11, 0x22, 0x33, 0x44, 0x55, 0x66, 0x77, 0x88, 0x99, 0xaa, 0xbb, 0xcc, 0xdd,
            0xee, 0xff
        ]
    );
    let mut input = InputByteQueue::new(bytes);
    assert_eq!(Uuid::read(&mut input).unwrap(), u);
}

#[test]
fn block_id_delegates_to_var_int() {
    let id = BlockId(VarInt(321));
    let mut output = OutputByteQueue::new();
    id.write(&mut output).unwrap();
    let id_bytes = output.get_bytes();
    let mut output = OutputByteQueue::new();
    VarInt(321).write(&mut output).unwrap();
    assert_eq!(id_bytes, output.get_bytes());
    let mut input = InputByteQueue::new(id_bytes);
    assert_eq!(BlockId::read(&mut input).unwrap(), id);
}

#[test]
fn wide_integers_round_trip() {
    let mut output = OutputByteQueue::new();
    0x00112233445566778899aabbccddeeff_u128.write(&mut output).unwrap();
    (-170141183460469231731687303715884105728_i128).write(&mut output).unwrap();
    let mut input = InputByteQueue::new(output.get_bytes());
    assert_eq!(
        u128::read(&mut input).unwrap(),
        0x00112233445566778899aabbccddeeff_u128
    );
    assert_eq!(
        i128::read(&mut input).unwrap(),
        -170141183460469231731687303715884105728_i128
    );
}

#[test]
fn protocol_json_round_trips_a_document() {
    let mut map = serde_json::Map::new();
    map.insert("text".to_string(), serde_json::Value::String("hi".to_string()));
    map.insert("bold".to_string(), serde_json::Value::Bool(true));
    let value = serde_json::Value::Object(map);
    let pj = ProtocolJson::new(value.clone());
    let mut output = OutputByteQueue::new();
    pj.write(&mut output).unwrap();
    let mut input = InputByteQueue::new(output.get_bytes());
    let back = ProtocolJson::read(&mut input).unwrap();
    assert_eq!(back.value, value);
    assert_eq!(input.available(), 0);
}

#[test]
fn protocol_json_rejects_malformed_documents() {
    // well-framed bytes that are not JSON
    let mut input = InputByteQueue::new(vec![3, b'{', b'x', b'}']);
    assert_eq!(ProtocolJson::read(&mut input).unwrap_err(), ReadError::BadJson);
}

#[test]
fn slot_round_trips_with_compound_payload() {
    let mut compound = HashMap::new();
    compound.insert("id".to_string(), fastnbt::Value::Int(7));
    compound.insert("name".to_string(), fastnbt::Value::String("stone".to_string()));
    let slot = Slot {
        item_id: VarInt(907),
        item_count: 3,
        nbt: fastnbt::Value::Compound(compound.clone()),
    };
    let mut output = OutputByteQueue::new();
    slot.write(&mut output).unwrap();
    let mut input = InputByteQueue::new(output.get_bytes());
    let back = Slot::read(&mut input).unwrap();
    assert_eq!(back.item_id, VarInt(907));
    assert_eq!(back.item_count, 3);
    assert_eq!(back.nbt, fastnbt::Value::Compound(compound));
    assert_eq!(input.available(), 0);
}

#[test]
fn slot_rejects_malformed_payload() {
    // valid id and count, then one byte that is no NBT document
    let mut input = InputByteQueue::new(vec![7, 1, 0xff]);
    assert_eq!(Slot::read(&mut input).unwrap_err(), ReadError::BadNbt);
}

#[test]
fn handshake_packet_writes_fields_in_order() {
    let packet = HandshakePacket {
        protocol_version: 758,
        server_address: "localhost".to_string(),
        server_port: 25565,
        next_state: 2,
    };
    let mut output = OutputByteQueue::new();
    packet.write(&mut output).unwrap();
    let bytes = output.get_bytes();

    let mut expected = OutputByteQueue::new();
    VarInt(758).write(&mut expected).unwrap();
    "localhost".to_string().write(&mut expected).unwrap();
    25565_u16.write(&mut expected).unwrap();
    VarInt(2).write(&mut expected).unwrap();
    assert_eq!(bytes, expected.get_bytes());
}

#[test]
fn identifier_round_trips_and_validates() {
    let id = Identifier::from_full("minecraft:stone".to_string()).unwrap();
    assert_eq!(id.get_domain(), "minecraft");
    assert_eq!(id.get_key(), "stone");
    let mut output = OutputByteQueue::new();
    id.write(&mut output).unwrap();
    let mut input = InputByteQueue::new(output.get_bytes());
    let back = Identifier::read(&mut input).unwrap();
    assert_eq!(back, id);

    assert_eq!(
        Identifier::from_full("no_colon_here".to_string()).unwrap_err(),
        IdentifierError::NoAnyDoubleDots
    );
    assert_eq!(
        Identifier::from_full("a:b:c".to_string()).unwrap_err(),
        IdentifierError::TooManyDoubleDots
    );
    let built = Identifier::from_parts("ns".to_string(), "path".to_string()).unwrap();
    assert_eq!(built.get_domain(), "ns");
    assert_eq!(built.get_key(), "path");

    // the wire form of "a:b" is its string form
    let id = Identifier::from_full("a:b".to_string()).unwrap();
    let mut output = OutputByteQueue::new();
    id.write(&mut output).unwrap();
    assert_eq!(output.get_bytes(), vec![3, b'a', b':', b'b']);

    // a decoded string without exactly one colon is no identifier
    let mut input = InputByteQueue::new(vec![2, b'a', b'b']);
    assert_eq!(
        Identifier::read(&mut input).unwrap_err(),
        ReadError::BadIdentifier
    );
}

#[test]
fn angle_quantization_stays_within_one_step() {
    // The protocol's scaled conversion: radians to the wire byte and back.
    // One byte gives 256 steps, so the round trip may move a value by at
    // most pi/256 for inputs inside one scaled turn.
    let pi = std::f32::consts::PI;
    for v in [0.0_f32, 0.5, 1.0, 2.0, 3.0, pi - 0.01] {
        let byte = (v * 256.0 / pi) as u8;
        let mut output = OutputByteQueue::new();
        Angle(byte).write(&mut output).unwrap();
        let mut input = InputByteQueue::new(output.get_bytes());
        let back = Angle::read(&mut input).unwrap();
        let decoded = (back.0 as f32) * pi / 256.0;
        assert!((decoded - v).abs() <= pi / 256.0);
    }
}

#[test]
fn string_reader_consumption_is_exact_on_errors() {
    // an overlong length prefix: exactly the five examined bytes go
    let mut input = InputByteQueue::new(vec![0xff, 0xff, 0xff, 0xff, 0xff, 7, 7]);
    assert_eq!(
        read_string_with_limit(&mut input, 32767).unwrap_err(),
        ReadError::BadVarNum
    );
    assert_eq!(input.available(), 2);

    // a limit error consumes the prefix and no payload byte
    let mut output = OutputByteQueue::new();
    VarInt(32768).write(&mut output).unwrap();
    let mut bytes = output.get_bytes();
    let prefix_len = bytes.len();
    assert_eq!(prefix_len, 3);
    bytes.extend([9, 9, 9, 9]);
    let mut input = InputByteQueue::new(bytes);
    assert_eq!(
        String::read(&mut input).unwrap_err(),
        ReadError::BadStringLimit(32767)
    );
    assert_eq!(input.available(), 4);

    // invalid UTF-8 consumes prefix and payload, leaving what follows
    let mut input = InputByteQueue::new(vec![2, 0xff, 0xfe, 9]);
    assert_eq!(String::read(&mut input).unwrap_err(), ReadError::BadUtf8);
    assert_eq!(input.available(), 1);
}

#[test]
fn payload_writers_cannot_fail() {
    let pj = ProtocolJson::new(serde_json::Value::Null);
    let mut output = OutputByteQueue::new();
    assert!(pj.write(&mut output).is_ok());

    let component = cubic_chat::component::ComponentType::Text(
        cubic_chat::component::TextComponent::new("x".into()),
    );
    let mut output = OutputByteQueue::new();
    assert!(bird_protocol::payload::write_component(&component, &mut output).is_ok());
}

#[test]
fn nbt_value_writer_round_trips_through_parser() {
    let mut compound = HashMap::new();
    compound.insert("count".to_string(), fastnbt::Value::Int(42));
    let value = fastnbt::Value::Compound(compound);
    let mut output = OutputByteQueue::new();
    bird_protocol::payload::write_nbt_value(&value, &mut output).unwrap();
    let bytes = output.get_bytes();
    assert!(!bytes.is_empty());
    let back: fastnbt::Value = fastnbt::from_bytes(&bytes).unwrap();
    assert_eq!(back, value);
}

#[test]
fn from_parts_rejects_colons_in_either_part() {
    assert_eq!(
        Identifier::from_parts("a:b".to_string(), "c".to_string()).unwrap_err(),
        IdentifierError::TooManyDoubleDots
    );
    assert_eq!(
        Identifier::from_parts("a".to_string(), "c:d".to_string()).unwrap_err(),
        IdentifierError::TooManyDoubleDots
    );
}
