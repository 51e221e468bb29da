use bird_protocol::bytes::{InputByteQueue, OutputByteQueue};
use bird_protocol::containers::{LengthProvidedArray, RemainingBytesArray};
use bird_protocol::packet::{PacketRead, PacketReadableError};
use bird_protocol::payload::{read_component, write_component};
use bird_protocol::position::BlockPosition;
use bird_protocol::protocol::{Readable, Writable};
use bird_protocol::varnum::{VarInt, VarLong};

use cubic_chat::color::DefaultColor;
use cubic_chat::component::{ComponentType, TextComponent};

#[test]
fn packet_read() {
    let mut packet_read = PacketRead::new(&[0, 2, 3]);
    assert_eq!(packet_read.available(), 3);
    assert_eq!(packet_read.is_available(3), true);
    assert_eq!(packet_read.is_available(0), true);
    assert_eq!(packet_read.is_available(4), false);
    assert_eq!(packet_read.take_byte().unwrap(), 0);
    assert_eq!(packet_read.take_slice(2).unwrap(), &[2, 3]);
    assert_eq!(packet_read.available(), 0);
    assert_eq!(packet_read.is_available(1), false);
    assert_eq!(
        match packet_read.take_byte().unwrap_err() {
            PacketReadableError::BytesExceeded => true,
            _ => false,
        },
        true
    );
}

#[test]
fn success_integer_test() {
    {
        let mut output = OutputByteQueue::new();
        0xff321233_u32.write(&mut output).unwrap();
        let bytes = output.get_bytes();
        assert_eq!(bytes.len(), 4);
        assert_eq!(bytes[0], 0x33);
        assert_eq!(bytes[1], 0x12);
        assert_eq!(bytes[2], 0x32);
        assert_eq!(bytes[3], 0xff);
    }
    {
        let mut input = InputByteQueue::new(vec![0x97, 0x32, 0x11, 0xaa]);
        assert_eq!(u32::read(&mut input).unwrap(), 0xaa113297_u32);
    }
    let mut output = OutputByteQueue::new();
    321953285_i64.write(&mut output).unwrap();
    32194325340956843_u64.write(&mut output).unwrap();
    329853_i32.write(&mut output).unwrap();
    2035936534_u32.write(&mut output).unwrap();
    32474_i16.write(&mut output).unwrap();
    6886_u16.write(&mut output).unwrap();
    244_u8.write(&mut output).unwrap();
    (-120_i8).write(&mut output).unwrap();
    true.write(&mut output).unwrap();
    false.write(&mut output).unwrap();
    let mut input = InputByteQueue::new(output.get_bytes());
    assert_eq!(i64::read(&mut input).unwrap(), 321953285_i64);
    assert_eq!(u64::read(&mut input).unwrap(), 32194325340956843_u64);
    assert_eq!(i32::read(&mut input).unwrap(), 329853_i32);
    assert_eq!(u32::read(&mut input).unwrap(), 2035936534_u32);
    assert_eq!(i16::read(&mut input).unwrap(), 32474_i16);
    assert_eq!(u16::read(&mut input).unwrap(), 6886_u16);
    assert_eq!(u8::read(&mut input).unwrap(), 244_u8);
    assert_eq!(i8::read(&mut input).unwrap(), -120_i8);
    assert_eq!(bool::read(&mut input).unwrap(), true);
    assert_eq!(bool::read(&mut input).unwrap(), false);
}

#[test]
fn success_var_num_test() {
    {
        let mut output = OutputByteQueue::new();
        VarInt(0).write(&mut output).unwrap();
        let bytes = output.get_bytes();
        assert_eq!(bytes[0], 0);
    }
    {
        let mut output = OutputByteQueue::new();
        VarInt(2097151).write(&mut output).unwrap();
        assert_eq!(output.get_bytes(), vec![255, 255, 127]);
    }
    {
        let mut output = OutputByteQueue::new();
        VarInt(-1).write(&mut output).unwrap();
        assert_eq!(output.get_bytes(), vec![255, 255, 255, 255, 15]);
    }
    {
        let mut input = InputByteQueue::new(vec![0]);
        assert_eq!(VarInt::read(&mut input).unwrap(), VarInt(0));
    }
    {
        let mut input = InputByteQueue::new(vec![255, 255, 127]);
        assert_eq!(VarInt::read(&mut input).unwrap(), VarInt(2097151));
    }
    {
        let mut input = InputByteQueue::new(vec![255, 255, 255, 255, 15]);
        assert_eq!(VarInt::read(&mut input).unwrap(), VarInt(-1));
    }
    {
        let mut output = OutputByteQueue::new();
        VarLong(-1).write(&mut output).unwrap();
        assert_eq!(
            output.get_bytes(),
            vec![255, 255, 255, 255, 255, 255, 255, 255, 255, 1]
        );
    }
    {
        let mut output = OutputByteQueue::new();
        VarLong(2147483647).write(&mut output).unwrap();
        assert_eq!(output.get_bytes(), vec![255, 255, 255, 255, 7]);
    }
    {
        let mut output = OutputByteQueue::new();
        VarLong(-2147483648).write(&mut output).unwrap();
        assert_eq!(
            output.get_bytes(),
            vec![128, 128, 128, 128, 248, 255, 255, 255, 255, 1]
        );
    }
    let mut output = OutputByteQueue::new();
    VarInt(32).write(&mut output).unwrap();
    VarInt(-1).write(&mut output).unwrap();
    VarLong(-3231).write(&mut output).unwrap();
    VarLong(-32).write(&mut output).unwrap();
    VarLong(32186094).write(&mut output).unwrap();
    VarLong(-321936749532).write(&mut output).unwrap();
    let mut input = InputByteQueue::new(output.get_bytes());
    assert_eq!(VarInt::read(&mut input).unwrap(), VarInt(32));
    assert_eq!(VarInt::read(&mut input).unwrap(), VarInt(-1));
    assert_eq!(VarLong::read(&mut input).unwrap(), VarLong(-3231));
    assert_eq!(VarLong::read(&mut input).unwrap(), VarLong(-32));
    assert_eq!(VarLong::read(&mut input).unwrap(), VarLong(32186094));
    assert_eq!(VarLong::read(&mut input).unwrap(), VarLong(-321936749532));
}

#[test]
fn success_string_test() {
    {
        let mut output = OutputByteQueue::new();
        "jenya705 is the best".to_string().write(&mut output).unwrap();
        let mut input = InputByteQueue::new(output.get_bytes());
        assert_eq!(
            String::read(&mut input).unwrap(),
            "jenya705 is the best".to_string()
        );
    }
    // test for not ascii characters
    {
        let mut output = OutputByteQueue::new();
        "я самый лучший".to_string().write(&mut output).unwrap();
        let mut input = InputByteQueue::new(output.get_bytes());
        assert_eq!(
            String::read(&mut input).unwrap(),
            "я самый лучший".to_string()
        );
    }
}

#[test]
fn success_block_position_test() {
    let mut output = OutputByteQueue::new();
    BlockPosition::new(1, 1, 1).write(&mut output).unwrap();
    BlockPosition::new(-321, 32, -32).write(&mut output).unwrap();
    BlockPosition::new(-320, 32, -3123).write(&mut output).unwrap();
    BlockPosition::new(321, 255, -325837).write(&mut output).unwrap();
    let mut input = InputByteQueue::new(output.get_bytes());
    assert_eq!(
        BlockPosition::read(&mut input).unwrap(),
        BlockPosition::new(1, 1, 1)
    );
    assert_eq!(
        BlockPosition::read(&mut input).unwrap(),
        BlockPosition::new(-321, 32, -32)
    );
    assert_eq!(
        BlockPosition::read(&mut input).unwrap(),
        BlockPosition::new(-320, 32, -3123)
    );
    assert_eq!(
        BlockPosition::read(&mut input).unwrap(),
        BlockPosition::new(321, 255, -325837)
    );
}

#[test]
fn success_chat_test() {
    let component = ComponentType::Text({
        let mut component = TextComponent::new("hi!".into());
        component.base.bold = Some(true);
        component.base.extra.push({
            let mut component = TextComponent::new("bye!".into());
            component.base.color = Some(DefaultColor::Red.into());
            component.into()
        });
        component
    });
    let mut output = OutputByteQueue::new();
    write_component(&component, &mut output).unwrap();
    let mut input = InputByteQueue::new(output.get_bytes());
    assert_eq!(read_component(&mut input).unwrap(), component);
}

#[test]
fn success_remaining_bytes_array_test() {
    {
        let arr = RemainingBytesArray::new(vec![32_u8, 233_u8, 211_u8]);
        let mut output = OutputByteQueue::new();
        arr.write(&mut output).unwrap();
        let mut input = InputByteQueue::new(output.get_bytes());
        assert_eq!(
            RemainingBytesArray::<u8>::read(&mut input).unwrap(),
            RemainingBytesArray::new(vec![32_u8, 233_u8, 211_u8])
        );
    }
    {
        let arr = RemainingBytesArray::new(vec![VarInt(-1), VarInt(325), VarInt(3219538)]);
        let mut output = OutputByteQueue::new();
        arr.write(&mut output).unwrap();
        let mut input = InputByteQueue::new(output.get_bytes());
        assert_eq!(
            RemainingBytesArray::<VarInt>::read(&mut input).unwrap(),
            RemainingBytesArray::new(vec![VarInt(-1), VarInt(325), VarInt(3219538)])
        );
    }
}

#[test]
fn success_length_provided_array_test() {
    {
        let arr = LengthProvidedArray::<VarInt, i16>::new(vec![
            VarInt(321),
            VarInt(-312325),
            VarInt(328138),
        ]);
        let mut output = OutputByteQueue::new();
        arr.write(&mut output).unwrap();
        let mut input = InputByteQueue::new(output.get_bytes());
        assert_eq!(
            LengthProvidedArray::<VarInt, i16>::read(&mut input).unwrap(),
            LengthProvidedArray::<VarInt, i16>::new(vec![
                VarInt(321),
                VarInt(-312325),
                VarInt(328138)
            ])
        );
    }
    {
        let arr = LengthProvidedArray::<String, VarInt>::new(vec![
            "hello!".to_string(),
            "poka".to_string(),
            "dadada".to_string(),
        ]);
        let mut output = OutputByteQueue::new();
        arr.write(&mut output).unwrap();
        let mut input = InputByteQueue::new(output.get_bytes());
        assert_eq!(
            LengthProvidedArray::<String, VarInt>::read(&mut input).unwrap(),
            LengthProvidedArray::<String, VarInt>::new(vec![
                "hello!".to_string(),
                "poka".to_string(),
                "dadada".to_string()
            ])
        );
    }
}

#[test]
fn success_compound_test() {
    let mut output = OutputByteQueue::new();
    0_u32.write(&mut output).unwrap();
    12_u16.write(&mut output).unwrap();
    32_u8.write(&mut output).unwrap();
    VarInt(-1).write(&mut output).unwrap();
    VarLong(32).write(&mut output).unwrap();
    VarLong(-2).write(&mut output).unwrap();
    "some_string".to_string().write(&mut output).unwrap();
    BlockPosition::new(32321, 233, -32325).write(&mut output).unwrap();
    let mut input = InputByteQueue::new(output.get_bytes());
    assert_eq!(u32::read(&mut input).unwrap(), 0_u32);
    assert_eq!(u16::read(&mut input).unwrap(), 12_u16);
    assert_eq!(u8::read(&mut input).unwrap(), 32_u8);
    assert_eq!(VarInt::read(&mut input).unwrap(), VarInt(-1));
    assert_eq!(VarLong::read(&mut input).unwrap(), VarLong(32));
    assert_eq!(VarLong::read(&mut input).unwrap(), VarLong(-2));
    assert_eq!(String::read(&mut input).unwrap(), "some_string".to_string());
    assert_eq!(
        BlockPosition::read(&mut input).unwrap(),
        BlockPosition::new(32321, 233, -32325)
    );
}
