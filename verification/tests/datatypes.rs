use minecraft_afk_bot::asyncio::{AsyncSlice, AsyncVec, MyAsyncRead, MyAsyncWrite, SizeCalc, WireError};
use minecraft_afk_bot::datatypes::{DataType, Double, Float, MString, Slot, VarInt};

fn bytes_of<T: DataType>(value: T) -> Vec<u8> {
    let mut out = AsyncVec(Vec::new());
    value.serialize(&mut out);
    out.0
}

fn read_all<T: DataType>(bytes: &[u8]) -> Result<(T, usize), WireError> {
    let mut reader = AsyncSlice::new(bytes);
    let value = T::deserialize(&mut reader)?;
    Ok((value, reader.position()))
}

#[test]
fn size_calc_counts_and_keeps_nothing() {
    let mut counted = SizeCalc(3);
    counted.write(&[1, 2, 3, 4]);
    counted.write_byte(9);
    counted.write(&[]);
    assert_eq!(counted.0, 8);
}

#[test]
fn async_vec_keeps_bytes_in_order() {
    let mut out = AsyncVec(vec![7]);
    out.write(&[1, 2]);
    out.write_byte(3);
    assert_eq!(out.0, vec![7, 1, 2, 3]);
}

#[test]
fn async_slice_reads_all_or_nothing() {
    let data = [1u8, 2, 3, 4, 5];
    let mut reader = AsyncSlice::new(&data);
    let mut two = [0u8; 2];
    assert_eq!(reader.read(&mut two), Ok(()));
    assert_eq!(two, [1, 2]);
    assert_eq!(reader.position(), 2);
    assert_eq!(reader.remaining(), 3);
    let mut four = [0u8; 4];
    assert_eq!(reader.read(&mut four), Err(WireError::UnexpectedEof));
    assert_eq!(reader.position(), 2);
    assert_eq!(reader.read_byte(), Ok(3));
    assert_eq!(reader.read_vec(2), Ok(vec![4, 5]));
    assert_eq!(reader.read_byte(), Err(WireError::UnexpectedEof));
    assert_eq!(reader.read_vec(0), Ok(vec![]));
    assert_eq!(reader.read_vec(usize::MAX), Err(WireError::UnexpectedEof));
}

#[test]
fn fixed_width_integers_are_big_endian() {
    assert_eq!(bytes_of(25565u16), vec![0x63, 0xdd]);
    assert_eq!(bytes_of(0x0102i16), vec![0x01, 0x02]);
    assert_eq!(bytes_of(-2i16), vec![0xff, 0xfe]);
    assert_eq!(bytes_of(0x01020304i32), vec![1, 2, 3, 4]);
    assert_eq!(bytes_of(-1i32), vec![0xff; 4]);
    assert_eq!(bytes_of(i32::MIN), vec![0x80, 0, 0, 0]);
    assert_eq!(bytes_of(0x0102030405060708i64), vec![1, 2, 3, 4, 5, 6, 7, 8]);
    assert_eq!(bytes_of(-1i64), vec![0xff; 8]);
    assert_eq!(bytes_of(-128i8), vec![0x80]);
    assert_eq!(bytes_of(127i8), vec![0x7f]);
    assert_eq!(bytes_of(200u8), vec![200]);
}

#[test]
fn fixed_width_integers_round_trip() {
    for x in [0u16, 1, 255, 256, 25565, u16::MAX] {
        assert_eq!(read_all::<u16>(&bytes_of(x)), Ok((x, 2)));
        assert_eq!(bytes_of(x), x.to_be_bytes().to_vec());
    }
    for x in [0i16, 1, -1, 36, i16::MIN, i16::MAX] {
        assert_eq!(read_all::<i16>(&bytes_of(x)), Ok((x, 2)));
        assert_eq!(bytes_of(x), x.to_be_bytes().to_vec());
    }
    for x in [0i32, 1, -1, 753, i32::MIN, i32::MAX] {
        assert_eq!(read_all::<i32>(&bytes_of(x)), Ok((x, 4)));
        assert_eq!(bytes_of(x), x.to_be_bytes().to_vec());
    }
    for x in [0i64, 1, -1, 1 << 40, i64::MIN, i64::MAX] {
        assert_eq!(read_all::<i64>(&bytes_of(x)), Ok((x, 8)));
        assert_eq!(bytes_of(x), x.to_be_bytes().to_vec());
    }
    for x in [0i8, 1, -1, i8::MIN, i8::MAX] {
        assert_eq!(read_all::<i8>(&bytes_of(x)), Ok((x, 1)));
    }
    for x in [0u8, 1, 128, 255] {
        assert_eq!(read_all::<u8>(&bytes_of(x)), Ok((x, 1)));
    }
}

#[test]
fn fixed_width_integers_run_out() {
    assert_eq!(read_all::<u16>(&[1]), Err(WireError::UnexpectedEof));
    assert_eq!(read_all::<i32>(&[1, 2, 3]), Err(WireError::UnexpectedEof));
    assert_eq!(read_all::<i64>(&[0; 7]), Err(WireError::UnexpectedEof));
    assert_eq!(read_all::<u128>(&[0; 15]), Err(WireError::UnexpectedEof));
    assert_eq!(read_all::<u8>(&[]), Err(WireError::UnexpectedEof));
    assert_eq!(read_all::<bool>(&[]), Err(WireError::UnexpectedEof));
}

#[test]
fn boolean_is_one_byte_and_only_one_is_true() {
    assert_eq!(bytes_of(true), vec![1]);
    assert_eq!(bytes_of(false), vec![0]);
    assert_eq!(read_all::<bool>(&[1]), Ok((true, 1)));
    assert_eq!(read_all::<bool>(&[0]), Ok((false, 1)));
    assert_eq!(read_all::<bool>(&[2]), Ok((false, 1)));
    assert_eq!(read_all::<bool>(&[255]), Ok((false, 1)));
}

#[test]
fn wide_value_is_two_halves_high_first() {
    let x: u128 = 0x0102030405060708_090a0b0c0d0e0f10;
    assert_eq!(
        bytes_of(x),
        vec![1, 2, 3, 4, 5, 6, 7, 8, 9, 10, 11, 12, 13, 14, 15, 16]
    );
    for x in [0u128, 1, u64::MAX as u128, u64::MAX as u128 + 1, u128::MAX, x] {
        assert_eq!(read_all::<u128>(&bytes_of(x)), Ok((x, 16)));
    }
}

#[test]
fn floats_travel_as_their_bits() {
    assert_eq!(bytes_of(Float(20.0f32.to_bits())), 20.0f32.to_be_bytes().to_vec());
    assert_eq!(bytes_of(Float(0x41a00000)), vec![0x41, 0xa0, 0, 0]);
    assert_eq!(bytes_of(Double((-1.62f64).to_bits())), (-1.62f64).to_be_bytes().to_vec());
    assert_eq!(
        read_all::<Float>(&6.5f32.to_be_bytes()),
        Ok((Float(6.5f32.to_bits()), 4))
    );
    assert_eq!(
        read_all::<Double>(&1234.5678f64.to_be_bytes()),
        Ok((Double(1234.5678f64.to_bits()), 8))
    );
    assert_eq!(read_all::<Double>(&[0; 7]), Err(WireError::UnexpectedEof));
}

#[test]
fn string_is_length_then_utf8() {
    assert_eq!(bytes_of(MString("bruh".to_string())), vec![4, b'b', b'r', b'u', b'h']);
    assert_eq!(bytes_of(MString(String::new())), vec![0]);
    // two bytes for the one character
    assert_eq!(bytes_of(MString("é".to_string())), vec![2, 0xc3, 0xa9]);
    let long = "x".repeat(300);
    let bytes = bytes_of(MString(long.clone()));
    assert_eq!(&bytes[..2], &[0xac, 0x02]);
    assert_eq!(bytes.len(), 302);
    assert_eq!(read_all::<MString>(&bytes), Ok((MString(long), 302)));
}

#[test]
fn string_round_trip() {
    for text in ["", "a", "hello world", "zażółć gęślą jaźń", "日本語", "🙂 ok"] {
        let bytes = bytes_of(MString(text.to_string()));
        assert_eq!(
            read_all::<MString>(&bytes),
            Ok((MString(text.to_string()), bytes.len()))
        );
    }
}

#[test]
fn string_decode_never_fails_on_bad_utf8() {
    let (text, used) = read_all::<MString>(&[3, b'a', 0xff, b'b']).unwrap();
    assert_eq!(text, MString("a\u{fffd}b".to_string()));
    assert_eq!(used, 4);
    // a sequence cut short
    let (text, _) = read_all::<MString>(&[2, b'a', 0xc3]).unwrap();
    assert_eq!(text, MString("a\u{fffd}".to_string()));
}

#[test]
fn string_decode_failures() {
    assert_eq!(read_all::<MString>(&[]), Err(WireError::UnexpectedEof));
    assert_eq!(read_all::<MString>(&[5, b'a', b'b']), Err(WireError::UnexpectedEof));
    // the length -1
    let minus_one = [0xff, 0xff, 0xff, 0xff, 0xff, 0xff, 0xff, 0xff, 0xff, 0x01];
    assert_eq!(read_all::<MString>(&minus_one), Err(WireError::BadLength));
}

#[test]
fn string_is_encodable() {
    assert!(MString("anything".to_string()).is_encodable());
}

#[test]
fn slot_encodings() {
    assert_eq!(bytes_of(Slot::NotPresent), vec![0]);
    assert_eq!(bytes_of(Slot::Present(VarInt(573), 64)), vec![1, 0xbd, 0x04, 64]);
    assert_eq!(bytes_of(Slot::Present(VarInt(1), -1)), vec![1, 1, 0xff]);
    assert_eq!(read_all::<Slot>(&[0, 9, 9]), Ok((Slot::NotPresent, 1)));
    assert_eq!(
        read_all::<Slot>(&[1, 0xbd, 0x04, 64, 9]),
        Ok((Slot::Present(VarInt(573), 64), 4))
    );
    // any flag but 1 is an empty slot
    assert_eq!(read_all::<Slot>(&[2, 5, 5]), Ok((Slot::NotPresent, 1)));
    assert_eq!(read_all::<Slot>(&[1, 0xbd]), Err(WireError::UnexpectedEof));
    assert_eq!(read_all::<Slot>(&[1, 5]), Err(WireError::UnexpectedEof));
    assert_eq!(read_all::<Slot>(&[]), Err(WireError::UnexpectedEof));
}

#[test]
fn sequence_is_count_then_elements() {
    let ids = vec![VarInt(1), VarInt(300), VarInt(0)];
    assert_eq!(bytes_of(ids.clone()), vec![3, 1, 0xac, 0x02, 0]);
    assert_eq!(read_all::<Vec<VarInt>>(&[3, 1, 0xac, 0x02, 0, 77]), Ok((ids, 5)));
    assert_eq!(bytes_of(Vec::<VarInt>::new()), vec![0]);
    assert_eq!(read_all::<Vec<VarInt>>(&[0]), Ok((vec![], 1)));
    assert_eq!(bytes_of(vec![1u16, 2]), vec![2, 0, 1, 0, 2]);
    assert_eq!(read_all::<Vec<u16>>(&[2, 0, 1, 0, 2]), Ok((vec![1u16, 2], 5)));
    let words = vec![MString("ab".to_string()), MString("c".to_string())];
    assert_eq!(bytes_of(words.clone()), vec![2, 2, b'a', b'b', 1, b'c']);
    assert_eq!(read_all::<Vec<MString>>(&[2, 2, b'a', b'b', 1, b'c']), Ok((words, 6)));
}

#[test]
fn sequence_decode_failures() {
    assert_eq!(read_all::<Vec<VarInt>>(&[2, 1]), Err(WireError::UnexpectedEof));
    assert_eq!(read_all::<Vec<VarInt>>(&[]), Err(WireError::UnexpectedEof));
    let minus_one = [0xff, 0xff, 0xff, 0xff, 0xff, 0xff, 0xff, 0xff, 0xff, 0x01];
    assert_eq!(read_all::<Vec<VarInt>>(&minus_one), Err(WireError::BadLength));
    // a count far beyond the input ends at the input's end
    assert_eq!(
        read_all::<Vec<VarInt>>(&[0xff, 0xff, 0xff, 0xff, 0x07, 1, 2]),
        Err(WireError::UnexpectedEof)
    );
}

#[test]
fn triple_is_three_integers() {
    let entry = (VarInt(6), VarInt(102), VarInt(300));
    assert_eq!(bytes_of(entry), vec![6, 102, 0xac, 0x02]);
    assert_eq!(
        read_all::<(VarInt, VarInt, VarInt)>(&[6, 102, 0xac, 0x02]),
        Ok((entry, 4))
    );
    assert_eq!(
        read_all::<(VarInt, VarInt, VarInt)>(&[6, 102]),
        Err(WireError::UnexpectedEof)
    );
}

#[test]
fn counting_sink_agrees_with_the_bytes() {
    let mut counted = SizeCalc(0);
    Slot::Present(VarInt(573), 64).serialize(&mut counted);
    (-3i8).serialize(&mut counted);
    40i16.serialize(&mut counted);
    MString("héllo".to_string()).serialize(&mut counted);
    0u128.serialize(&mut counted);
    assert_eq!(counted.0, 4 + 1 + 2 + 7 + 16);
}
