use minecraft_afk_bot::asyncio::{AsyncSlice, AsyncVec, SizeCalc, WireError};
use minecraft_afk_bot::datatypes::{DataType, VarInt};

fn encode(x: i64) -> Vec<u8> {
    let mut out = AsyncVec(Vec::new());
    VarInt(x).serialize(&mut out);
    out.0
}

fn decode(bytes: &[u8]) -> Result<(i64, usize), WireError> {
    let mut reader = AsyncSlice::new(bytes);
    let value = VarInt::deserialize(&mut reader)?;
    Ok((value.0, reader.position()))
}

#[test]
fn varint_known_encodings() {
    assert_eq!(encode(0), vec![0x00]);
    assert_eq!(encode(1), vec![0x01]);
    assert_eq!(encode(127), vec![0x7f]);
    assert_eq!(encode(128), vec![0x80, 0x01]);
    assert_eq!(encode(255), vec![0xff, 0x01]);
    assert_eq!(encode(25565), vec![0xdd, 0xc7, 0x01]);
    assert_eq!(encode(2097151), vec![0xff, 0xff, 0x7f]);
    assert_eq!(encode(2147483647), vec![0xff, 0xff, 0xff, 0xff, 0x07]);
}

#[test]
fn varint_negative_takes_ten_bytes() {
    assert_eq!(
        encode(-1),
        vec![0xff, 0xff, 0xff, 0xff, 0xff, 0xff, 0xff, 0xff, 0xff, 0x01]
    );
    assert_eq!(VarInt(-1).size(), 10);
    assert_eq!(decode(&encode(-1)), Ok((-1, 10)));
    assert_eq!(decode(&encode(i64::MIN)), Ok((i64::MIN, 10)));
}

#[test]
fn varint_round_trip_and_size() {
    let samples: Vec<i64> = vec![
        0,
        1,
        2,
        127,
        128,
        129,
        300,
        16383,
        16384,
        753,
        25565,
        65535,
        2097151,
        2097152,
        268435455,
        268435456,
        i32::MAX as i64,
        i32::MAX as i64 + 1,
        1 << 35,
        1 << 42,
        1 << 49,
        1 << 56,
        i64::MAX,
        -1,
        -2,
        -128,
        -300,
        i32::MIN as i64,
        i64::MIN,
    ];
    for x in samples {
        let bytes = encode(x);
        assert_eq!(bytes.len(), VarInt(x).size() as usize);
        assert_eq!(decode(&bytes), Ok((x, bytes.len())));
        let mut counted = SizeCalc(0);
        VarInt(x).serialize(&mut counted);
        assert_eq!(counted.0, bytes.len() as u64);
    }
}

#[test]
fn varint_decode_stops_at_first_clear_bit() {
    assert_eq!(decode(&[0x05, 0xff, 0xff]), Ok((5, 1)));
    assert_eq!(decode(&[0x80, 0x00, 0x07]), Ok((0, 2)));
}

#[test]
fn varint_decode_runs_out() {
    assert_eq!(decode(&[]), Err(WireError::UnexpectedEof));
    assert_eq!(decode(&[0x80]), Err(WireError::UnexpectedEof));
    assert_eq!(decode(&[0xff, 0xff, 0xff]), Err(WireError::UnexpectedEof));
}

#[test]
fn varint_overlong_drops_high_bits() {
    // eleven groups: the eleventh lies wholly above bit 63
    let bytes = [0x81, 0x80, 0x80, 0x80, 0x80, 0x80, 0x80, 0x80, 0x80, 0x80, 0x7f];
    assert_eq!(decode(&bytes), Ok((1, 11)));
    // the tenth group keeps only its lowest bit
    let bytes = [0x80, 0x80, 0x80, 0x80, 0x80, 0x80, 0x80, 0x80, 0x80, 0x03];
    assert_eq!(decode(&bytes), Ok((i64::MIN, 10)));
}
