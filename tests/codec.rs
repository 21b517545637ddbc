use std::io::Write;

use nemesis::{decode_to_value, decode_with_limit, encode_compressed, encode_value, CodecError, Number, Value};

fn text(s: &str) -> Value {
    Value::Text(s.as_bytes().to_vec())
}

fn uint(u: u64) -> Value {
    Value::Number(Number::UInt(u))
}

fn num(i: i64) -> Value {
    if i >= 0 {
        Value::Number(Number::UInt(i as u64))
    } else {
        Value::Number(Number::Int(i))
    }
}

fn round_trip(v: &Value) -> Value {
    let bytes = encode_value(v).expect("encodable");
    decode_to_value(bytes).expect("decodable")
}

#[test]
fn round_trip_scalars() {
    let values = vec![
        Value::Null,
        Value::Bool(true),
        Value::Bool(false),
        num(0),
        num(-1),
        num(127),
        num(128),
        num(-129),
        num(32767),
        num(32768),
        num(2147483648),
        num(-2147483649),
        num(9007199254740992),
        num(-9007199254740992),
        text(""),
        text("hello, wörld"),
        Value::Number(Number::Float(1.5f64.to_bits())),
    ];
    for v in values.iter() {
        assert_eq!(&round_trip(v), v);
    }
}

#[test]
fn round_trip_containers() {
    let inner = Value::Object(vec![
        (text("name"), text("motd")),
        (text("count"), num(3)),
        (text("tags"), Value::Array(vec![text("a"), Value::Null, Value::Bool(true)])),
    ]);
    let v = Value::Array(vec![inner, Value::Array(vec![]), Value::Object(vec![])]);
    assert_eq!(round_trip(&v), v);
}

#[test]
fn round_trip_long_containers() {
    let arr = Value::Array((0..300).map(|i| num(i)).collect());
    assert_eq!(round_trip(&arr), arr);
    let map = Value::Object((0..300).map(|i| (text(&format!("k{}", i)), num(i))).collect());
    assert_eq!(round_trip(&map), map);
}

#[test]
fn string_tier_boundaries() {
    let s255 = "x".repeat(255);
    let b = encode_value(&text(&s255)).unwrap();
    assert_eq!(b[0], 0x30);
    assert_eq!(b[1], 255);
    assert_eq!(b.len(), 257);

    let s256 = "x".repeat(256);
    let b = encode_value(&text(&s256)).unwrap();
    assert_eq!(b[0], 0x31);
    assert_eq!(&b[1..3], &[0x01, 0x00]);

    let s65535 = "x".repeat(65535);
    let b = encode_value(&text(&s65535)).unwrap();
    assert_eq!(&b[0..3], &[0x31, 0xff, 0xff]);

    let s65536 = "x".repeat(65536);
    assert_eq!(encode_value(&text(&s65536)), Err(CodecError::ValueTooLarge));
}

#[test]
fn container_tier_boundaries() {
    let a255 = Value::Array((0..255).map(|_| Value::Null).collect());
    assert_eq!(&encode_value(&a255).unwrap()[0..2], &[0x50, 0xff]);
    let a256 = Value::Array((0..256).map(|_| Value::Null).collect());
    assert_eq!(&encode_value(&a256).unwrap()[0..3], &[0x51, 0x01, 0x00]);
    let a65536 = Value::Array((0..65536).map(|_| Value::Null).collect());
    assert_eq!(encode_value(&a65536), Err(CodecError::ValueTooLarge));
    let m1 = Value::Object(vec![(text("k"), Value::Null)]);
    assert_eq!(encode_value(&m1).unwrap(), vec![0x60, 1, 0x30, 1, b'k', 0x41]);
}

#[test]
fn numeric_width_selection() {
    assert_eq!(encode_value(&num(127)).unwrap(), vec![0x11, 0x7f]);
    assert_eq!(encode_value(&num(128)).unwrap(), vec![0x13, 0x00, 0x80]);
    assert_eq!(encode_value(&num(255)).unwrap(), vec![0x13, 0x00, 0xff]);
    assert_eq!(encode_value(&num(32767)).unwrap(), vec![0x13, 0x7f, 0xff]);
    assert_eq!(encode_value(&num(32768)).unwrap(), vec![0x15, 0x00, 0x00, 0x80, 0x00]);
    assert_eq!(encode_value(&num(-128)).unwrap(), vec![0x11, 0x80]);
    assert_eq!(encode_value(&num(-129)).unwrap(), vec![0x13, 0xff, 0x7f]);
    assert_eq!(encode_value(&num(2147483647)).unwrap(), vec![0x15, 0x7f, 0xff, 0xff, 0xff]);
    assert_eq!(
        encode_value(&num(2147483648)).unwrap(),
        vec![0x16, 0, 0, 0, 0, 0x80, 0, 0, 0]
    );
    assert_eq!(
        encode_value(&Value::Number(Number::Int(i64::MIN))).unwrap(),
        vec![0x16, 0x80, 0, 0, 0, 0, 0, 0, 0]
    );
    assert_eq!(
        encode_value(&uint(u64::MAX)).unwrap(),
        vec![0x17, 0xff, 0xff, 0xff, 0xff, 0xff, 0xff, 0xff, 0xff]
    );
    assert_eq!(
        encode_value(&Value::Number(Number::Float(1.0f64.to_bits()))).unwrap(),
        vec![0x21, 0x3f, 0xf0, 0, 0, 0, 0, 0, 0]
    );
}

#[test]
fn scalar_tags_decode() {
    assert_eq!(decode_to_value(vec![0x01]).unwrap(), Value::Null);
    assert_eq!(decode_to_value(vec![0x41]).unwrap(), Value::Null);
    assert_eq!(decode_to_value(vec![0x02]).unwrap(), Value::Bool(false));
    assert_eq!(decode_to_value(vec![0x03]).unwrap(), Value::Bool(true));
    assert_eq!(decode_to_value(vec![0x10, 200]).unwrap(), uint(200));
    assert_eq!(decode_to_value(vec![0x11, 0xff]).unwrap(), num(-1));
    assert_eq!(decode_to_value(vec![0x12, 0x01, 0x02]).unwrap(), uint(258));
    assert_eq!(decode_to_value(vec![0x13, 0x80, 0x00]).unwrap(), num(-32768));
    assert_eq!(decode_to_value(vec![0x14, 0xff, 0xff, 0xff, 0xff]).unwrap(), uint(4294967295));
    assert_eq!(decode_to_value(vec![0x15, 0x80, 0, 0, 0]).unwrap(), num(-2147483648));
    assert_eq!(decode_to_value(vec![0x16, 0, 0, 0, 0, 0, 0, 0, 5]).unwrap(), num(5));
    assert_eq!(decode_to_value(vec![0x33, 3, 1, 2, 255]).unwrap(), Value::Array(vec![uint(1), uint(2), uint(255)]));
    assert_eq!(decode_to_value(vec![0x34, 0, 1, 7]).unwrap(), Value::Array(vec![uint(7)]));
    assert_eq!(decode_to_value(vec![0x35, 0, 0, 0, 1, 9]).unwrap(), Value::Array(vec![uint(9)]));
    assert_eq!(decode_to_value(vec![0x30, 2, b'h', b'i', 0xAA]).unwrap(), text("hi"));
}

#[test]
fn lossy_large_integers() {
    let max = decode_to_value(vec![0x17, 0xff, 0xff, 0xff, 0xff, 0xff, 0xff, 0xff, 0xff]).unwrap();
    assert_eq!(max, text("18446744073709551615"));
    // Held exactly by a double: a number.
    let min = decode_to_value(vec![0x16, 0x80, 0, 0, 0, 0, 0, 0, 0]).unwrap();
    assert_eq!(min, num(i64::MIN));
    let top = decode_to_value(vec![0x17, 0x80, 0, 0, 0, 0, 0, 0, 0]).unwrap();
    assert_eq!(top, uint(1u64 << 63));
    assert_eq!(round_trip(&num(1i64 << 60)), num(1i64 << 60));
    assert_eq!(round_trip(&num(-(3i64 << 55))), num(-(3i64 << 55)));
    // Not held exactly: text.
    let odd = decode_to_value(vec![0x16, 0x80, 0, 0, 0, 0, 0, 0, 1]).unwrap();
    assert_eq!(odd, text("-9223372036854775807"));
    let exact = decode_to_value(vec![0x17, 0, 0x20, 0, 0, 0, 0, 0, 0]).unwrap();
    assert_eq!(exact, uint(9007199254740992));
    let beyond = decode_to_value(vec![0x17, 0, 0x20, 0, 0, 0, 0, 0, 1]).unwrap();
    assert_eq!(beyond, text("9007199254740993"));
    // A huge integer that decoded as text encodes back as text.
    assert_eq!(encode_value(&max).unwrap()[0], 0x30);
}

#[test]
fn map_key_coercion() {
    let bytes = vec![0x60, 1, 0x11, 42, 0x30, 1, b'x'];
    assert_eq!(decode_to_value(bytes).unwrap(), Value::Object(vec![(text("42"), text("x"))]));
    let bytes = vec![0x60, 3, 0x03, 0x41, 0x01, 0x11, 0xff, 0x11, 0xff, 0x02];
    assert_eq!(
        decode_to_value(bytes).unwrap(),
        Value::Object(vec![(text("true"), Value::Null), (text("null"), num(-1)), (text("-1"), Value::Bool(false))])
    );
}

#[test]
fn map_duplicate_key_replaces_in_place() {
    let bytes = vec![0x60, 3, 0x30, 1, b'a', 0x11, 1, 0x30, 1, b'b', 0x11, 2, 0x30, 1, b'a', 0x11, 3];
    assert_eq!(
        decode_to_value(bytes).unwrap(),
        Value::Object(vec![(text("a"), num(3)), (text("b"), num(2))])
    );
}

#[test]
fn datetime_as_rfc3339() {
    assert_eq!(decode_to_value(vec![0x40, 0, 0, 0, 0]).unwrap(), text("1970-01-01T00:00:00+00:00"));
    assert_eq!(
        decode_to_value(vec![0x40, 0x65, 0x92, 0x00, 0x80]).unwrap(),
        text("2024-01-01T00:00:00+00:00")
    );
}

#[test]
fn floats_decode() {
    let one = decode_to_value(vec![0x21, 0x3f, 0xf0, 0, 0, 0, 0, 0, 0]).unwrap();
    assert_eq!(one, Value::Number(Number::Float(1.0f64.to_bits())));
    for bits in [0x3f80_0000u32, 0xc049_0fdb, 0x0000_0001, 0x007f_ffff, 0x8000_0000, 0x0000_0000, 0x0040_0000] {
        let b = bits.to_be_bytes();
        let v = decode_to_value(vec![0x20, b[0], b[1], b[2], b[3]]).unwrap();
        assert_eq!(v, Value::Number(Number::Float((f32::from_bits(bits) as f64).to_bits())));
    }
    assert_eq!(decode_to_value(vec![0x20, 0x7f, 0x80, 0, 0]).unwrap(), text("inf"));
    assert_eq!(decode_to_value(vec![0x20, 0xff, 0x80, 0, 0]).unwrap(), text("-inf"));
    assert_eq!(decode_to_value(vec![0x20, 0x7f, 0xc0, 0, 0]).unwrap(), text("NaN"));
    assert_eq!(decode_to_value(vec![0x21, 0x7f, 0xf0, 0, 0, 0, 0, 0, 0]).unwrap(), text("inf"));
    assert_eq!(decode_to_value(vec![0x21, 0xff, 0xf0, 0, 0, 0, 0, 0, 0]).unwrap(), text("-inf"));
    assert_eq!(decode_to_value(vec![0x21, 0x7f, 0xf8, 0, 0, 0, 0, 0, 0]).unwrap(), text("NaN"));
}

#[test]
fn compressed_round_trip() {
    let v = Value::Object(vec![
        (text("greeting"), text(&"hello ".repeat(100))),
        (text("n"), num(-70000)),
        (text("list"), Value::Array((0..50).map(|i| num(i)).collect())),
    ]);
    let bytes = encode_compressed(&v).unwrap();
    assert_eq!(bytes[0], 0x67);
    assert_eq!(bytes[1], 1);
    assert!(bytes.len() < encode_value(&v).unwrap().len());
    assert_eq!(decode_to_value(bytes).unwrap(), v);
}

#[test]
fn compressed_from_another_deflater() {
    let v = Value::Array(vec![text("abc"), num(7)]);
    let plain = encode_value(&v).unwrap();
    let mut enc = flate2::write::ZlibEncoder::new(Vec::new(), flate2::Compression::best());
    enc.write_all(&plain).unwrap();
    let z = enc.finish().unwrap();
    let mut bytes = vec![0x67, 0x09, 0x33, z.len() as u8];
    bytes.extend_from_slice(&z);
    assert_eq!(decode_to_value(bytes).unwrap(), v);
}

#[test]
fn malformed_input_is_an_error() {
    assert_eq!(decode_to_value(vec![]), Err(CodecError::Truncated));
    let full = encode_value(&Value::Object(vec![(text("key"), text("value")), (text("n"), num(70000))])).unwrap();
    for cut in 0..full.len() {
        assert_eq!(decode_to_value(full[..cut].to_vec()), Err(CodecError::Truncated));
    }
    let inexact = encode_value(&Value::Array(vec![num((1i64 << 60) + 1), Value::Number(Number::Float(0.25f64.to_bits()))])).unwrap();
    for cut in 0..inexact.len() {
        assert_eq!(decode_to_value(inexact[..cut].to_vec()), Err(CodecError::Truncated));
    }
    assert_eq!(decode_to_value(vec![0xff]), Err(CodecError::UnknownType(0xff)));
    assert_eq!(decode_to_value(vec![0x50, 1, 0x99]), Err(CodecError::UnknownType(0x99)));
    assert_eq!(decode_to_value(vec![0x30, 2, 0xc3, 0x28]), Err(CodecError::InvalidEncoding));
    assert_eq!(decode_to_value(vec![0x31, 0, 1, 0xff]), Err(CodecError::InvalidEncoding));
    assert_eq!(decode_to_value(vec![0x35, 0xff, 0xff, 0xff, 0xff, 1]), Err(CodecError::Truncated));
    assert_eq!(
        decode_to_value(vec![0x67, 1, 0x33, 4, 1, 2, 3, 4]),
        Err(CodecError::DecompressionFailed)
    );
    assert_eq!(decode_to_value(vec![0x67, 1, 0x41]), Err(CodecError::DecompressionFailed));
    let mut corrupt = encode_compressed(&text(&"abc".repeat(50))).unwrap();
    let last = corrupt.len() - 1;
    corrupt[last] ^= 0xff;
    assert_eq!(decode_to_value(corrupt), Err(CodecError::DecompressionFailed));
}

#[test]
fn depth_guard() {
    let mut deep = Vec::new();
    for _ in 0..10_000 {
        deep.push(0x50);
        deep.push(1);
    }
    deep.push(0x41);
    assert_eq!(decode_to_value(deep), Err(CodecError::DepthExceeded));

    let nest = |n: usize| {
        let mut b = Vec::new();
        for _ in 0..n {
            b.push(0x50);
            b.push(1);
        }
        b.push(0x41);
        b
    };
    assert!(decode_with_limit(nest(3), 3).is_ok());
    assert_eq!(decode_with_limit(nest(4), 3), Err(CodecError::DepthExceeded));
    assert_eq!(decode_with_limit(vec![0x60, 0], 0), Err(CodecError::DepthExceeded));
    assert_eq!(decode_with_limit(vec![0x41], 0), Ok(Value::Null));
}

fn key_of(key: Vec<u8>) -> Value {
    let mut bytes = vec![0x60, 1];
    bytes.extend_from_slice(&key);
    bytes.push(0x41);
    match decode_to_value(bytes).unwrap() {
        Value::Object(m) => {
            assert_eq!(m.len(), 1);
            m.into_iter().next().unwrap().0
        }
        other => panic!("not a map: {:?}", other),
    }
}

#[test]
fn composite_keys_stay_values() {
    assert_eq!(
        key_of(vec![0x50, 2, 0x11, 1, 0x30, 3, b'a', b'"', b'b']),
        Value::Array(vec![num(1), text("a\"b")])
    );
    assert_eq!(key_of(vec![0x60, 1, 0x30, 1, b'k', 0x03]), Value::Object(vec![(text("k"), Value::Bool(true))]));
    assert_eq!(key_of(vec![0x50, 0]), Value::Array(vec![]));
    assert_eq!(key_of(vec![0x02]), text("false"));
    assert_eq!(key_of(vec![0x41]), text("null"));
    assert_eq!(key_of(vec![0x13, 0xff, 0x00]), text("-256"));
}

#[test]
fn float_keys_keep_their_bits() {
    let key = |f: f64| {
        let mut k = vec![0x21];
        k.extend_from_slice(&f.to_bits().to_be_bytes());
        key_of(k)
    };
    for f in [1.5f64, 0.5, -42.0, 0.0, -0.0, 9007199254740992.0, 1e300] {
        assert_eq!(key(f), Value::Number(Number::Float(f.to_bits())));
    }
}

#[test]
fn equal_float_and_composite_keys_merge() {
    let mut one = vec![0x21];
    one.extend_from_slice(&1.5f64.to_bits().to_be_bytes());
    let mut bytes = vec![0x60, 4];
    bytes.extend_from_slice(&one);
    bytes.extend_from_slice(&[0x11, 1]);
    bytes.extend_from_slice(&[0x50, 1, 0x11, 7, 0x11, 2]);
    bytes.extend_from_slice(&one);
    bytes.extend_from_slice(&[0x11, 3]);
    bytes.extend_from_slice(&[0x50, 1, 0x11, 7, 0x11, 4]);
    assert_eq!(
        decode_to_value(bytes).unwrap(),
        Value::Object(vec![
            (Value::Number(Number::Float(1.5f64.to_bits())), num(3)),
            (Value::Array(vec![num(7)]), num(4)),
        ])
    );
}

#[test]
fn value_keys_round_trip() {
    let v = Value::Object(vec![
        (Value::Number(Number::Float(2.5f64.to_bits())), text("f")),
        (Value::Array(vec![num(1)]), text("a")),
        (text("t"), Value::Null),
    ]);
    assert_eq!(round_trip(&v), v);
}

#[test]
fn utf8_validity_of_text() {
    for s in ["€", "😀", "aé€😀", "\u{7f}", "\u{10ffff}"] {
        let v = text(s);
        assert_eq!(round_trip(&v), v);
    }
    let bad: [&[u8]; 7] = [
        &[0xed, 0xa0, 0x80],
        &[0xc0, 0x80],
        &[0xe0, 0x80, 0x80],
        &[0xf4, 0x90, 0x80, 0x80],
        &[0xf5, 0x80, 0x80, 0x80],
        &[0xe2, 0x82],
        &[0x80],
    ];
    for b in bad.iter() {
        let mut bytes = vec![0x30, b.len() as u8];
        bytes.extend_from_slice(b);
        assert_eq!(decode_to_value(bytes), Err(CodecError::InvalidEncoding));
    }
}

#[test]
fn depth_guard_deep_input_returns() {
    let mut deep = Vec::new();
    for _ in 0..1_000_000 {
        deep.push(0x50);
        deep.push(1);
    }
    deep.push(0x01);
    assert_eq!(decode_to_value(deep), Err(CodecError::DepthExceeded));
    let nested = decode_with_limit(vec![0x50, 1, 0x50, 1, 0x01], 2).unwrap();
    assert_eq!(nested, Value::Array(vec![Value::Array(vec![Value::Null])]));
}

#[test]
fn compressed_any_marker_and_tier() {
    let v = Value::Object(vec![(text("k"), num(1i64 << 60))]);
    let plain = encode_value(&v).unwrap();
    let mut enc = flate2::write::ZlibEncoder::new(Vec::new(), flate2::Compression::fast());
    enc.write_all(&plain).unwrap();
    let z = enc.finish().unwrap();
    let mut two = vec![0x67, 0x00, 0x34];
    two.extend_from_slice(&(z.len() as u16).to_be_bytes());
    two.extend_from_slice(&z);
    two.push(0xEE);
    assert_eq!(decode_to_value(two).unwrap(), v);
    let mut four = vec![0x67, 0xFF, 0x35];
    four.extend_from_slice(&(z.len() as u32).to_be_bytes());
    four.extend_from_slice(&z);
    assert_eq!(decode_to_value(four).unwrap(), v);
}

#[test]
fn decode_stops_after_one_value() {
    let v = Value::Array(vec![num(5), text("x")]);
    let mut bytes = encode_value(&v).unwrap();
    bytes.extend_from_slice(&[0xff, 0xff]);
    assert_eq!(decode_to_value(bytes).unwrap(), v);
}
