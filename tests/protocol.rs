use nemesis::{BinaryProtocol, BinaryRequest, CodecError, Value};

#[test]
fn fixed_width_reads() {
    let mut p = BinaryProtocol::new();
    p.set_buffer(vec![0x12, 0x01, 0x02, 0xff, 0xff, 0xff, 0xfe, 0x80, 0, 0, 0, 0, 0, 0, 0, 0x7f]);
    assert_eq!(p.read_type(), Ok(0x12));
    assert_eq!(p.read_u2(), Ok(0x0102));
    assert_eq!(p.read_s4(), Ok(-2));
    assert_eq!(p.read_s8(), Ok(i64::MIN));
    assert_eq!(p.read_s1(), Ok(0x7f));
    assert_eq!(p.read_u1(), Err(CodecError::Truncated));
}

#[test]
fn fixed_width_writes() {
    let mut p = BinaryProtocol::new();
    p.write_u1(1).unwrap();
    p.write_u2(0x0203).unwrap();
    p.write_u4(0x0405_0607).unwrap();
    p.write_s1(-1).unwrap();
    p.write_s2(-2).unwrap();
    p.write_s4(-3).unwrap();
    p.write_s8(-4).unwrap();
    p.write_u8(0x0102_0304_0506_0708).unwrap();
    assert_eq!(
        p.get_buffer(),
        vec![
            1, 2, 3, 4, 5, 6, 7, 0xff, 0xff, 0xfe, 0xff, 0xff, 0xff, 0xfd, 0xff, 0xff, 0xff, 0xff, 0xff, 0xff,
            0xff, 0xfc, 1, 2, 3, 4, 5, 6, 7, 8
        ]
    );
    let mut q = BinaryProtocol::new();
    q.set_buffer(p.get_buffer());
    assert_eq!(q.read_u1(), Ok(1));
    assert_eq!(q.read_u2(), Ok(0x0203));
    assert_eq!(q.read_u4(), Ok(0x0405_0607));
    assert_eq!(q.read_s1(), Ok(-1));
    assert_eq!(q.read_s2(), Ok(-2));
    assert_eq!(q.read_s4(), Ok(-3));
    assert_eq!(q.read_s8(), Ok(-4));
    assert_eq!(q.read_u8(), Ok(0x0102_0304_0506_0708));
}

#[test]
fn length_prefixed_runs() {
    let mut p = BinaryProtocol::new();
    p.set_buffer(vec![2, b'o', b'k', 0, 1, 0xAB, 0, 0, 0, 2, 9, 8, 3, b'a']);
    assert_eq!(p.read_string(), Ok(b"ok".to_vec()));
    assert_eq!(p.read_binary_data_u2(), Ok(vec![0xAB]));
    assert_eq!(p.read_binary_data_u4(), Ok(vec![9, 8]));
    assert_eq!(p.read_binary_data_u1(), Err(CodecError::Truncated));
}

#[test]
fn string_writers_enforce_their_tier() {
    let mut p = BinaryProtocol::new();
    assert_eq!(p.write_string(&[b'a'; 256]), Err(CodecError::ValueTooLarge));
    assert_eq!(p.write_long_string(&vec![b'a'; 65536]), Err(CodecError::ValueTooLarge));
    assert!(p.get_buffer().is_empty());
    p.write_string(b"ab").unwrap();
    p.write_long_string(b"c").unwrap();
    assert_eq!(p.get_buffer(), vec![2, b'a', b'b', 0, 1, b'c']);
    let mut q = BinaryProtocol::new();
    q.set_buffer(p.get_buffer());
    assert_eq!(q.read_string(), Ok(b"ab".to_vec()));
    assert_eq!(q.read_long_string(), Ok(b"c".to_vec()));
}

#[test]
fn container_bodies() {
    let mut p = BinaryProtocol::new();
    p.write_array(&[Value::Null, Value::Bool(true)]).unwrap();
    p.write_map(&[(Value::Text(b"k".to_vec()), Value::Null)]).unwrap();
    assert_eq!(p.get_buffer(), vec![2, 0x41, 0x03, 1, 0x30, 1, b'k', 0x41]);
    let many: Vec<Value> = (0..256).map(|_| Value::Null).collect();
    let mut q = BinaryProtocol::new();
    assert_eq!(q.write_array(&many), Err(CodecError::ValueTooLarge));
    q.write_long_array(&many).unwrap();
    assert_eq!(&q.get_buffer()[0..3], &[0x01, 0x00, 0x41]);
    let mut r = BinaryProtocol::new();
    r.set_buffer(q.get_buffer());
    assert_eq!(r.read_long_array(4).unwrap().len(), 256);
}

#[test]
fn encode_json_resets_the_buffer() {
    let mut p = BinaryProtocol::new();
    p.write_u1(9).unwrap();
    assert_eq!(p.encode_json(&Value::Bool(true)), Ok(vec![0x03]));
    p.set_buffer(vec![0x03]);
    assert_eq!(p.decode_to_json(), Ok(Value::Bool(true)));
}

#[test]
fn request_wrapper_hands_back_its_body() {
    assert_eq!(BinaryRequest(5u8).into_inner(), 5);
}

#[test]
fn error_messages() {
    assert_eq!(CodecError::Truncated.message(), "input ended in the middle of a value");
    assert_eq!(CodecError::UnknownType(3).message(), "unknown type tag");
}

#[test]
fn default_is_empty() {
    let mut p = BinaryProtocol::default();
    assert!(p.get_buffer().is_empty());
    assert_eq!(p.read_value(), Err(CodecError::Truncated));
    p.write_value(&Value::Array(vec![Value::Null])).unwrap();
    assert_eq!(p.get_buffer(), vec![0x50, 1, 0x41]);
    p.reset();
    assert!(p.get_buffer().is_empty());
}

#[test]
fn compressed_body_on_the_cursor() {
    let mut p = BinaryProtocol::new();
    p.write_compressed(&Value::Bool(true)).unwrap();
    let bytes = p.get_buffer();
    let mut q = BinaryProtocol::new();
    q.set_buffer(bytes[1..].to_vec());
    assert_eq!(q.read_compressed(1), Ok(Value::Bool(true)));
}

#[test]
fn failed_compressed_write_leaves_buffer() {
    let mut p = BinaryProtocol::new();
    p.write_u1(7).unwrap();
    let big = Value::Text(vec![b'a'; 65536]);
    assert_eq!(p.write_compressed(&big), Err(CodecError::ValueTooLarge));
    assert_eq!(p.get_buffer(), vec![7]);
}

#[test]
fn encode_json_buffer_holds_result() {
    let mut p = BinaryProtocol::new();
    p.write_u1(7).unwrap();
    let out = p.encode_json(&Value::Array(vec![Value::Bool(false)])).unwrap();
    assert_eq!(out, vec![0x50, 1, 0x02]);
    assert_eq!(p.get_buffer(), out);
}

#[test]
fn depth_guard_mid_buffer() {
    let mut bytes = vec![0x03];
    for _ in 0..5 {
        bytes.push(0x50);
        bytes.push(1);
    }
    bytes.push(0x01);
    bytes.push(0x41);
    let mut p = BinaryProtocol::new();
    p.set_buffer(bytes.clone());
    assert_eq!(p.read_value_limited(4), Ok(Value::Bool(true)));
    assert_eq!(p.read_value_limited(4), Err(CodecError::DepthExceeded));
    let mut q = BinaryProtocol::new();
    q.set_buffer(bytes);
    assert_eq!(q.read_value_limited(5), Ok(Value::Bool(true)));
    let mut nested = Value::Null;
    for _ in 0..5 {
        nested = Value::Array(vec![nested]);
    }
    assert_eq!(q.read_value_limited(5), Ok(nested));
    assert_eq!(q.read_value_limited(5), Ok(Value::Null));
}
