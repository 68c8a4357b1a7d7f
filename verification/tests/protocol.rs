use rsoup::protocol::{
    decode_error, decode_ok, decode_query, decode_resultset, encode_error, encode_ok, encode_query,
    encode_resultset, i32_be, u16_be, u32_be, u64_be, Column, Frame, ProtocolError, ResultSet,
    Value, ERR_PARSE, MAGIC, OP_BEGIN, OP_OK, OP_PING, OP_QUERY, TAG_BOOL, TAG_INT, TAG_TEXT,
    TYPE_BOOL, TYPE_FLOAT, TYPE_INT, TYPE_TEXT, VERSION,
};

fn frame(opcode: u8, payload: Vec<u8>) -> Frame {
    Frame { opcode, payload }
}

#[test]
fn frame_roundtrip() {
    let f = frame(OP_QUERY, encode_query("SELECT 1"));
    assert_eq!(Frame::decode(&f.encode()).unwrap(), f);
}

#[test]
fn frame_layout() {
    let f = frame(OP_BEGIN, vec![]).encode();
    assert_eq!(&f[0..2], b"SP");
    assert_eq!(f[2], VERSION);
    assert_eq!(f[3], OP_BEGIN);
    assert_eq!(u32_be(&f[4..8]), 0);
}

#[test]
fn bad_magic_rejected() {
    let data = b"XX\x01\x06\x00\x00\x00\x00".to_vec();
    assert!(Frame::decode(&data).is_err());
}

#[test]
fn bad_version_rejected() {
    let mut data = MAGIC.to_vec();
    data.push(0x63);
    data.push(OP_PING);
    data.extend_from_slice(&[0, 0, 0, 0]);
    assert!(Frame::decode(&data).is_err());
}

#[test]
fn query_roundtrip() {
    let sql = "SELECT * FROM papers WHERE anio = 2020";
    assert_eq!(decode_query(&encode_query(sql)).unwrap(), sql);
}

#[test]
fn ok_roundtrip() {
    assert_eq!(decode_ok(&encode_ok(42)).unwrap(), 42);
}

#[test]
fn error_roundtrip() {
    let (code, msg) = decode_error(&encode_error(ERR_PARSE, "boom")).unwrap();
    assert_eq!(code, ERR_PARSE);
    assert_eq!(msg, "boom");
}

#[test]
fn resultset_roundtrip() {
    let rs = ResultSet {
        columns: vec![
            Column {
                name: "id".into(),
                type_code: TYPE_INT,
                length: 0,
            },
            Column {
                name: "anio".into(),
                type_code: TYPE_INT,
                length: 0,
            },
            Column {
                name: "titulo".into(),
                type_code: TYPE_TEXT,
                length: 0,
            },
        ],
        rows: vec![
            vec![Value::Int(1), Value::Int(2019), Value::Text("VLDB".into())],
            vec![Value::Int(2), Value::Int(2020), Value::Null],
        ],
    };
    assert_eq!(decode_resultset(&encode_resultset(&rs)).unwrap(), rs);
}

#[test]
fn resultset_all_types() {
    let rs = ResultSet {
        columns: vec![
            Column {
                name: "i".into(),
                type_code: TYPE_INT,
                length: 0,
            },
            Column {
                name: "f".into(),
                type_code: TYPE_FLOAT,
                length: 0,
            },
            Column {
                name: "b".into(),
                type_code: TYPE_BOOL,
                length: 0,
            },
        ],
        rows: vec![vec![
            Value::Int(-5),
            Value::Float(1.5f64.to_bits()),
            Value::Bool(true),
        ]],
    };
    let decoded = decode_resultset(&encode_resultset(&rs)).unwrap();
    assert_eq!(decoded.rows[0][1], Value::Float(1.5f64.to_bits()));
    assert_eq!(decoded.rows[0][2], Value::Bool(true));
}

// ---------------------------------------------------------------------------
// Exact encodings

#[test]
fn frame_encoding_is_exact() {
    let f = frame(0x11, vec![1, 2, 3]);
    assert_eq!(f.encode(), vec![0x53, 0x50, 0x01, 0x11, 0, 0, 0, 3, 1, 2, 3]);
}

#[test]
fn query_encoding_is_exact() {
    assert_eq!(encode_query("ñ"), vec![0, 0, 0, 2, 0xC3, 0xB1]);
    assert_eq!(encode_query(""), vec![0, 0, 0, 0]);
}

#[test]
fn ok_encoding_is_big_endian() {
    assert_eq!(encode_ok(0x0102_0304), vec![1, 2, 3, 4]);
}

#[test]
fn error_encoding_is_exact() {
    assert_eq!(encode_error(5, "ab"), vec![5, 0, 2, b'a', b'b']);
}

#[test]
fn error_message_length_wraps_at_16_bits() {
    let message = "x".repeat(70_000);
    let out = encode_error(1, &message);
    assert_eq!(u16_be(&out[1..3]), (70_000 % 65_536) as u16);
    assert_eq!(out.len(), 3 + 70_000);
}

#[test]
fn resultset_encoding_is_exact() {
    let rs = ResultSet {
        columns: vec![Column {
            name: "a".into(),
            type_code: TYPE_INT,
            length: 7,
        }],
        rows: vec![vec![Value::Int(-1)], vec![Value::Text("hi".into())], vec![Value::Bool(false)]],
    };
    assert_eq!(
        encode_resultset(&rs),
        vec![
            0, 1, // one column
            0, 1, b'a', TYPE_INT, 0, 7, // column a
            0, 0, 0, 3, // three rows
            TAG_INT, 0xFF, 0xFF, 0xFF, 0xFF, // -1
            TAG_TEXT, 0, 2, b'h', b'i', // "hi"
            TAG_BOOL, 0, // false
        ]
    );
}

#[test]
fn big_endian_readers() {
    assert_eq!(u16_be(&[0x12, 0x34]), 0x1234);
    assert_eq!(u32_be(&[0x12, 0x34, 0x56, 0x78, 0x9A]), 0x1234_5678);
    assert_eq!(i32_be(&[0xFF, 0xFF, 0xFF, 0xFE]), -2);
    assert_eq!(i32_be(&[0x80, 0, 0, 0]), i32::MIN);
    assert_eq!(u64_be(&[0x3F, 0xF8, 0, 0, 0, 0, 0, 0]), 1.5f64.to_bits());
}

// ---------------------------------------------------------------------------
// Decoding errors, each with its message

fn err_text<T: std::fmt::Debug>(r: Result<T, ProtocolError>) -> String {
    r.unwrap_err().0
}

#[test]
fn short_frame_message() {
    assert_eq!(
        err_text(Frame::decode(&[0x53, 0x50, 1])),
        "frame shorter than header: 3 bytes"
    );
}

#[test]
fn bad_magic_message() {
    let data = b"XX\x01\x06\x00\x00\x00\x00".to_vec();
    assert_eq!(err_text(Frame::decode(&data)), "bad magic [88, 88]");
}

#[test]
fn bad_version_message() {
    let data = vec![0x53, 0x50, 0x63, OP_PING, 0, 0, 0, 0];
    assert_eq!(err_text(Frame::decode(&data)), "unsupported version 99");
}

#[test]
fn truncated_frame_message() {
    let data = vec![0x53, 0x50, 0x01, OP_OK, 0, 0, 0, 5, 1, 2];
    assert_eq!(err_text(Frame::decode(&data)), "truncated frame: expected 5 bytes");
}

#[test]
fn frame_decode_ignores_trailing_bytes() {
    let data = vec![0x53, 0x50, 0x01, OP_OK, 0, 0, 0, 1, 9, 8, 7];
    assert_eq!(Frame::decode(&data).unwrap(), frame(OP_OK, vec![9]));
}

#[test]
fn short_payload_messages() {
    assert_eq!(err_text(decode_query(&[0, 0])), "query payload too short");
    assert_eq!(err_text(decode_ok(&[0, 0, 0])), "ok payload must be 4 bytes");
    assert_eq!(err_text(decode_ok(&[0, 0, 0, 0, 0])), "ok payload must be 4 bytes");
    assert_eq!(err_text(decode_error(&[1, 0])), "error payload too short");
    assert_eq!(err_text(decode_resultset(&[0])), "resultset payload too short");
}

#[test]
fn invalid_utf8_is_reported_by_the_decoder() {
    let sql = err_text(decode_query(&[0, 0, 0, 1, 0xFF]));
    assert_eq!(sql, "invalid utf-8 sql: invalid utf-8 sequence of 1 bytes from index 0");
    let message = err_text(decode_error(&[1, 0, 2, b'a', 0xC3]));
    assert_eq!(message, "invalid utf-8 error: incomplete utf-8 byte sequence from index 1");
}

#[test]
fn resultset_error_messages() {
    // one column announced, nothing more
    assert_eq!(err_text(decode_resultset(&[0, 1])), "column name length out of bounds");
    // name of 3 bytes announced, 1 present
    assert_eq!(err_text(decode_resultset(&[0, 1, 0, 3, b'a'])), "column name truncated");
    // name, no meta
    assert_eq!(err_text(decode_resultset(&[0, 1, 0, 1, b'a', 1])), "column meta out of bounds");
    // invalid column name
    assert_eq!(
        err_text(decode_resultset(&[0, 1, 0, 1, 0xFF, 1, 0, 0])),
        "invalid utf-8 column name: invalid utf-8 sequence of 1 bytes from index 0"
    );
    // no row count
    assert_eq!(err_text(decode_resultset(&[0, 0, 0, 0])), "rows count out of bounds");
    // one row of one column, no value
    let head = vec![0, 1, 0, 1, b'a', 1, 0, 0, 0, 0, 0, 1];
    assert_eq!(err_text(decode_resultset(&head)), "value tag out of bounds");
    let with = |tail: &[u8]| {
        let mut p = head.clone();
        p.extend_from_slice(tail);
        err_text(decode_resultset(&p))
    };
    assert_eq!(with(&[TAG_INT, 0, 0]), "int value truncated");
    assert_eq!(with(&[2, 0, 0, 0]), "float value truncated");
    assert_eq!(with(&[TAG_TEXT, 0]), "text value truncated");
    assert_eq!(with(&[TAG_TEXT, 0, 4, b'x']), "text value truncated");
    assert_eq!(
        with(&[TAG_TEXT, 0, 1, 0x80]),
        "invalid utf-8 value: invalid utf-8 sequence of 1 bytes from index 0"
    );
    assert_eq!(with(&[TAG_BOOL]), "bool value truncated");
    assert_eq!(with(&[9]), "unknown value tag 9");
}

#[test]
fn decoded_bool_reads_any_nonzero_byte_as_true() {
    let p = vec![0, 1, 0, 1, b'a', TYPE_BOOL, 0, 0, 0, 0, 0, 2, TAG_BOOL, 7, TAG_BOOL, 0];
    let rs = decode_resultset(&p).unwrap();
    assert_eq!(rs.rows, vec![vec![Value::Bool(true)], vec![Value::Bool(false)]]);
}

#[test]
fn resultset_with_no_columns_has_empty_rows() {
    let rs = decode_resultset(&[0, 0, 0, 0, 0, 2]).unwrap();
    assert!(rs.columns.is_empty());
    assert_eq!(rs.rows, vec![Vec::<Value>::new(), Vec::new()]);
}

#[test]
fn protocol_error_sentence() {
    assert_eq!(ProtocolError("x".into()).to_string(), "protocol error: x");
}

#[test]
fn text_roundtrip_with_multibyte_characters() {
    let rs = ResultSet {
        columns: vec![Column {
            name: "título".into(),
            type_code: TYPE_TEXT,
            length: 40,
        }],
        rows: vec![vec![Value::Text("año €".into())]],
    };
    assert_eq!(decode_resultset(&encode_resultset(&rs)).unwrap(), rs);
    let sql = "SELECT 'ñandú'";
    assert_eq!(decode_query(&encode_query(sql)).unwrap(), sql);
}
