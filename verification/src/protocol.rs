//! Binary protocol v1 between the SoupDB server and this driver.
//!
//! Frame: magic "SP" (2 bytes) | version 0x01 (1 byte) | opcode (1 byte) |
//! payload length, u32 big-endian (4 bytes) | payload (that many bytes).
//! Every integer on the wire is big-endian.

use vstd::prelude::*;
use vstd::string::*;
use vstd::utf8::*;
use vstd::slice::slice_to_vec;
use crate::text::{decimal, decimal_string, utf8_error_text, utf8_to_string};

verus! {

/// Frame magic: "SP".
pub const MAGIC: [u8; 2] = [0x53, 0x50];
/// Protocol version.
pub const VERSION: u8 = 0x01;
/// Size of the frame header, payload excluded.
pub const HEADER_SIZE: usize = 8;

// Request opcodes
pub const OP_PING: u8 = 0x01;
pub const OP_BEGIN: u8 = 0x03;
pub const OP_COMMIT: u8 = 0x04;
pub const OP_ROLLBACK: u8 = 0x05;
pub const OP_QUERY: u8 = 0x06;
// Response opcodes
pub const OP_PONG: u8 = 0x02;
pub const OP_OK: u8 = 0x10;
pub const OP_RESULT: u8 = 0x11;
pub const OP_ERROR: u8 = 0x12;

// Value tags
pub const TAG_NULL: u8 = 0x00;
pub const TAG_INT: u8 = 0x01;
pub const TAG_FLOAT: u8 = 0x02;
pub const TAG_TEXT: u8 = 0x03;
pub const TAG_BOOL: u8 = 0x04;

// Column type codes
pub const TYPE_INT: u8 = 0x01;
pub const TYPE_FLOAT: u8 = 0x02;
pub const TYPE_VARCHAR: u8 = 0x03;
pub const TYPE_TEXT: u8 = 0x04;
pub const TYPE_BOOL: u8 = 0x05;

// Error codes
pub const ERR_GENERIC: u8 = 0x00;
pub const ERR_PARSE: u8 = 0x01;
pub const ERR_EXECUTION: u8 = 0x02;
pub const ERR_TRANSACTION: u8 = 0x03;
pub const ERR_LOCK_TIMEOUT: u8 = 0x04;
pub const ERR_DEADLOCK: u8 = 0x05;

/// Protocol error: what was wrong with the bytes, in words.
#[derive(Debug, Clone, PartialEq, Eq)]
pub struct ProtocolError(pub String);

impl ProtocolError {
    /// The error as a sentence: `protocol error: <what>`.
    pub fn to_string(&self) -> (s: String)
        ensures
            s@ == "protocol error: "@ + self.0@,
    {
        let mut s = String::from_str("protocol error: ");
        s.append(self.0.as_str());
        s
    }
}

// ---------------------------------------------------------------------------
// Big-endian integers

/// The unsigned value of the first two bytes, big-endian.
pub open spec fn be_u16(s: Seq<u8>) -> u16 {
    (s[0] as int * 0x100 + s[1] as int) as u16
}

/// The unsigned value of the first four bytes, big-endian.
pub open spec fn be_u32(s: Seq<u8>) -> u32 {
    (((s[0] as int * 0x100 + s[1] as int) * 0x100 + s[2] as int) * 0x100 + s[3] as int) as u32
}

/// The unsigned value of the first eight bytes, big-endian.
pub open spec fn be_u64(s: Seq<u8>) -> u64 {
    (be_u32(s) as int * 0x1_0000_0000 + be_u32(s.subrange(4, 8)) as int) as u64
}

/// The two's-complement reading of 32 bits.
pub open spec fn i32_from_bits(u: u32) -> i32 {
    if u < 0x8000_0000 {
        u as i32
    } else {
        (u - 0x1_0000_0000) as i32
    }
}

/// The 32 bits of an `i32` in two's complement.
pub open spec fn i32_bits(i: i32) -> u32 {
    if i >= 0 {
        i as u32
    } else {
        (i + 0x1_0000_0000) as u32
    }
}

/// The two big-endian bytes of `v`.
pub open spec fn u16_be_bytes(v: u16) -> Seq<u8> {
    seq![(v / 0x100) as u8, (v % 0x100) as u8]
}

/// The four big-endian bytes of `v`.
pub open spec fn u32_be_bytes(v: u32) -> Seq<u8> {
    seq![
        (v / 0x100_0000) as u8,
        (v / 0x1_0000 % 0x100) as u8,
        (v / 0x100 % 0x100) as u8,
        (v % 0x100) as u8,
    ]
}

/// The eight big-endian bytes of `v`.
pub open spec fn u64_be_bytes(v: u64) -> Seq<u8> {
    u32_be_bytes((v / 0x1_0000_0000) as u32) + u32_be_bytes((v % 0x1_0000_0000) as u32)
}

/// A length as it is written in a 16-bit field: reduced modulo 2^16.
pub open spec fn len16(n: nat) -> u16 {
    (n % 0x1_0000) as u16
}

/// A length as it is written in a 32-bit field: reduced modulo 2^32.
pub open spec fn len32(n: nat) -> u32 {
    (n % 0x1_0000_0000) as u32
}

/// Reading back the two big-endian bytes of `v` gives `v`.
pub proof fn lemma_u16_roundtrip(v: u16)
    ensures
        be_u16(u16_be_bytes(v)) == v,
        u16_be_bytes(v).len() == 2,
{
}

/// Reading back the four big-endian bytes of `v` gives `v`.
pub proof fn lemma_u32_roundtrip(v: u32)
    ensures
        be_u32(u32_be_bytes(v)) == v,
        u32_be_bytes(v).len() == 4,
{
}

/// Reading back the eight big-endian bytes of `v` gives `v`.
pub proof fn lemma_u64_roundtrip(v: u64)
    ensures
        be_u64(u64_be_bytes(v)) == v,
        u64_be_bytes(v).len() == 8,
{
    let hi = (v / 0x1_0000_0000) as u32;
    let lo = (v % 0x1_0000_0000) as u32;
    lemma_u32_roundtrip(hi);
    lemma_u32_roundtrip(lo);
    let s = u64_be_bytes(v);
    assert(s.subrange(0, 4) =~= u32_be_bytes(hi));
    assert(s.subrange(4, 8) =~= u32_be_bytes(lo));
    assert(be_u32(s) == be_u32(s.subrange(0, 4)));
}

/// Reading the two's-complement bits of `i` gives `i`.
pub proof fn lemma_i32_bits_roundtrip(i: i32)
    ensures
        i32_from_bits(i32_bits(i)) == i,
{
}

/// Reads a big-endian `u16` from the first two bytes.
pub fn u16_be(bytes: &[u8]) -> (v: u16)
    requires
        bytes@.len() >= 2,
    ensures
        v == be_u16(bytes@),
{
    (bytes[0] as u16) * 0x100 + (bytes[1] as u16)
}

/// Reads a big-endian `u32` from the first four bytes.
pub fn u32_be(bytes: &[u8]) -> (v: u32)
    requires
        bytes@.len() >= 4,
    ensures
        v == be_u32(bytes@),
{
    (((bytes[0] as u32) * 0x100 + (bytes[1] as u32)) * 0x100 + (bytes[2] as u32)) * 0x100
        + (bytes[3] as u32)
}

/// Reads a big-endian `i32` (two's complement) from the first four bytes.
pub fn i32_be(bytes: &[u8]) -> (v: i32)
    requires
        bytes@.len() >= 4,
    ensures
        v == i32_from_bits(be_u32(bytes@)),
{
    let u = u32_be(bytes);
    if u < 0x8000_0000 {
        u as i32
    } else {
        ((u - 0x8000_0000) as i32) - 0x7fff_ffff - 1
    }
}

/// Reads a big-endian `u64` from the first eight bytes.
pub fn u64_be(bytes: &[u8]) -> (v: u64)
    requires
        bytes@.len() >= 8,
    ensures
        v == be_u64(bytes@),
{
    let hi = u32_be(bytes);
    let lo = u32_be(&bytes[4..8]);
    (hi as u64) * 0x1_0000_0000 + (lo as u64)
}

fn push_u16(out: &mut Vec<u8>, v: u16)
    ensures
        final(out)@ == old(out)@ + u16_be_bytes(v),
{
    out.push((v / 0x100) as u8);
    out.push((v % 0x100) as u8);
    assert(final(out)@ =~= old(out)@ + u16_be_bytes(v));
}

fn push_u32(out: &mut Vec<u8>, v: u32)
    ensures
        final(out)@ == old(out)@ + u32_be_bytes(v),
{
    out.push((v / 0x100_0000) as u8);
    out.push((v / 0x1_0000 % 0x100) as u8);
    out.push((v / 0x100 % 0x100) as u8);
    out.push((v % 0x100) as u8);
    assert(final(out)@ =~= old(out)@ + u32_be_bytes(v));
}

fn push_u64(out: &mut Vec<u8>, v: u64)
    ensures
        final(out)@ == old(out)@ + u64_be_bytes(v),
{
    let ghost start = out@;
    push_u32(out, (v / 0x1_0000_0000) as u32);
    push_u32(out, (v % 0x1_0000_0000) as u32);
    assert(out@ =~= start + u64_be_bytes(v));
}

fn push_bytes(out: &mut Vec<u8>, bytes: &[u8])
    ensures
        final(out)@ == old(out)@ + bytes@,
{
    out.extend_from_slice(bytes);
}

// ---------------------------------------------------------------------------
// Frames

/// A complete frame of the wire.
#[derive(Debug, Clone, PartialEq, Eq)]
pub struct Frame {
    pub opcode: u8,
    pub payload: Vec<u8>,
}

/// The bytes of a frame: magic, version, opcode, payload length modulo 2^32
/// (big-endian), then the payload.
pub open spec fn frame_bytes(opcode: u8, payload: Seq<u8>) -> Seq<u8> {
    seq![0x53u8, 0x50u8, VERSION, opcode] + u32_be_bytes(len32(payload.len())) + payload
}

/// The text `[a, b]` with both bytes in decimal (the `Debug` form of a 2-byte slice).
pub open spec fn byte_pair_text(a: u8, b: u8) -> Seq<char> {
    "["@ + decimal(a as nat) + ", "@ + decimal(b as nat) + "]"@
}

/// The payload length that a frame header announces.
pub open spec fn announced_len(data: Seq<u8>) -> u32 {
    be_u32(data.subrange(4, 8))
}

/// What decoding `data` as one frame gives: the opcode and payload, or the
/// message of the first check that fails. Bytes after the announced payload
/// are ignored.
pub open spec fn frame_decode(data: Seq<u8>) -> Result<(u8, Seq<u8>), Seq<char>> {
    if data.len() < HEADER_SIZE {
        Err("frame shorter than header: "@ + decimal(data.len()) + " bytes"@)
    } else if data[0] != MAGIC[0] || data[1] != MAGIC[1] {
        Err("bad magic "@ + byte_pair_text(data[0], data[1]))
    } else if data[2] != VERSION {
        Err("unsupported version "@ + decimal(data[2] as nat))
    } else if data.len() - HEADER_SIZE < announced_len(data) {
        Err("truncated frame: expected "@ + decimal(announced_len(data) as nat) + " bytes"@)
    } else {
        Ok((data[3], data.subrange(8, 8 + announced_len(data))))
    }
}

pub(crate) fn byte_pair_string(a: u8, b: u8) -> (s: String)
    ensures
        s@ == byte_pair_text(a, b),
{
    let mut s = String::from_str("[");
    let x = decimal_string(a as u64);
    s.append(x.as_str());
    s.append(", ");
    let y = decimal_string(b as u64);
    s.append(y.as_str());
    s.append("]");
    s
}

impl Frame {
    /// Encodes the frame to bytes. A payload longer than `u32::MAX` bytes has
    /// its length written modulo 2^32.
    pub fn encode(&self) -> (out: Vec<u8>)
        ensures
            out@ == frame_bytes(self.opcode, self.payload@),
    {
        let mut out: Vec<u8> = Vec::new();
        out.push(MAGIC[0]);
        out.push(MAGIC[1]);
        out.push(VERSION);
        out.push(self.opcode);
        push_u32(&mut out, (self.payload.len() as u64 % 0x1_0000_0000) as u32);
        push_bytes(&mut out, self.payload.as_slice());
        assert(out@ =~= frame_bytes(self.opcode, self.payload@));
        out
    }

    /// Decodes one complete frame from the start of a buffer.
    pub fn decode(data: &[u8]) -> (res: Result<Frame, ProtocolError>)
        ensures
            match res {
                Ok(f) => frame_decode(data@) == Ok::<(u8, Seq<u8>), Seq<char>>((f.opcode, f.payload@)),
                Err(e) => frame_decode(data@) == Err::<(u8, Seq<u8>), Seq<char>>(e.0@),
            },
    {
        if data.len() < HEADER_SIZE {
            let mut m = String::from_str("frame shorter than header: ");
            let n = decimal_string(data.len() as u64);
            m.append(n.as_str());
            m.append(" bytes");
            return Err(ProtocolError(m));
        }
        if data[0] != MAGIC[0] || data[1] != MAGIC[1] {
            let mut m = String::from_str("bad magic ");
            let pair = byte_pair_string(data[0], data[1]);
            m.append(pair.as_str());
            return Err(ProtocolError(m));
        }
        let version = data[2];
        if version != VERSION {
            let mut m = String::from_str("unsupported version ");
            let v = decimal_string(version as u64);
            m.append(v.as_str());
            return Err(ProtocolError(m));
        }
        let opcode = data[3];
        let length = u32_be(&data[4..8]);
        if ((data.len() - HEADER_SIZE) as u64) < (length as u64) {
            let mut m = String::from_str("truncated frame: expected ");
            let n = decimal_string(length as u64);
            m.append(n.as_str());
            m.append(" bytes");
            return Err(ProtocolError(m));
        }
        let end = HEADER_SIZE + length as usize;
        let payload = slice_to_vec(&data[HEADER_SIZE..end]);
        Ok(Frame { opcode, payload })
    }
}

/// Encoding then decoding a frame gives it back, when its payload length fits
/// the 32-bit length field.
pub proof fn lemma_frame_roundtrip(opcode: u8, payload: Seq<u8>)
    requires
        payload.len() <= u32::MAX,
    ensures
        frame_decode(frame_bytes(opcode, payload)) == Ok::<(u8, Seq<u8>), Seq<char>>((opcode, payload)),
{
    let d = frame_bytes(opcode, payload);
    lemma_u32_roundtrip(len32(payload.len()));
    assert(d.subrange(4, 8) =~= u32_be_bytes(len32(payload.len())));
    assert(d.subrange(8, 8 + payload.len() as int) =~= payload);
}

/// A decoded frame re-encodes to the bytes it was read from: the decoder
/// accepts only the canonical encoding, followed by any trailing bytes.
pub proof fn lemma_frame_decode_canonical(data: Seq<u8>)
    ensures
        frame_decode(data) matches Ok((op, payload)) ==>
            data.subrange(0, frame_bytes(op, payload).len() as int) == frame_bytes(op, payload),
{
    if let Ok((op, payload)) = frame_decode(data) {
        let h = data.subrange(4, 8);
        let n = be_u32(h);
        assert(u32_be_bytes(n) =~= h);
        assert(len32(payload.len()) == n);
        assert(data.subrange(0, frame_bytes(op, payload).len() as int) =~= frame_bytes(op, payload));
    }
}

// ---------------------------------------------------------------------------
// QUERY, OK and ERROR payloads

/// The QUERY payload of `sql`: its UTF-8 length modulo 2^32 (u32 big-endian),
/// then its UTF-8 bytes.
pub open spec fn query_bytes(sql: Seq<char>) -> Seq<u8> {
    u32_be_bytes(len32(encode_utf8(sql).len())) + encode_utf8(sql)
}

/// A QUERY payload whose announced length does not reach past its end. On other
/// payloads of at least four bytes, slicing the text would go out of bounds.
pub open spec fn query_payload_complete(p: Seq<u8>) -> bool {
    p.len() >= 4 ==> be_u32(p) <= p.len() - 4
}

/// What decoding a QUERY payload gives.
pub open spec fn query_decode(p: Seq<u8>) -> Result<Seq<char>, Seq<char>> {
    if p.len() < 4 {
        Err("query payload too short"@)
    } else {
        let text = p.subrange(4, 4 + be_u32(p));
        if valid_utf8(text) {
            Ok(decode_utf8(text))
        } else {
            Err("invalid utf-8 sql: "@ + utf8_error_text(text))
        }
    }
}

/// Payload of QUERY.
pub fn encode_query(sql: &str) -> (out: Vec<u8>)
    ensures
        out@ == query_bytes(sql@),
{
    let bytes = sql.as_bytes();
    let mut out: Vec<u8> = Vec::new();
    push_u32(&mut out, (bytes.len() as u64 % 0x1_0000_0000) as u32);
    push_bytes(&mut out, bytes);
    assert(out@ =~= query_bytes(sql@));
    out
}

/// Decodes a QUERY payload into its SQL text.
pub fn decode_query(payload: &[u8]) -> (res: Result<String, ProtocolError>)
    requires
        query_payload_complete(payload@),
    ensures
        match res {
            Ok(sql) => query_decode(payload@) == Ok::<Seq<char>, Seq<char>>(sql@),
            Err(e) => query_decode(payload@) == Err::<Seq<char>, Seq<char>>(e.0@),
        },
{
    if payload.len() < 4 {
        return Err(ProtocolError(String::from_str("query payload too short")));
    }
    let length = u32_be(payload) as usize;
    let text = &payload[4..4 + length];
    match utf8_to_string(text) {
        Ok(sql) => Ok(sql),
        Err(e) => {
            let mut m = String::from_str("invalid utf-8 sql: ");
            m.append(e.as_str());
            Err(ProtocolError(m))
        },
    }
}

/// What decoding an OK payload gives.
pub open spec fn ok_decode(p: Seq<u8>) -> Result<u32, Seq<char>> {
    if p.len() != 4 {
        Err("ok payload must be 4 bytes"@)
    } else {
        Ok(be_u32(p))
    }
}

/// Payload of OK.
pub fn encode_ok(affected: u32) -> (out: Vec<u8>)
    ensures
        out@ == u32_be_bytes(affected),
{
    let mut out: Vec<u8> = Vec::new();
    push_u32(&mut out, affected);
    assert(out@ =~= u32_be_bytes(affected));
    out
}

/// Decodes an OK payload into the number of affected rows.
pub fn decode_ok(payload: &[u8]) -> (res: Result<u32, ProtocolError>)
    ensures
        match res {
            Ok(n) => ok_decode(payload@) == Ok::<u32, Seq<char>>(n),
            Err(e) => ok_decode(payload@) == Err::<u32, Seq<char>>(e.0@),
        },
{
    if payload.len() != 4 {
        return Err(ProtocolError(String::from_str("ok payload must be 4 bytes")));
    }
    Ok(u32_be(payload))
}

/// The ERROR payload: the code, the UTF-8 length of the message modulo 2^16
/// (u16 big-endian), then the message's UTF-8 bytes.
pub open spec fn error_bytes(code: u8, message: Seq<char>) -> Seq<u8> {
    seq![code] + u16_be_bytes(len16(encode_utf8(message).len())) + encode_utf8(message)
}

/// An ERROR payload whose announced message length does not reach past its end.
/// On other payloads of at least three bytes, slicing the message would go out
/// of bounds.
pub open spec fn error_payload_complete(p: Seq<u8>) -> bool {
    p.len() >= 3 ==> be_u16(p.subrange(1, 3)) <= p.len() - 3
}

/// What decoding an ERROR payload gives: the code and the message.
pub open spec fn error_decode(p: Seq<u8>) -> Result<(u8, Seq<char>), Seq<char>> {
    if p.len() < 3 {
        Err("error payload too short"@)
    } else {
        let text = p.subrange(3, 3 + be_u16(p.subrange(1, 3)));
        if valid_utf8(text) {
            Ok((p[0], decode_utf8(text)))
        } else {
            Err("invalid utf-8 error: "@ + utf8_error_text(text))
        }
    }
}

/// Payload of ERROR.
pub fn encode_error(code: u8, message: &str) -> (out: Vec<u8>)
    ensures
        out@ == error_bytes(code, message@),
{
    let bytes = message.as_bytes();
    let mut out: Vec<u8> = Vec::new();
    out.push(code);
    push_u16(&mut out, (bytes.len() % 0x1_0000) as u16);
    push_bytes(&mut out, bytes);
    assert(out@ =~= error_bytes(code, message@));
    out
}

/// Decodes an ERROR payload into its code and message.
pub fn decode_error(payload: &[u8]) -> (res: Result<(u8, String), ProtocolError>)
    requires
        error_payload_complete(payload@),
    ensures
        match res {
            Ok((code, message)) => error_decode(payload@) == Ok::<(u8, Seq<char>), Seq<char>>((code, message@)),
            Err(e) => error_decode(payload@) == Err::<(u8, Seq<char>), Seq<char>>(e.0@),
        },
{
    if payload.len() < 3 {
        return Err(ProtocolError(String::from_str("error payload too short")));
    }
    let code = payload[0];
    let length = u16_be(&payload[1..3]) as usize;
    let text = &payload[3..3 + length];
    match utf8_to_string(text) {
        Ok(message) => Ok((code, message)),
        Err(e) => {
            let mut m = String::from_str("invalid utf-8 error: ");
            m.append(e.as_str());
            Err(ProtocolError(m))
        },
    }
}

/// Decoding the QUERY payload of `sql` gives `sql` back, when its UTF-8 form
/// fits the 32-bit length field.
pub proof fn lemma_query_roundtrip(sql: Seq<char>)
    requires
        encode_utf8(sql).len() <= u32::MAX,
    ensures
        query_payload_complete(query_bytes(sql)),
        query_decode(query_bytes(sql)) == Ok::<Seq<char>, Seq<char>>(sql),
{
    let b = encode_utf8(sql);
    let p = query_bytes(sql);
    lemma_u32_roundtrip(len32(b.len()));
    assert(be_u32(p) == be_u32(u32_be_bytes(len32(b.len()))));
    assert(p.subrange(4, 4 + b.len() as int) =~= b);
    encode_utf8_valid_utf8(sql);
    encode_utf8_decode_utf8(sql);
}

/// Decoding the OK payload of `n` gives `n` back.
pub proof fn lemma_ok_roundtrip(n: u32)
    ensures
        ok_decode(u32_be_bytes(n)) == Ok::<u32, Seq<char>>(n),
{
    lemma_u32_roundtrip(n);
}

/// Decoding the ERROR payload of a code and message gives both back, when the
/// message's UTF-8 form fits the 16-bit length field.
pub proof fn lemma_error_roundtrip(code: u8, message: Seq<char>)
    requires
        encode_utf8(message).len() <= u16::MAX,
    ensures
        error_payload_complete(error_bytes(code, message)),
        error_decode(error_bytes(code, message)) == Ok::<(u8, Seq<char>), Seq<char>>((code, message)),
{
    let b = encode_utf8(message);
    let p = error_bytes(code, message);
    lemma_u16_roundtrip(len16(b.len()));
    assert(p.subrange(1, 3) =~= u16_be_bytes(len16(b.len())));
    assert(p.subrange(3, 3 + b.len() as int) =~= b);
    encode_utf8_valid_utf8(message);
    encode_utf8_decode_utf8(message);
}

// ---------------------------------------------------------------------------
// Values

/// The value of a cell. A float is held by its IEEE-754 binary64 bit pattern
/// (`f64::to_bits`), which is what travels on the wire.
#[derive(Debug, Clone, PartialEq, Eq)]
pub enum Value {
    Null,
    Int(i32),
    Float(u64),
    Text(String),
    Bool(bool),
}

/// A cell value as a mathematical object: text is its sequence of characters.
pub enum ValueModel {
    Null,
    Int(i32),
    Float(u64),
    Text(Seq<char>),
    Bool(bool),
}

impl View for Value {
    type V = ValueModel;

    open spec fn view(&self) -> ValueModel {
        match self {
            Value::Null => ValueModel::Null,
            Value::Int(i) => ValueModel::Int(*i),
            Value::Float(bits) => ValueModel::Float(*bits),
            Value::Text(s) => ValueModel::Text(s@),
            Value::Bool(b) => ValueModel::Bool(*b),
        }
    }
}

/// The bytes of one value: its tag, then its content. Text carries its UTF-8
/// length modulo 2^16 (u16 big-endian) before its UTF-8 bytes; a boolean is one
/// byte, 1 or 0.
pub open spec fn value_bytes(v: ValueModel) -> Seq<u8> {
    match v {
        ValueModel::Null => seq![TAG_NULL],
        ValueModel::Int(i) => seq![TAG_INT] + u32_be_bytes(i32_bits(i)),
        ValueModel::Float(bits) => seq![TAG_FLOAT] + u64_be_bytes(bits),
        ValueModel::Text(t) => seq![TAG_TEXT] + u16_be_bytes(len16(encode_utf8(t).len()))
            + encode_utf8(t),
        ValueModel::Bool(b) => seq![TAG_BOOL, if b { 1u8 } else { 0u8 }],
    }
}

/// A value whose encoding is faithful: text fits the 16-bit length field.
pub open spec fn value_fits(v: ValueModel) -> bool {
    match v {
        ValueModel::Text(t) => encode_utf8(t).len() <= u16::MAX,
        _ => true,
    }
}

/// What decoding one value at offset `off` of `p` gives: the value and the
/// offset just past it, or the message of the first check that fails.
pub open spec fn parse_value(p: Seq<u8>, off: int) -> Result<(ValueModel, int), Seq<char>> {
    if off >= p.len() {
        Err("value tag out of bounds"@)
    } else {
        let tag = p[off];
        let o = off + 1;
        if tag == TAG_NULL {
            Ok((ValueModel::Null, o))
        } else if tag == TAG_INT {
            if p.len() - o < 4 {
                Err("int value truncated"@)
            } else {
                Ok((ValueModel::Int(i32_from_bits(be_u32(p.subrange(o, o + 4)))), o + 4))
            }
        } else if tag == TAG_FLOAT {
            if p.len() - o < 8 {
                Err("float value truncated"@)
            } else {
                Ok((ValueModel::Float(be_u64(p.subrange(o, o + 8))), o + 8))
            }
        } else if tag == TAG_TEXT {
            if p.len() - o < 2 {
                Err("text value truncated"@)
            } else {
                let len = be_u16(p.subrange(o, o + 2));
                let start = o + 2;
                if p.len() - start < len {
                    Err("text value truncated"@)
                } else {
                    let bytes = p.subrange(start, start + len);
                    if valid_utf8(bytes) {
                        Ok((ValueModel::Text(decode_utf8(bytes)), start + len))
                    } else {
                        Err("invalid utf-8 value: "@ + utf8_error_text(bytes))
                    }
                }
            }
        } else if tag == TAG_BOOL {
            if o >= p.len() {
                Err("bool value truncated"@)
            } else {
                Ok((ValueModel::Bool(p[o] != 0), o + 1))
            }
        } else {
            Err("unknown value tag "@ + decimal(tag as nat))
        }
    }
}

fn encode_value(out: &mut Vec<u8>, value: &Value)
    ensures
        final(out)@ == old(out)@ + value_bytes(value@),
{
    let ghost start = out@;
    match value {
        Value::Null => {
            out.push(TAG_NULL);
        },
        Value::Bool(b) => {
            out.push(TAG_BOOL);
            out.push(if *b { 1 } else { 0 });
        },
        Value::Int(i) => {
            out.push(TAG_INT);
            let bits: u32 = if *i >= 0 {
                *i as u32
            } else {
                ((*i + 0x7fff_ffff + 1) as u32) + 0x8000_0000
            };
            push_u32(out, bits);
        },
        Value::Float(bits) => {
            out.push(TAG_FLOAT);
            push_u64(out, *bits);
        },
        Value::Text(t) => {
            out.push(TAG_TEXT);
            let bytes = t.as_str().as_bytes();
            push_u16(out, (bytes.len() % 0x1_0000) as u16);
            push_bytes(out, bytes);
        },
    }
    assert(out@ =~= start + value_bytes(value@));
}

fn decode_value(payload: &[u8], offset: &mut usize) -> (res: Result<Value, ProtocolError>)
    ensures
        *old(offset) <= payload@.len() ==> *final(offset) <= payload@.len(),
        match res {
            Ok(v) => parse_value(payload@, *old(offset) as int)
                == Ok::<(ValueModel, int), Seq<char>>((v@, *final(offset) as int)),
            Err(e) => parse_value(payload@, *old(offset) as int)
                == Err::<(ValueModel, int), Seq<char>>(e.0@),
        },
{
    if *offset >= payload.len() {
        return Err(ProtocolError(String::from_str("value tag out of bounds")));
    }
    let tag = payload[*offset];
    *offset = *offset + 1;
    let o = *offset;
    if tag == TAG_NULL {
        Ok(Value::Null)
    } else if tag == TAG_INT {
        if payload.len() - o < 4 {
            return Err(ProtocolError(String::from_str("int value truncated")));
        }
        let v = i32_be(&payload[o..o + 4]);
        *offset = o + 4;
        Ok(Value::Int(v))
    } else if tag == TAG_FLOAT {
        if payload.len() - o < 8 {
            return Err(ProtocolError(String::from_str("float value truncated")));
        }
        let bits = u64_be(&payload[o..o + 8]);
        *offset = o + 8;
        Ok(Value::Float(bits))
    } else if tag == TAG_TEXT {
        if payload.len() - o < 2 {
            return Err(ProtocolError(String::from_str("text value truncated")));
        }
        let length = u16_be(&payload[o..o + 2]) as usize;
        let start = o + 2;
        *offset = start;
        if payload.len() - start < length {
            return Err(ProtocolError(String::from_str("text value truncated")));
        }
        let bytes = &payload[start..start + length];
        *offset = start + length;
        match utf8_to_string(bytes) {
            Ok(text) => Ok(Value::Text(text)),
            Err(e) => {
                let mut m = String::from_str("invalid utf-8 value: ");
                m.append(e.as_str());
                Err(ProtocolError(m))
            },
        }
    } else if tag == TAG_BOOL {
        if o >= payload.len() {
            return Err(ProtocolError(String::from_str("bool value truncated")));
        }
        let b = payload[o] != 0;
        *offset = o + 1;
        Ok(Value::Bool(b))
    } else {
        let mut m = String::from_str("unknown value tag ");
        let n = decimal_string(tag as u64);
        m.append(n.as_str());
        Err(ProtocolError(m))
    }
}

/// Where the bytes of a value stand at offset `off` of `p`, decoding there gives
/// the value back and the offset just past its bytes.
pub proof fn lemma_parse_value_at(p: Seq<u8>, off: int, v: ValueModel)
    requires
        value_fits(v),
        0 <= off,
        off + value_bytes(v).len() <= p.len(),
        p.subrange(off, off + value_bytes(v).len()) == value_bytes(v),
    ensures
        parse_value(p, off) == Ok::<(ValueModel, int), Seq<char>>((v, off + value_bytes(v).len())),
{
    let b = value_bytes(v);
    assert(p[off] == b[0]);
    let o = off + 1;
    match v {
        ValueModel::Null => {},
        ValueModel::Int(i) => {
            lemma_u32_roundtrip(i32_bits(i));
            lemma_i32_bits_roundtrip(i);
            assert(p.subrange(o, o + 4) =~= b.subrange(1, 5));
            assert(b.subrange(1, 5) =~= u32_be_bytes(i32_bits(i)));
        },
        ValueModel::Float(bits) => {
            lemma_u64_roundtrip(bits);
            assert(p.subrange(o, o + 8) =~= b.subrange(1, 9));
            assert(b.subrange(1, 9) =~= u64_be_bytes(bits));
        },
        ValueModel::Text(t) => {
            let e = encode_utf8(t);
            lemma_u16_roundtrip(len16(e.len()));
            assert(p.subrange(o, o + 2) =~= b.subrange(1, 3));
            assert(b.subrange(1, 3) =~= u16_be_bytes(len16(e.len())));
            assert(b.subrange(3, 3 + e.len() as int) =~= e);
            assert(p.subrange(o + 2, o + 2 + e.len()) =~= b.subrange(3, 3 + e.len() as int));
            encode_utf8_valid_utf8(t);
            encode_utf8_decode_utf8(t);
        },
        ValueModel::Bool(x) => {
            assert(p[o] == b[1]);
        },
    }
}

// ---------------------------------------------------------------------------
// Result sets

/// A column declared in a RESULT.
#[derive(Debug, Clone, PartialEq, Eq)]
pub struct Column {
    pub name: String,
    pub type_code: u8,
    pub length: u16,
}

/// A column as a mathematical object.
pub struct ColumnModel {
    pub name: Seq<char>,
    pub type_code: u8,
    pub length: u16,
}

impl View for Column {
    type V = ColumnModel;

    open spec fn view(&self) -> ColumnModel {
        ColumnModel { name: self.name@, type_code: self.type_code, length: self.length }
    }
}

/// Result of a query (SELECT).
#[derive(Debug, Clone, PartialEq, Eq)]
pub struct ResultSet {
    pub columns: Vec<Column>,
    pub rows: Vec<Vec<Value>>,
}

/// A result set as a mathematical object.
#[verifier::ext_equal]
pub struct ResultSetModel {
    pub columns: Seq<ColumnModel>,
    pub rows: Seq<Seq<ValueModel>>,
}

/// The models of a sequence of values.
pub open spec fn values_view(vs: Seq<Value>) -> Seq<ValueModel> {
    vs.map_values(|v: Value| v@)
}

/// The models of a sequence of columns.
pub open spec fn columns_view(cs: Seq<Column>) -> Seq<ColumnModel> {
    cs.map_values(|c: Column| c@)
}

/// The models of a sequence of rows.
pub open spec fn rows_view(rows: Seq<Vec<Value>>) -> Seq<Seq<ValueModel>> {
    rows.map_values(|r: Vec<Value>| values_view(r@))
}

impl View for ResultSet {
    type V = ResultSetModel;

    open spec fn view(&self) -> ResultSetModel {
        ResultSetModel { columns: columns_view(self.columns@), rows: rows_view(self.rows@) }
    }
}

/// The bytes of a column declaration: UTF-8 name length modulo 2^16, name,
/// type code, declared length.
pub open spec fn column_bytes(c: ColumnModel) -> Seq<u8> {
    u16_be_bytes(len16(encode_utf8(c.name).len())) + encode_utf8(c.name) + seq![c.type_code]
        + u16_be_bytes(c.length)
}

/// The bytes of consecutive column declarations.
pub open spec fn columns_bytes(cs: Seq<ColumnModel>) -> Seq<u8>
    decreases cs.len(),
{
    if cs.len() == 0 {
        seq![]
    } else {
        column_bytes(cs[0]) + columns_bytes(cs.drop_first())
    }
}

/// The bytes of the values of one row, one after the other.
pub open spec fn row_bytes(r: Seq<ValueModel>) -> Seq<u8>
    decreases r.len(),
{
    if r.len() == 0 {
        seq![]
    } else {
        value_bytes(r[0]) + row_bytes(r.drop_first())
    }
}

/// The bytes of consecutive rows.
pub open spec fn rows_bytes(rows: Seq<Seq<ValueModel>>) -> Seq<u8>
    decreases rows.len(),
{
    if rows.len() == 0 {
        seq![]
    } else {
        row_bytes(rows[0]) + rows_bytes(rows.drop_first())
    }
}

/// The RESULT payload: column count modulo 2^16 (u16 big-endian), the columns,
/// row count modulo 2^32 (u32 big-endian), then every value of every row.
pub open spec fn resultset_bytes(rs: ResultSetModel) -> Seq<u8> {
    u16_be_bytes(len16(rs.columns.len())) + columns_bytes(rs.columns) + u32_be_bytes(
        len32(rs.rows.len()),
    ) + rows_bytes(rs.rows)
}

/// A result set whose encoding is faithful: counts and texts fit their length
/// fields, and every row has one value per column.
pub open spec fn resultset_fits(rs: ResultSetModel) -> bool {
    &&& rs.columns.len() <= u16::MAX
    &&& rs.rows.len() <= u32::MAX
    &&& forall|i: int|
        0 <= i < rs.columns.len() ==> encode_utf8(#[trigger] rs.columns[i].name).len() <= u16::MAX
    &&& forall|r: int| 0 <= r < rs.rows.len() ==> (#[trigger] rs.rows[r]).len() == rs.columns.len()
    &&& forall|r: int, j: int|
        0 <= r < rs.rows.len() && 0 <= j < rs.rows[r].len() ==> value_fits(
            #[trigger] rs.rows[r][j],
        )
}

/// Puts decoded items in front of the items that a later decoding gives.
pub open spec fn prepend<T>(head: Seq<T>, r: Result<(Seq<T>, int), Seq<char>>) -> Result<
    (Seq<T>, int),
    Seq<char>,
> {
    match r {
        Ok((tail, o)) => Ok((head + tail, o)),
        Err(e) => Err(e),
    }
}

/// What decoding `n` consecutive values from offset `off` gives.
pub open spec fn parse_values(p: Seq<u8>, off: int, n: nat) -> Result<
    (Seq<ValueModel>, int),
    Seq<char>,
>
    decreases n,
{
    if n == 0 {
        Ok((seq![], off))
    } else {
        match parse_value(p, off) {
            Err(e) => Err(e),
            Ok((v, o)) => prepend(seq![v], parse_values(p, o, (n - 1) as nat)),
        }
    }
}

/// What decoding one column declaration at offset `off` gives.
pub open spec fn parse_column(p: Seq<u8>, off: int) -> Result<(ColumnModel, int), Seq<char>> {
    if p.len() - off < 2 {
        Err("column name length out of bounds"@)
    } else {
        let len = be_u16(p.subrange(off, off + 2));
        let start = off + 2;
        if p.len() - start < len {
            Err("column name truncated"@)
        } else {
            let name = p.subrange(start, start + len);
            if !valid_utf8(name) {
                Err("invalid utf-8 column name: "@ + utf8_error_text(name))
            } else {
                let meta = start + len;
                if p.len() - meta < 3 {
                    Err("column meta out of bounds"@)
                } else {
                    Ok(
                        (
                            ColumnModel {
                                name: decode_utf8(name),
                                type_code: p[meta],
                                length: be_u16(p.subrange(meta + 1, meta + 3)),
                            },
                            meta + 3,
                        ),
                    )
                }
            }
        }
    }
}

/// What decoding `n` consecutive column declarations from offset `off` gives.
pub open spec fn parse_columns(p: Seq<u8>, off: int, n: nat) -> Result<
    (Seq<ColumnModel>, int),
    Seq<char>,
>
    decreases n,
{
    if n == 0 {
        Ok((seq![], off))
    } else {
        match parse_column(p, off) {
            Err(e) => Err(e),
            Ok((c, o)) => prepend(seq![c], parse_columns(p, o, (n - 1) as nat)),
        }
    }
}

/// What decoding `n` consecutive rows of `width` values from offset `off` gives.
pub open spec fn parse_rows(p: Seq<u8>, off: int, width: nat, n: nat) -> Result<
    (Seq<Seq<ValueModel>>, int),
    Seq<char>,
>
    decreases n,
{
    if n == 0 {
        Ok((seq![], off))
    } else {
        match parse_values(p, off, width) {
            Err(e) => Err(e),
            Ok((r, o)) => prepend(seq![r], parse_rows(p, o, width, (n - 1) as nat)),
        }
    }
}

/// What decoding a RESULT payload gives: the columns it declares and that many
/// values for each of the rows it announces. Bytes after the last row are
/// ignored.
pub open spec fn resultset_decode(p: Seq<u8>) -> Result<ResultSetModel, Seq<char>> {
    if p.len() < 2 {
        Err("resultset payload too short"@)
    } else {
        match parse_columns(p, 2, be_u16(p) as nat) {
            Err(e) => Err(e),
            Ok((columns, o)) => {
                if p.len() - o < 4 {
                    Err("rows count out of bounds"@)
                } else {
                    match parse_rows(
                        p,
                        o + 4,
                        columns.len(),
                        be_u32(p.subrange(o, o + 4)) as nat,
                    ) {
                        Err(e) => Err(e),
                        Ok((rows, _)) => Ok(ResultSetModel { columns, rows }),
                    }
                }
            }
        }
    }
}

proof fn lemma_prepend_assoc<T>(a: Seq<T>, b: Seq<T>, r: Result<(Seq<T>, int), Seq<char>>)
    ensures
        prepend(a, prepend(b, r)) == prepend(a + b, r),
{
    if let Ok((t, o)) = r {
        assert(a + (b + t) =~= (a + b) + t);
    }
}

proof fn lemma_prepend_empty<T>(a: Seq<T>, o: int)
    ensures
        prepend(a, Ok::<(Seq<T>, int), Seq<char>>((seq![], o))) == Ok::<(Seq<T>, int), Seq<char>>((a, o)),
{
    assert(a + seq![] =~= a);
}

proof fn lemma_columns_bytes_push(cs: Seq<ColumnModel>, c: ColumnModel)
    ensures
        columns_bytes(cs.push(c)) == columns_bytes(cs) + column_bytes(c),
    decreases cs.len(),
{
    if cs.len() == 0 {
        let e = cs.push(c);
        assert(e.drop_first() =~= seq![]);
        assert(columns_bytes(e.drop_first()) == Seq::<u8>::empty());
        assert(e[0] == c);
        assert(columns_bytes(e) == column_bytes(c) + columns_bytes(e.drop_first()));
        assert(columns_bytes(e) =~= column_bytes(c));
    } else {
        lemma_columns_bytes_push(cs.drop_first(), c);
        assert(cs.push(c).drop_first() =~= cs.drop_first().push(c));
        assert(columns_bytes(cs.push(c)) =~= columns_bytes(cs) + column_bytes(c));
    }
}

proof fn lemma_row_bytes_push(r: Seq<ValueModel>, v: ValueModel)
    ensures
        row_bytes(r.push(v)) == row_bytes(r) + value_bytes(v),
    decreases r.len(),
{
    if r.len() == 0 {
        let e = r.push(v);
        assert(e.drop_first() =~= seq![]);
        assert(row_bytes(e.drop_first()) == Seq::<u8>::empty());
        assert(e[0] == v);
        assert(row_bytes(e) == value_bytes(v) + row_bytes(e.drop_first()));
        assert(row_bytes(e) =~= value_bytes(v));
    } else {
        lemma_row_bytes_push(r.drop_first(), v);
        assert(r.push(v).drop_first() =~= r.drop_first().push(v));
        assert(row_bytes(r.push(v)) =~= row_bytes(r) + value_bytes(v));
    }
}

proof fn lemma_rows_bytes_push(rows: Seq<Seq<ValueModel>>, r: Seq<ValueModel>)
    ensures
        rows_bytes(rows.push(r)) == rows_bytes(rows) + row_bytes(r),
    decreases rows.len(),
{
    if rows.len() == 0 {
        let e = rows.push(r);
        assert(e.drop_first() =~= seq![]);
        assert(rows_bytes(e.drop_first()) == Seq::<u8>::empty());
        assert(e[0] == r);
        assert(rows_bytes(e) == row_bytes(r) + rows_bytes(e.drop_first()));
        assert(rows_bytes(e) =~= row_bytes(r));
    } else {
        lemma_rows_bytes_push(rows.drop_first(), r);
        assert(rows.push(r).drop_first() =~= rows.drop_first().push(r));
        assert(rows_bytes(rows.push(r)) =~= rows_bytes(rows) + row_bytes(r));
    }
}

/// Payload of RESULT. Counts and lengths too large for their fields are written
/// modulo the field's range; each row's values are written whatever their number.
pub fn encode_resultset(rs: &ResultSet) -> (out: Vec<u8>)
    ensures
        out@ == resultset_bytes(rs@),
{
    let ghost model = rs@;
    let mut out: Vec<u8> = Vec::new();
    push_u16(&mut out, (rs.columns.len() % 0x1_0000) as u16);
    let ghost header = out@;
    let mut i: usize = 0;
    while i < rs.columns.len()
        invariant
            model == rs@,
            i <= rs.columns.len(),
            header == u16_be_bytes(len16(model.columns.len())),
            out@ == header + columns_bytes(model.columns.take(i as int)),
        decreases rs.columns.len() - i,
    {
        let column = &rs.columns[i];
        let name = column.name.as_str().as_bytes();
        let ghost before = out@;
        push_u16(&mut out, (name.len() % 0x1_0000) as u16);
        push_bytes(&mut out, name);
        out.push(column.type_code);
        push_u16(&mut out, column.length);
        proof {
            assert(model.columns[i as int] == column@);
            assert(out@ =~= before + column_bytes(column@));
            assert(model.columns.take(i + 1) =~= model.columns.take(i as int).push(column@));
            lemma_columns_bytes_push(model.columns.take(i as int), column@);
        }
        i = i + 1;
    }
    assert(model.columns.take(i as int) =~= model.columns);
    push_u32(&mut out, (rs.rows.len() as u64 % 0x1_0000_0000) as u32);
    let ghost middle = out@;
    let mut k: usize = 0;
    while k < rs.rows.len()
        invariant
            model == rs@,
            k <= rs.rows.len(),
            middle == header + columns_bytes(model.columns) + u32_be_bytes(len32(model.rows.len())),
            out@ == middle + rows_bytes(model.rows.take(k as int)),
        decreases rs.rows.len() - k,
    {
        let row = &rs.rows[k];
        let ghost rmodel = values_view(row@);
        let ghost before = out@;
        let mut j: usize = 0;
        while j < row.len()
            invariant
                rmodel == values_view(row@),
                j <= row.len(),
                out@ == before + row_bytes(rmodel.take(j as int)),
            decreases row.len() - j,
        {
            let ghost inner = out@;
            encode_value(&mut out, &row[j]);
            proof {
                assert(rmodel.take(j + 1) =~= rmodel.take(j as int).push(row@[j as int]@));
                lemma_row_bytes_push(rmodel.take(j as int), row@[j as int]@);
            }
            j = j + 1;
        }
        proof {
            assert(rmodel.take(j as int) =~= rmodel);
            assert(model.rows[k as int] == rmodel);
            assert(model.rows.take(k + 1) =~= model.rows.take(k as int).push(rmodel));
            lemma_rows_bytes_push(model.rows.take(k as int), rmodel);
        }
        k = k + 1;
    }
    assert(model.rows.take(k as int) =~= model.rows);
    out
}

fn decode_column(payload: &[u8], offset: &mut usize) -> (res: Result<Column, ProtocolError>)
    requires
        *old(offset) <= payload@.len(),
    ensures
        *final(offset) <= payload@.len(),
        match res {
            Ok(c) => parse_column(payload@, *old(offset) as int)
                == Ok::<(ColumnModel, int), Seq<char>>((c@, *final(offset) as int)),
            Err(e) => parse_column(payload@, *old(offset) as int)
                == Err::<(ColumnModel, int), Seq<char>>(e.0@),
        },
{
    let o = *offset;
    if payload.len() - o < 2 {
        return Err(ProtocolError(String::from_str("column name length out of bounds")));
    }
    let name_len = u16_be(&payload[o..o + 2]) as usize;
    let start = o + 2;
    *offset = start;
    if payload.len() - start < name_len {
        return Err(ProtocolError(String::from_str("column name truncated")));
    }
    let name = match utf8_to_string(&payload[start..start + name_len]) {
        Ok(name) => name,
        Err(e) => {
            let mut m = String::from_str("invalid utf-8 column name: ");
            m.append(e.as_str());
            return Err(ProtocolError(m));
        },
    };
    let meta = start + name_len;
    *offset = meta;
    if payload.len() - meta < 3 {
        return Err(ProtocolError(String::from_str("column meta out of bounds")));
    }
    let type_code = payload[meta];
    let length = u16_be(&payload[meta + 1..meta + 3]);
    *offset = meta + 3;
    Ok(Column { name, type_code, length })
}

fn decode_row(payload: &[u8], offset: &mut usize, width: usize) -> (res: Result<
    Vec<Value>,
    ProtocolError,
>)
    requires
        *old(offset) <= payload@.len(),
    ensures
        *final(offset) <= payload@.len(),
        match res {
            Ok(row) => parse_values(payload@, *old(offset) as int, width as nat)
                == Ok::<(Seq<ValueModel>, int), Seq<char>>((values_view(row@), *final(offset) as int)),
            Err(e) => parse_values(payload@, *old(offset) as int, width as nat)
                == Err::<(Seq<ValueModel>, int), Seq<char>>(e.0@),
        },
{
    let ghost p = payload@;
    let ghost start = *offset as int;
    let mut row: Vec<Value> = Vec::new();
    let mut i: usize = 0;
    while i < width
        invariant
            p == payload@,
            start == *old(offset) as int,
            i <= width,
            *offset <= p.len(),
            parse_values(p, start, width as nat) == prepend(
                values_view(row@),
                parse_values(p, *offset as int, (width - i) as nat),
            ),
        decreases width - i,
    {
        let ghost before = *offset as int;
        let ghost rest = (width - i - 1) as nat;
        match decode_value(payload, offset) {
            Ok(v) => {
                proof {
                    assert(parse_values(p, before, (width - i) as nat) == prepend(
                        seq![v@],
                        parse_values(p, *offset as int, rest),
                    ));
                    lemma_prepend_assoc(values_view(row@), seq![v@], parse_values(p, *offset as int, rest));
                    assert(values_view(row@) + seq![v@] =~= values_view(row@.push(v)));
                }
                row.push(v);
                i = i + 1;
            },
            Err(e) => {
                proof {
                    assert(parse_values(p, before, (width - i) as nat) == Err::<(Seq<ValueModel>, int), Seq<char>>(e.0@));
                }
                return Err(e);
            },
        }
    }
    proof {
        lemma_prepend_empty(values_view(row@), *offset as int);
    }
    Ok(row)
}

/// Decodes a RESULT payload into its columns and rows.
pub fn decode_resultset(payload: &[u8]) -> (res: Result<ResultSet, ProtocolError>)
    ensures
        match res {
            Ok(rs) => resultset_decode(payload@) == Ok::<ResultSetModel, Seq<char>>(rs@),
            Err(e) => resultset_decode(payload@) == Err::<ResultSetModel, Seq<char>>(e.0@),
        },
{
    let ghost p = payload@;
    if payload.len() < 2 {
        return Err(ProtocolError(String::from_str("resultset payload too short")));
    }
    let column_count = u16_be(payload) as usize;
    let mut offset: usize = 2;
    let mut columns: Vec<Column> = Vec::new();
    let mut i: usize = 0;
    while i < column_count
        invariant
            p == payload@,
            p.len() >= 2,
            column_count == be_u16(p),
            i <= column_count,
            offset <= p.len(),
            parse_columns(p, 2, column_count as nat) == prepend(
                columns_view(columns@),
                parse_columns(p, offset as int, (column_count - i) as nat),
            ),
        decreases column_count - i,
    {
        let ghost before = offset as int;
        let ghost rest = (column_count - i - 1) as nat;
        match decode_column(payload, &mut offset) {
            Ok(c) => {
                proof {
                    lemma_prepend_assoc(columns_view(columns@), seq![c@], parse_columns(p, offset as int, rest));
                    assert(columns_view(columns@) + seq![c@] =~= columns_view(columns@.push(c)));
                }
                columns.push(c);
                i = i + 1;
            },
            Err(e) => {
                proof {
                    assert(parse_columns(p, before, (column_count - i) as nat) == Err::<(Seq<ColumnModel>, int), Seq<char>>(e.0@));
                }
                return Err(e);
            },
        }
    }
    proof {
        lemma_prepend_empty(columns_view(columns@), offset as int);
    }
    if payload.len() - offset < 4 {
        return Err(ProtocolError(String::from_str("rows count out of bounds")));
    }
    let row_count = u32_be(&payload[offset..offset + 4]);
    offset = offset + 4;
    let ghost rows_start = offset as int;
    let width = columns.len();
    let mut rows: Vec<Vec<Value>> = Vec::new();
    let mut k: u32 = 0;
    while k < row_count
        invariant
            p == payload@,
            p.len() >= 2,
            4 <= rows_start <= p.len(),
            parse_columns(p, 2, be_u16(p) as nat) == Ok::<(Seq<ColumnModel>, int), Seq<char>>((columns_view(columns@), rows_start - 4)),
            row_count == be_u32(p.subrange(rows_start - 4, rows_start)),
            k <= row_count,
            offset <= p.len(),
            width == columns@.len(),
            parse_rows(p, rows_start, width as nat, row_count as nat) == prepend(
                rows_view(rows@),
                parse_rows(p, offset as int, width as nat, (row_count - k) as nat),
            ),
        decreases row_count - k,
    {
        let ghost before = offset as int;
        let ghost rest = (row_count - k - 1) as nat;
        match decode_row(payload, &mut offset, width) {
            Ok(row) => {
                proof {
                    lemma_prepend_assoc(rows_view(rows@), seq![values_view(row@)], parse_rows(p, offset as int, width as nat, rest));
                    assert(rows_view(rows@) + seq![values_view(row@)] =~= rows_view(rows@.push(row)));
                }
                rows.push(row);
                k = k + 1;
            },
            Err(e) => {
                proof {
                    assert(parse_rows(p, before, width as nat, (row_count - k) as nat) == Err::<(Seq<Seq<ValueModel>>, int), Seq<char>>(e.0@));
                }
                return Err(e);
            },
        }
    }
    proof {
        lemma_prepend_empty(rows_view(rows@), offset as int);
    }
    let rs = ResultSet { columns, rows };
    assert(rs@ =~= ResultSetModel { columns: columns_view(rs.columns@), rows: rows_view(rs.rows@) });
    Ok(rs)
}

/// `b` stands in `p` from offset `off` on.
pub open spec fn bytes_at(p: Seq<u8>, off: int, b: Seq<u8>) -> bool {
    &&& 0 <= off
    &&& off + b.len() <= p.len()
    &&& p.subrange(off, off + b.len()) == b
}

proof fn lemma_bytes_at_split(p: Seq<u8>, off: int, a: Seq<u8>, b: Seq<u8>)
    requires
        bytes_at(p, off, a + b),
    ensures
        bytes_at(p, off, a),
        bytes_at(p, off + a.len(), b),
{
    assert(p.subrange(off, off + a.len()) =~= (a + b).subrange(0, a.len() as int));
    assert((a + b).subrange(0, a.len() as int) =~= a);
    assert(p.subrange(off + a.len(), off + a.len() + b.len()) =~= (a + b).subrange(
        a.len() as int,
        (a + b).len() as int,
    ));
    assert((a + b).subrange(a.len() as int, (a + b).len() as int) =~= b);
}

proof fn lemma_parse_column_at(p: Seq<u8>, off: int, c: ColumnModel)
    requires
        encode_utf8(c.name).len() <= u16::MAX,
        bytes_at(p, off, column_bytes(c)),
    ensures
        parse_column(p, off) == Ok::<(ColumnModel, int), Seq<char>>((c, off + column_bytes(c).len())),
{
    let e = encode_utf8(c.name);
    let l = u16_be_bytes(len16(e.len()));
    let t = u16_be_bytes(c.length);
    lemma_bytes_at_split(p, off, l + e + seq![c.type_code], t);
    lemma_bytes_at_split(p, off, l + e, seq![c.type_code]);
    lemma_bytes_at_split(p, off, l, e);
    lemma_u16_roundtrip(len16(e.len()));
    lemma_u16_roundtrip(c.length);
    encode_utf8_valid_utf8(c.name);
    encode_utf8_decode_utf8(c.name);
    let meta = off + 2 + e.len();
    assert(p.subrange(meta, meta + 1)[0] == p[meta]);
}

proof fn lemma_parse_values_at(p: Seq<u8>, off: int, vs: Seq<ValueModel>)
    requires
        forall|j: int| 0 <= j < vs.len() ==> value_fits(#[trigger] vs[j]),
        bytes_at(p, off, row_bytes(vs)),
    ensures
        parse_values(p, off, vs.len()) == Ok::<(Seq<ValueModel>, int), Seq<char>>((vs, off + row_bytes(vs).len())),
    decreases vs.len(),
{
    if vs.len() == 0 {
        assert(vs =~= seq![]);
    } else {
        let first = value_bytes(vs[0]);
        let rest = vs.drop_first();
        lemma_bytes_at_split(p, off, first, row_bytes(rest));
        assert(value_fits(vs[0]));
        lemma_parse_value_at(p, off, vs[0]);
        assert forall|j: int| 0 <= j < rest.len() implies value_fits(#[trigger] rest[j]) by {
            assert(rest[j] == vs[j + 1]);
        }
        lemma_parse_values_at(p, off + first.len(), rest);
        assert(seq![vs[0]] + rest =~= vs);
    }
}

proof fn lemma_parse_columns_at(p: Seq<u8>, off: int, cs: Seq<ColumnModel>)
    requires
        forall|j: int| 0 <= j < cs.len() ==> encode_utf8(#[trigger] cs[j].name).len() <= u16::MAX,
        bytes_at(p, off, columns_bytes(cs)),
    ensures
        parse_columns(p, off, cs.len()) == Ok::<(Seq<ColumnModel>, int), Seq<char>>((cs, off + columns_bytes(cs).len())),
    decreases cs.len(),
{
    if cs.len() == 0 {
        assert(cs =~= seq![]);
    } else {
        let first = column_bytes(cs[0]);
        let rest = cs.drop_first();
        lemma_bytes_at_split(p, off, first, columns_bytes(rest));
        assert(encode_utf8(cs[0].name).len() <= u16::MAX);
        lemma_parse_column_at(p, off, cs[0]);
        assert forall|j: int| 0 <= j < rest.len() implies encode_utf8(#[trigger] rest[j].name).len() <= u16::MAX by {
            assert(rest[j] == cs[j + 1]);
        }
        lemma_parse_columns_at(p, off + first.len(), rest);
        assert(seq![cs[0]] + rest =~= cs);
    }
}

proof fn lemma_parse_rows_at(p: Seq<u8>, off: int, width: nat, rows: Seq<Seq<ValueModel>>)
    requires
        forall|r: int| 0 <= r < rows.len() ==> (#[trigger] rows[r]).len() == width,
        forall|r: int, j: int|
            0 <= r < rows.len() && 0 <= j < rows[r].len() ==> value_fits(#[trigger] rows[r][j]),
        bytes_at(p, off, rows_bytes(rows)),
    ensures
        parse_rows(p, off, width, rows.len()) == Ok::<(Seq<Seq<ValueModel>>, int), Seq<char>>((rows, off + rows_bytes(rows).len())),
    decreases rows.len(),
{
    if rows.len() == 0 {
        assert(rows =~= seq![]);
    } else {
        let first = row_bytes(rows[0]);
        let rest = rows.drop_first();
        lemma_bytes_at_split(p, off, first, rows_bytes(rest));
        assert forall|j: int| 0 <= j < rows[0].len() implies value_fits(#[trigger] rows[0][j]) by {
            assert(value_fits(rows[0][j]));
        }
        assert(rows[0].len() == width);
        lemma_parse_values_at(p, off, rows[0]);
        assert forall|r: int| 0 <= r < rest.len() implies (#[trigger] rest[r]).len() == width by {
            assert(rest[r] == rows[r + 1]);
        }
        assert forall|r: int, j: int| 0 <= r < rest.len() && 0 <= j < rest[r].len() implies value_fits(
            #[trigger] rest[r][j],
        ) by {
            assert(rest[r] == rows[r + 1]);
            assert(value_fits(rows[r + 1][j]));
        }
        lemma_parse_rows_at(p, off + first.len(), width, rest);
        assert(seq![rows[0]] + rest =~= rows);
    }
}

proof fn lemma_rows_of_resultset_at(rs: ResultSetModel, p: Seq<u8>, off: int)
    requires
        resultset_fits(rs),
        bytes_at(p, off, rows_bytes(rs.rows)),
    ensures
        parse_rows(p, off, rs.columns.len(), rs.rows.len()) == Ok::<(Seq<Seq<ValueModel>>, int), Seq<char>>((rs.rows, off + rows_bytes(rs.rows).len())),
{
    lemma_parse_rows_at(p, off, rs.columns.len(), rs.rows);
}

/// Decoding the RESULT payload of a result set gives it back, when its counts
/// and texts fit their length fields and every row has one value per column.
pub proof fn lemma_resultset_roundtrip(rs: ResultSetModel)
    requires
        resultset_fits(rs),
    ensures
        resultset_decode(resultset_bytes(rs)) == Ok::<ResultSetModel, Seq<char>>(rs),
{
    let p = resultset_bytes(rs);
    let h = u16_be_bytes(len16(rs.columns.len()));
    let cb = columns_bytes(rs.columns);
    let n = u32_be_bytes(len32(rs.rows.len()));
    let rb = rows_bytes(rs.rows);
    let o: int = 2 + cb.len() as int;
    assert(p == h + cb + n + rb);
    lemma_resultset_layout(p, h, cb, n, rb);
    lemma_u16_roundtrip(len16(rs.columns.len()));
    lemma_u32_roundtrip(len32(rs.rows.len()));
    lemma_parse_columns_at(p, 2, rs.columns);
    lemma_rows_of_resultset_at(rs, p, o + 4);
    lemma_resultset_decode_parts(rs, p, o);
}

proof fn lemma_resultset_layout(p: Seq<u8>, h: Seq<u8>, cb: Seq<u8>, n: Seq<u8>, rb: Seq<u8>)
    requires
        p == h + cb + n + rb,
        h.len() == 2,
        n.len() == 4,
    ensures
        p.len() >= 2,
        be_u16(p) == be_u16(h),
        bytes_at(p, 2, cb),
        p.len() - (2 + cb.len()) >= 4,
        p.subrange(2 + cb.len() as int, 6 + cb.len() as int) == n,
        bytes_at(p, 6 + cb.len() as int, rb),
{
    assert(bytes_at(p, 0, p)) by {
        assert(p.subrange(0, p.len() as int) =~= p);
    }
    lemma_bytes_at_split(p, 0, h + cb + n, rb);
    lemma_bytes_at_split(p, 0, h + cb, n);
    lemma_bytes_at_split(p, 0, h, cb);
    assert(p[0] == h[0] && p[1] == h[1]);
}

proof fn lemma_resultset_decode_parts(rs: ResultSetModel, p: Seq<u8>, o: int)
    requires
        p.len() >= 2,
        be_u16(p) == rs.columns.len(),
        parse_columns(p, 2, rs.columns.len()) matches Ok((cs, o2)) && cs == rs.columns && o2 == o,
        p.len() - o >= 4,
        be_u32(p.subrange(o, o + 4)) == rs.rows.len(),
        parse_rows(p, o + 4, rs.columns.len(), rs.rows.len()) matches Ok((rows, _)) && rows == rs.rows,
    ensures
        resultset_decode(p) == Ok::<ResultSetModel, Seq<char>>(rs),
{
}

// ---------------------------------------------------------------------------
// Byte order on the wire

/// Every integer field is big-endian: the first byte is the most significant,
/// for reading and for writing alike.
pub proof fn law_fields_are_big_endian(s: Seq<u8>, a: u16, b: u32)
    ensures
        s.len() >= 2 ==> be_u16(s) as int == s[0] as int * 256 + s[1] as int,
        s.len() >= 4 ==> be_u32(s) as int == s[0] as int * 16777216 + s[1] as int * 65536
            + s[2] as int * 256 + s[3] as int,
        u16_be_bytes(a) == seq![(a as int / 256) as u8, (a as int % 256) as u8],
        u32_be_bytes(b) == seq![
            (b as int / 16777216) as u8,
            (b as int / 65536 % 256) as u8,
            (b as int / 256 % 256) as u8,
            (b as int % 256) as u8,
        ],
{
}

/// An INT cell is its tag followed by the 32-bit two's complement of the value,
/// most significant byte first.
pub proof fn law_int_cell_bytes(i: i32)
    ensures
        ({
            let u: int = if i >= 0 { i as int } else { i as int + 4294967296 };
            value_bytes(ValueModel::Int(i)) == seq![
                TAG_INT,
                (u / 16777216) as u8,
                (u / 65536 % 256) as u8,
                (u / 256 % 256) as u8,
                (u % 256) as u8,
            ]
        }),
{
    let u: int = if i >= 0 { i as int } else { i as int + 4294967296 };
    assert(i32_bits(i) as int == u);
    assert(value_bytes(ValueModel::Int(i)) =~= seq![
        TAG_INT,
        (u / 16777216) as u8,
        (u / 65536 % 256) as u8,
        (u / 256 % 256) as u8,
        (u % 256) as u8,
    ]);
}

/// Decoding reads an INT cell as the two's complement of its four bytes taken
/// most significant first, and moves past them.
pub proof fn law_int_cell_decodes_big_endian(p: Seq<u8>, o: int)
    requires
        0 <= o,
        o + 5 <= p.len(),
        p[o] == TAG_INT,
    ensures
        ({
            let u: int = p[o + 1] as int * 16777216 + p[o + 2] as int * 65536 + p[o + 3] as int
                * 256 + p[o + 4] as int;
            parse_value(p, o) == Ok::<(ValueModel, int), Seq<char>>(
                (
                    ValueModel::Int(
                        (if u < 2147483648 {
                            u
                        } else {
                            u - 4294967296
                        }) as i32,
                    ),
                    o + 5,
                ),
            )
        }),
{
    let q = p.subrange(o + 1, o + 5);
    assert(q[0] == p[o + 1] && q[1] == p[o + 2] && q[2] == p[o + 3] && q[3] == p[o + 4]);
}

/// Decoding reads a FLOAT cell as the 64 bits of its eight bytes taken most
/// significant first, and moves past them.
pub proof fn law_float_cell_decodes_big_endian(p: Seq<u8>, o: int)
    requires
        0 <= o,
        o + 9 <= p.len(),
        p[o] == TAG_FLOAT,
    ensures
        ({
            let hi: int = p[o + 1] as int * 16777216 + p[o + 2] as int * 65536 + p[o + 3] as int
                * 256 + p[o + 4] as int;
            let lo: int = p[o + 5] as int * 16777216 + p[o + 6] as int * 65536 + p[o + 7] as int
                * 256 + p[o + 8] as int;
            parse_value(p, o) == Ok::<(ValueModel, int), Seq<char>>(
                (ValueModel::Float((hi * 4294967296 + lo) as u64), o + 9),
            )
        }),
{
    let q = p.subrange(o + 1, o + 9);
    let r = q.subrange(4, 8);
    assert(q[0] == p[o + 1] && q[1] == p[o + 2] && q[2] == p[o + 3] && q[3] == p[o + 4]);
    assert(r[0] == p[o + 5] && r[1] == p[o + 6] && r[2] == p[o + 7] && r[3] == p[o + 8]);
}

/// Decoding a TEXT cell reads a big-endian 16-bit byte length, then that many
/// bytes of UTF-8.
pub proof fn law_text_cell_decodes(p: Seq<u8>, o: int)
    requires
        0 <= o,
        o + 3 <= p.len(),
        p[o] == TAG_TEXT,
        o + 3 + (p[o + 1] as int * 256 + p[o + 2] as int) <= p.len(),
        valid_utf8(p.subrange(o + 3, o + 3 + (p[o + 1] as int * 256 + p[o + 2] as int))),
    ensures
        ({
            let n: int = p[o + 1] as int * 256 + p[o + 2] as int;
            parse_value(p, o) == Ok::<(ValueModel, int), Seq<char>>(
                (ValueModel::Text(decode_utf8(p.subrange(o + 3, o + 3 + n))), o + 3 + n),
            )
        }),
{
    let q = p.subrange(o + 1, o + 3);
    assert(q[0] == p[o + 1] && q[1] == p[o + 2]);
}

/// NULL and BOOL cells: NULL is its tag alone; BOOL is its tag and one byte,
/// true when that byte is not zero.
pub proof fn law_null_and_bool_cells(p: Seq<u8>, o: int)
    requires
        0 <= o,
        o < p.len(),
    ensures
        p[o] == TAG_NULL ==> parse_value(p, o) == Ok::<(ValueModel, int), Seq<char>>(
            (ValueModel::Null, o + 1),
        ),
        p[o] == TAG_BOOL && o + 1 < p.len() ==> parse_value(p, o) == Ok::<
            (ValueModel, int),
            Seq<char>,
        >((ValueModel::Bool(p[o + 1] != 0), o + 2)),
        value_bytes(ValueModel::Null) == seq![TAG_NULL],
        value_bytes(ValueModel::Bool(true)) == seq![TAG_BOOL, 1u8],
        value_bytes(ValueModel::Bool(false)) == seq![TAG_BOOL, 0u8],
{
}

/// A decoded frame starts with the magic "SP" and version 1; its opcode is the
/// fourth byte and its payload the bytes after the header, as many as the
/// big-endian length field says.
pub proof fn law_frame_decoded_layout(data: Seq<u8>)
    ensures
        frame_decode(data) matches Ok((op, pl)) ==> {
            let n: int = data[4] as int * 16777216 + data[5] as int * 65536 + data[6] as int
                * 256 + data[7] as int;
            &&& data.len() >= 8 + n
            &&& data[0] == 0x53u8 && data[1] == 0x50u8 && data[2] == 1u8
            &&& op == data[3]
            &&& pl == data.subrange(8, 8 + n)
        },
{
    if let Ok((op, pl)) = frame_decode(data) {
        let h = data.subrange(4, 8);
        assert(h[0] == data[4] && h[1] == data[5] && h[2] == data[6] && h[3] == data[7]);
        assert(announced_len(data) as int == data[4] as int * 16777216 + data[5] as int * 65536
            + data[6] as int * 256 + data[7] as int);
    }
}

/// Encoding writes the magic "SP", version 1, the opcode, the payload length
/// big-endian, then the payload.
pub proof fn law_frame_encoded_layout(opcode: u8, payload: Seq<u8>)
    requires
        payload.len() <= u32::MAX,
    ensures
        ({
            let e = frame_bytes(opcode, payload);
            &&& e.len() == 8 + payload.len()
            &&& e[0] == 0x53u8 && e[1] == 0x50u8 && e[2] == 1u8 && e[3] == opcode
            &&& e[4] as int * 16777216 + e[5] as int * 65536 + e[6] as int * 256 + e[7] as int
                == payload.len()
            &&& e.subrange(8, e.len() as int) == payload
        }),
{
    let e = frame_bytes(opcode, payload);
    let l = len32(payload.len());
    assert(l as int == payload.len());
    assert(e[4] == u32_be_bytes(l)[0] && e[5] == u32_be_bytes(l)[1] && e[6] == u32_be_bytes(l)[2]
        && e[7] == u32_be_bytes(l)[3]);
    assert(e.subrange(8, e.len() as int) =~= payload);
}

/// A decoded QUERY is the UTF-8 text of the bytes after its big-endian 32-bit
/// length; a decoded ERROR is the first byte as code and the UTF-8 text of the
/// bytes after its big-endian 16-bit length.
pub proof fn law_query_and_error_payloads(p: Seq<u8>)
    ensures
        query_decode(p) matches Ok(sql) ==> {
            let n: int = p[0] as int * 16777216 + p[1] as int * 65536 + p[2] as int * 256
                + p[3] as int;
            encode_utf8(sql) == p.subrange(4, 4 + n)
        },
        error_decode(p) matches Ok((code, message)) ==> {
            let n: int = p[1] as int * 256 + p[2] as int;
            code == p[0] && encode_utf8(message) == p.subrange(3, 3 + n)
        },
{
    if let Ok(sql) = query_decode(p) {
        let t = p.subrange(4, 4 + be_u32(p));
        decode_utf8_encode_utf8(t);
    }
    if let Ok((code, message)) = error_decode(p) {
        let h = p.subrange(1, 3);
        assert(h[0] == p[1] && h[1] == p[2]);
        let t = p.subrange(3, 3 + be_u16(h));
        decode_utf8_encode_utf8(t);
    }
}

/// Decoding a column reads a big-endian 16-bit name length, the UTF-8 name,
/// the type code byte, then the big-endian 16-bit declared length.
pub proof fn law_column_decodes(p: Seq<u8>, o: int)
    requires
        0 <= o,
        o + 2 <= p.len(),
        o + 2 + (p[o] as int * 256 + p[o + 1] as int) + 3 <= p.len(),
        valid_utf8(p.subrange(o + 2, o + 2 + (p[o] as int * 256 + p[o + 1] as int))),
    ensures
        ({
            let n: int = p[o] as int * 256 + p[o + 1] as int;
            let m: int = o + 2 + n;
            parse_column(p, o) == Ok::<(ColumnModel, int), Seq<char>>(
                (
                    ColumnModel {
                        name: decode_utf8(p.subrange(o + 2, m)),
                        type_code: p[m],
                        length: (p[m + 1] as int * 256 + p[m + 2] as int) as u16,
                    },
                    m + 3,
                ),
            )
        }),
{
    let h = p.subrange(o, o + 2);
    assert(h[0] == p[o] && h[1] == p[o + 1]);
    let m: int = o + 2 + (p[o] as int * 256 + p[o + 1] as int);
    let t = p.subrange(m + 1, m + 3);
    assert(t[0] == p[m + 1] && t[1] == p[m + 2]);
}

proof fn lemma_parse_values_len(p: Seq<u8>, off: int, n: nat)
    ensures
        parse_values(p, off, n) matches Ok((vs, _)) ==> vs.len() == n,
    decreases n,
{
    if n > 0 {
        if let Ok((v, o)) = parse_value(p, off) {
            lemma_parse_values_len(p, o, (n - 1) as nat);
        }
    }
}

proof fn lemma_parse_columns_len(p: Seq<u8>, off: int, n: nat)
    ensures
        parse_columns(p, off, n) matches Ok((cs, _)) ==> cs.len() == n,
    decreases n,
{
    if n > 0 {
        if let Ok((c, o)) = parse_column(p, off) {
            lemma_parse_columns_len(p, o, (n - 1) as nat);
        }
    }
}

proof fn lemma_parse_rows_shape(p: Seq<u8>, off: int, width: nat, n: nat)
    ensures
        parse_rows(p, off, width, n) matches Ok((rows, _)) ==> rows.len() == n && forall|r: int|
            0 <= r < rows.len() ==> (#[trigger] rows[r]).len() == width,
    decreases n,
{
    if n > 0 {
        lemma_parse_values_len(p, off, width);
        if let Ok((r0, o)) = parse_values(p, off, width) {
            lemma_parse_rows_shape(p, o, width, (n - 1) as nat);
            if let Ok((rest, _)) = parse_rows(p, o, width, (n - 1) as nat) {
                let rows = seq![r0] + rest;
                assert forall|r: int| 0 <= r < rows.len() implies (#[trigger] rows[r]).len()
                    == width by {
                    if r > 0 {
                        assert(rows[r] == rest[r - 1]);
                    }
                }
            }
        }
    }
}

/// A decoded result set has as many columns as its big-endian 16-bit count
/// says, and every one of its rows has exactly one value per column.
pub proof fn law_resultset_shape(p: Seq<u8>)
    ensures
        resultset_decode(p) matches Ok(rs) ==> {
            &&& rs.columns.len() == p[0] as int * 256 + p[1] as int
            &&& forall|r: int| 0 <= r < rs.rows.len() ==> (#[trigger] rs.rows[r]).len()
                == rs.columns.len()
        },
{
    if p.len() >= 2 {
        lemma_parse_columns_len(p, 2, be_u16(p) as nat);
        if let Ok((columns, o)) = parse_columns(p, 2, be_u16(p) as nat) {
            if p.len() - o >= 4 {
                lemma_parse_rows_shape(p, o + 4, columns.len(), be_u32(p.subrange(o, o + 4)) as nat);
            }
        }
    }
}

} // verus!
