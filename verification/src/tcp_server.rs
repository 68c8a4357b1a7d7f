//! Checks on what arrives from the socket: the header of an incoming frame.

use vstd::prelude::*;
use vstd::string::*;
use crate::protocol::{be_u32, frame_bytes, len32, lemma_u32_roundtrip, u32_be_bytes, byte_pair_string, byte_pair_text, u32_be, HEADER_SIZE, MAGIC, VERSION};
use crate::text::{decimal, decimal_string};

verus! {

/// What the header of an incoming frame announces, the opcode and the payload
/// length to read next; or why the header is refused.
pub open spec fn header_check(header: Seq<u8>) -> Result<(u8, u32), Seq<char>> {
    if header[0] != MAGIC[0] || header[1] != MAGIC[1] {
        Err("bad magic "@ + byte_pair_text(header[0], header[1]))
    } else if header[2] != VERSION {
        Err("unsupported protocol version "@ + decimal(header[2] as nat))
    } else {
        Ok((header[3], be_u32(header.subrange(4, 8))))
    }
}

/// Checks the header read from the socket and gives the opcode and the number
/// of payload bytes to read.
pub fn frame_header(header: &[u8]) -> (res: Result<(u8, u32), String>)
    requires
        header@.len() == HEADER_SIZE,
    ensures
        match res {
            Ok(h) => header_check(header@) == Ok::<(u8, u32), Seq<char>>(h),
            Err(m) => header_check(header@) == Err::<(u8, u32), Seq<char>>(m@),
        },
{
    if header[0] != MAGIC[0] || header[1] != MAGIC[1] {
        let mut m = String::from_str("bad magic ");
        let pair = byte_pair_string(header[0], header[1]);
        m.append(pair.as_str());
        return Err(m);
    }
    if header[2] != VERSION {
        let mut m = String::from_str("unsupported protocol version ");
        let v = decimal_string(header[2] as u64);
        m.append(v.as_str());
        return Err(m);
    }
    let opcode = header[3];
    let length = u32_be(&header[4..8]);
    Ok((opcode, length))
}

/// What the socket reads back of a sent frame: its header passes the check and
/// announces the opcode and the payload length (modulo 2^32), and the payload
/// follows the header.
pub proof fn lemma_header_of_sent_frame(opcode: u8, payload: Seq<u8>)
    ensures
        header_check(frame_bytes(opcode, payload).subrange(0, 8)) == Ok::<(u8, u32), Seq<char>>(
            (opcode, len32(payload.len())),
        ),
        frame_bytes(opcode, payload).subrange(8, 8 + payload.len() as int) == payload,
{
    let d = frame_bytes(opcode, payload);
    let h = d.subrange(0, 8);
    lemma_u32_roundtrip(len32(payload.len()));
    assert(h.subrange(4, 8) =~= u32_be_bytes(len32(payload.len())));
    assert(d.subrange(8, 8 + payload.len() as int) =~= payload);
}

} // verus!
