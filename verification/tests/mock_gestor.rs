//! The driver's reply handling against a simulated server (protocol v1): every
//! frame travels as bytes, encoded and decoded on both sides.

use rsoup::connection_manager::{reply_is_readable, Connection, DriverError, QueryResult};
use rsoup::protocol::{
    encode_error, encode_resultset, Column, Frame, ResultSet, Value, ERR_GENERIC, ERR_PARSE,
    ERR_TRANSACTION, OP_BEGIN, OP_COMMIT, OP_ERROR, OP_OK, OP_PING, OP_PONG, OP_QUERY, OP_RESULT,
    OP_ROLLBACK, TYPE_INT,
};
use rsoup::tcp_server::frame_header;
use rsoup::transaction_manager::{Transaction, TransactionManager};

/// The simulated server's answer to one request.
fn respond(frame: &Frame) -> Frame {
    match frame.opcode {
        OP_PING => Frame {
            opcode: OP_PONG,
            payload: Vec::new(),
        },
        OP_BEGIN | OP_COMMIT | OP_ROLLBACK => Frame {
            opcode: OP_OK,
            payload: 0u32.to_be_bytes().to_vec(),
        },
        OP_QUERY => {
            let sql =
                String::from_utf8_lossy(&frame.payload[4.min(frame.payload.len())..]).to_string();
            if sql.contains("BOGUS") {
                Frame {
                    opcode: OP_ERROR,
                    payload: encode_error(ERR_PARSE, "syntax error"),
                }
            } else if sql.contains("INSERT") {
                Frame {
                    opcode: OP_OK,
                    payload: 1u32.to_be_bytes().to_vec(),
                }
            } else {
                let rs = ResultSet {
                    columns: vec![
                        Column {
                            name: "id".into(),
                            type_code: TYPE_INT,
                            length: 0,
                        },
                        Column {
                            name: "balance".into(),
                            type_code: TYPE_INT,
                            length: 0,
                        },
                    ],
                    rows: vec![
                        vec![Value::Int(1), Value::Int(100)],
                        vec![Value::Int(2), Value::Int(200)],
                    ],
                };
                Frame {
                    opcode: OP_RESULT,
                    payload: encode_resultset(&rs),
                }
            }
        }
        _ => Frame {
            opcode: OP_ERROR,
            payload: encode_error(ERR_GENERIC, "unsupported opcode"),
        },
    }
}

/// Sends a request over the simulated wire and reads the reply back the way
/// the socket layer does: header first, then the announced payload.
struct Wire {
    ops: Vec<u8>,
}

impl Wire {
    fn new() -> Wire {
        Wire { ops: Vec::new() }
    }

    fn exchange(&mut self, request: &Frame) -> Frame {
        let sent = request.encode();
        let received = Frame::decode(&sent).unwrap();
        self.ops.push(received.opcode);
        let reply = respond(&received).encode();
        let (opcode, length) = frame_header(&reply[0..8]).unwrap();
        assert_eq!(reply.len(), 8 + length as usize);
        let frame = Frame {
            opcode,
            payload: reply[8..].to_vec(),
        };
        assert!(reply_is_readable(&frame));
        frame
    }
}

fn int_at(row: &[Value], index: usize) -> i32 {
    match row.get(index) {
        Some(Value::Int(value)) => *value,
        _ => -1,
    }
}

#[test]
fn ping_against_mock_gestor() {
    let mut wire = Wire::new();
    let reply = wire.exchange(&Connection::ping_request());
    Connection::ping_reply(&reply).unwrap();
}

#[test]
fn query_decodes_resultset() {
    let mut wire = Wire::new();
    let conn = Connection::new();
    let reply = wire.exchange(&Connection::query_request("SELECT * FROM accounts"));
    match conn.query_reply(&reply).unwrap() {
        QueryResult::ResultSet(rs) => {
            assert_eq!(rs.columns[0].name, "id");
            assert_eq!(rs.rows.len(), 2);
            assert_eq!(int_at(&rs.rows[0], 0), 1);
            assert_eq!(int_at(&rs.rows[1], 1), 200);
        }
        QueryResult::Affected(_) => panic!("se esperaba ResultSet"),
    }
}

#[test]
fn begin_query_commit_sequence() {
    let mut wire = Wire::new();
    let mut manager = TransactionManager::new();
    let reply = wire.exchange(&Connection::tx_request(OP_BEGIN));
    manager.begin_reply(&reply).unwrap();
    let reply = wire.exchange(&Connection::query_request(
        "INSERT INTO accounts VALUES (90, 1000)",
    ));
    manager.query_reply(&reply).unwrap();
    let reply = wire.exchange(&Connection::tx_request(OP_COMMIT));
    manager.commit_reply(&reply).unwrap();
    assert!(!manager.in_transaction());
    assert_eq!(wire.ops, vec![OP_BEGIN, OP_QUERY, OP_COMMIT]);
}

#[test]
fn begin_query_rollback_sequence() {
    let mut wire = Wire::new();
    let mut manager = TransactionManager::new();
    let reply = wire.exchange(&Connection::tx_request(OP_BEGIN));
    manager.begin_reply(&reply).unwrap();
    let reply = wire.exchange(&Connection::query_request(
        "INSERT INTO accounts VALUES (91, 2000)",
    ));
    manager.query_reply(&reply).unwrap();
    let reply = wire.exchange(&Connection::tx_request(OP_ROLLBACK));
    manager.rollback_reply(&reply).unwrap();
    assert!(!manager.in_transaction());
    assert_eq!(wire.ops, vec![OP_BEGIN, OP_QUERY, OP_ROLLBACK]);
}

#[test]
fn error_frame_becomes_driver_error() {
    let mut wire = Wire::new();
    let conn = Connection::new();
    let reply = wire.exchange(&Connection::query_request("BOGUS SQL"));
    let error = conn.query_reply(&reply).unwrap_err();
    assert_eq!(error.code, ERR_PARSE);
    assert!(!error.message.is_empty());
}

#[test]
fn transaction_guard_runs_and_commits() {
    let mut wire = Wire::new();
    let mut conn = Connection::new();
    let reply = wire.exchange(&Connection::tx_request(OP_BEGIN));
    let tx = Transaction::begin_reply(&mut conn, &reply).unwrap();
    let request = tx
        .query_request("INSERT INTO accounts VALUES (5, 500)")
        .unwrap();
    let reply = wire.exchange(&request);
    match conn.query_reply(&reply).unwrap() {
        QueryResult::Affected(1) => {}
        _ => panic!("se esperaba Affected(1)"),
    }
    let reply = wire.exchange(&Connection::tx_request(OP_COMMIT));
    tx.commit_reply(&mut conn, &reply).unwrap();
    assert_eq!(wire.ops, vec![OP_BEGIN, OP_QUERY, OP_COMMIT]);
}

#[test]
fn error_variant_is_exported() {
    let _ = std::mem::size_of::<DriverError>();
}

// ---------------------------------------------------------------------------
// Replies, one by one

fn ok_frame(n: u32) -> Frame {
    Frame {
        opcode: OP_OK,
        payload: n.to_be_bytes().to_vec(),
    }
}

#[test]
fn active_transactions_follow_accepted_commands() {
    let mut conn = Connection::new();
    assert_eq!(conn.active_transactions(), 0);
    conn.tx_reply(OP_BEGIN, &ok_frame(0)).unwrap();
    assert_eq!(conn.active_transactions(), 1);
    conn.tx_reply(OP_BEGIN, &ok_frame(0)).unwrap();
    assert_eq!(conn.active_transactions(), 2);
    conn.tx_reply(OP_COMMIT, &ok_frame(0)).unwrap();
    assert_eq!(conn.active_transactions(), 1);
    conn.tx_reply(OP_ROLLBACK, &ok_frame(0)).unwrap();
    assert_eq!(conn.active_transactions(), 0);
    // never below zero
    conn.tx_reply(OP_COMMIT, &ok_frame(0)).unwrap();
    assert_eq!(conn.active_transactions(), 0);
    // an opcode that is no transaction command leaves the count
    conn.tx_reply(OP_PING, &ok_frame(0)).unwrap();
    assert_eq!(conn.active_transactions(), 0);
}

#[test]
fn refused_command_leaves_the_count() {
    let mut conn = Connection::new();
    let refusal = Frame {
        opcode: OP_ERROR,
        payload: encode_error(ERR_TRANSACTION, "no transaction"),
    };
    let e = conn.tx_reply(OP_COMMIT, &refusal).unwrap_err();
    assert_eq!((e.code, e.message.as_str()), (ERR_TRANSACTION, "no transaction"));
    assert_eq!(conn.active_transactions(), 0);
    let e = conn.tx_reply(OP_BEGIN, &Connection::ping_request()).unwrap_err();
    assert_eq!(e.code, ERR_GENERIC);
    assert_eq!(e.message, "unexpected opcode 1 for transaction command");
    assert_eq!(conn.active_transactions(), 0);
}

#[test]
fn malformed_error_reply_is_a_protocol_failure() {
    let conn = Connection::new();
    let reply = Frame {
        opcode: OP_ERROR,
        payload: vec![1, 0],
    };
    let e = conn.query_reply(&reply).unwrap_err();
    assert_eq!(e.code, ERR_GENERIC);
    assert_eq!(e.message, "protocol error: error payload too short");
}

#[test]
fn error_reply_announcing_too_much_cannot_be_read() {
    let reply = Frame {
        opcode: OP_ERROR,
        payload: vec![1, 0, 9, b'a'],
    };
    assert!(!reply_is_readable(&reply));
    assert!(reply_is_readable(&Frame {
        opcode: OP_OK,
        payload: vec![1, 0, 9, b'a'],
    }));
}

#[test]
fn query_reply_kinds() {
    let conn = Connection::new();
    assert_eq!(conn.query_reply(&ok_frame(7)).unwrap(), QueryResult::Affected(7));
    let e = conn
        .query_reply(&Frame {
            opcode: OP_OK,
            payload: vec![0],
        })
        .unwrap_err();
    assert_eq!(e.message, "protocol error: ok payload must be 4 bytes");
    let e = conn.query_reply(&Connection::ping_request()).unwrap_err();
    assert_eq!((e.code, e.message.as_str()), (ERR_GENERIC, "unexpected opcode 1 for query"));
    let e = conn
        .query_reply(&Frame {
            opcode: OP_RESULT,
            payload: vec![],
        })
        .unwrap_err();
    assert_eq!(e.message, "protocol error: resultset payload too short");
}

#[test]
fn ping_needs_pong() {
    assert!(Connection::ping_reply(&Connection::ping_request()).is_err());
    assert_eq!(
        Connection::ping_reply(&ok_frame(0)).unwrap_err(),
        "expected PONG, got opcode 16"
    );
}

#[test]
fn manager_tracks_the_open_transaction() {
    let mut manager = TransactionManager::new();
    assert!(!manager.in_transaction());
    manager.begin_reply(&ok_frame(0)).unwrap();
    assert!(manager.in_transaction());
    assert_eq!(manager.active_transactions(), 1);
    let refusal = Frame {
        opcode: OP_ERROR,
        payload: encode_error(ERR_TRANSACTION, "busy"),
    };
    assert!(manager.commit_reply(&refusal).is_err());
    assert!(manager.in_transaction());
    manager.rollback_reply(&ok_frame(0)).unwrap();
    assert!(!manager.in_transaction());
    assert_eq!(manager.active_transactions(), 0);
}

#[test]
fn driver_error_sentences() {
    let e = DriverError {
        code: 1,
        message: "boom".into(),
    };
    assert_eq!(e.to_string(), "driver error 1: boom");
    let g = DriverError::generic("broken pipe".into());
    assert_eq!((g.code, g.message.as_str()), (ERR_GENERIC, "broken pipe"));
    let p = DriverError::from_protocol_error(rsoup::protocol::ProtocolError("bad".into()));
    assert_eq!(p.message, "protocol error: bad");
}

#[test]
fn socket_header_checks() {
    let sent = Frame {
        opcode: OP_QUERY,
        payload: vec![1, 2, 3],
    }
    .encode();
    assert_eq!(frame_header(&sent[0..8]).unwrap(), (OP_QUERY, 3));
    assert_eq!(
        frame_header(&[0x58, 0x58, 1, 1, 0, 0, 0, 0]).unwrap_err(),
        "bad magic [88, 88]"
    );
    assert_eq!(
        frame_header(&[0x53, 0x50, 2, 1, 0, 0, 0, 0]).unwrap_err(),
        "unsupported protocol version 2"
    );
}

#[test]
fn send_and_recv_frame() {
    // what the client sends, as the server reads it
    let sent = Frame {
        opcode: OP_QUERY,
        payload: rsoup::protocol::encode_query("SELECT 1"),
    }
    .encode();
    assert_eq!(&sent[0..2], b"SP");
    let (opcode, length) = frame_header(&sent[0..8]).unwrap();
    assert_eq!(opcode, OP_QUERY);
    assert_eq!(
        rsoup::protocol::decode_query(&sent[8..8 + length as usize]).unwrap(),
        "SELECT 1"
    );
    // the server answers with a PING frame
    let answer = Frame {
        opcode: OP_PING,
        payload: vec![],
    }
    .encode();
    let (opcode, length) = frame_header(&answer[0..8]).unwrap();
    let frame = Frame {
        opcode,
        payload: answer[8..8 + length as usize].to_vec(),
    };
    assert_eq!(frame.opcode, OP_PING);
}
