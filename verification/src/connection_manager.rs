//! The driver's side of a connection to the server: the request frames it
//! sends and how it reads each reply. The socket belongs to the caller, which
//! sends the frame a method gives and hands back the frame the server answers.

use vstd::prelude::*;
use vstd::string::*;
use crate::protocol::{
    decode_error, decode_ok, decode_resultset, encode_query, error_decode, error_payload_complete,
    ok_decode, query_bytes, u16_be, resultset_decode, Frame, ProtocolError, ResultSet, ResultSetModel,
    ERR_GENERIC, OP_BEGIN, OP_COMMIT, OP_ERROR, OP_OK, OP_PING, OP_PONG, OP_QUERY, OP_RESULT,
    OP_ROLLBACK,
};
use crate::text::{decimal, decimal_string};

verus! {

/// Error reported to the caller: the server's ERROR frame, or a failure of the
/// exchange itself under the generic code.
#[derive(Debug, Clone, PartialEq, Eq)]
pub struct DriverError {
    pub code: u8,
    pub message: String,
}

impl View for DriverError {
    type V = (u8, Seq<char>);

    open spec fn view(&self) -> (u8, Seq<char>) {
        (self.code, self.message@)
    }
}

/// The error that stands for a protocol error: generic code, and the protocol
/// error's sentence.
pub open spec fn protocol_failure(message: Seq<char>) -> (u8, Seq<char>) {
    (ERR_GENERIC, "protocol error: "@ + message)
}

impl DriverError {
    /// The error as a sentence: `driver error <code>: <message>`.
    pub fn to_string(&self) -> (s: String)
        ensures
            s@ == "driver error "@ + decimal(self.code as nat) + ": "@ + self.message@,
    {
        let mut s = String::from_str("driver error ");
        let code = decimal_string(self.code as u64);
        s.append(code.as_str());
        s.append(": ");
        s.append(self.message.as_str());
        s
    }

    /// A failure below the protocol (such as an I/O error), under the generic
    /// code, with its text as the message.
    pub fn generic(message: String) -> (e: DriverError)
        ensures
            e@ == (ERR_GENERIC, message@),
    {
        DriverError { code: ERR_GENERIC, message }
    }

    /// A protocol error, under the generic code, with its sentence as the message.
    pub fn from_protocol_error(err: ProtocolError) -> (e: DriverError)
        ensures
            e@ == protocol_failure(err.0@),
    {
        DriverError { code: ERR_GENERIC, message: err.to_string() }
    }
}

/// Result of a query: RESULT with columns and rows, or OK with the number of
/// affected rows.
#[derive(Debug, Clone, PartialEq, Eq)]
pub enum QueryResult {
    ResultSet(ResultSet),
    Affected(u32),
}

/// A query result as a mathematical object.
pub enum QueryResultModel {
    ResultSet(ResultSetModel),
    Affected(u32),
}

impl View for QueryResult {
    type V = QueryResultModel;

    open spec fn view(&self) -> QueryResultModel {
        match self {
            QueryResult::ResultSet(rs) => QueryResultModel::ResultSet(rs@),
            QueryResult::Affected(n) => QueryResultModel::Affected(*n),
        }
    }
}

/// The error an ERROR reply stands for: the server's code and message, or the
/// protocol error of its payload.
pub open spec fn error_reply(payload: Seq<u8>) -> (u8, Seq<char>) {
    match error_decode(payload) {
        Ok((code, message)) => (code, message),
        Err(m) => protocol_failure(m),
    }
}

/// A reply that can be read without slicing past its end: an ERROR reply must
/// not announce a message longer than its payload.
pub open spec fn reply_readable(response: Frame) -> bool {
    response.opcode == OP_ERROR ==> error_payload_complete(response.payload@)
}

/// How a transaction command ends, given the server's reply.
pub open spec fn tx_outcome(reply_opcode: u8, payload: Seq<u8>) -> Result<(), (u8, Seq<char>)> {
    if reply_opcode == OP_OK {
        Ok(())
    } else if reply_opcode == OP_ERROR {
        Err(error_reply(payload))
    } else {
        Err(
            (
                ERR_GENERIC,
                "unexpected opcode "@ + decimal(reply_opcode as nat) + " for transaction command"@,
            ),
        )
    }
}

/// The number of active transactions after the server accepted `opcode`:
/// one more after BEGIN, one fewer (never below zero) after COMMIT or ROLLBACK.
pub open spec fn active_after(opcode: u8, count: u32) -> int {
    if opcode == OP_BEGIN {
        count + 1
    } else if opcode == OP_COMMIT || opcode == OP_ROLLBACK {
        if count == 0 {
            0
        } else {
            count - 1
        }
    } else {
        count as int
    }
}

/// How a query ends, given the server's reply.
pub open spec fn query_outcome(reply_opcode: u8, payload: Seq<u8>) -> Result<
    QueryResultModel,
    (u8, Seq<char>),
> {
    if reply_opcode == OP_RESULT {
        match resultset_decode(payload) {
            Ok(rs) => Ok(QueryResultModel::ResultSet(rs)),
            Err(m) => Err(protocol_failure(m)),
        }
    } else if reply_opcode == OP_OK {
        match ok_decode(payload) {
            Ok(n) => Ok(QueryResultModel::Affected(n)),
            Err(m) => Err(protocol_failure(m)),
        }
    } else if reply_opcode == OP_ERROR {
        Err(error_reply(payload))
    } else {
        Err((ERR_GENERIC, "unexpected opcode "@ + decimal(reply_opcode as nat) + " for query"@))
    }
}

/// The driver's side of one connection to the server.
pub struct Connection {
    /// Number of active transactions reported by the server.
    active_transactions: u32,
}

impl View for Connection {
    type V = u32;

    /// The number of active transactions on the connection.
    closed spec fn view(&self) -> u32 {
        self.active_transactions
    }
}

fn read_error_reply(payload: &[u8]) -> (e: DriverError)
    requires
        error_payload_complete(payload@),
    ensures
        e@ == error_reply(payload@),
{
    match decode_error(payload) {
        Ok((code, message)) => DriverError { code, message },
        Err(err) => DriverError::from_protocol_error(err),
    }
}

fn unexpected_opcode(opcode: u8, context: &str) -> (e: DriverError)
    ensures
        e@ == (ERR_GENERIC, "unexpected opcode "@ + decimal(opcode as nat) + context@),
{
    let mut m = String::from_str("unexpected opcode ");
    let n = decimal_string(opcode as u64);
    m.append(n.as_str());
    m.append(context);
    DriverError { code: ERR_GENERIC, message: m }
}

impl Connection {
    /// A freshly opened connection: no active transaction (autocommit).
    pub fn new() -> (c: Connection)
        ensures
            c@ == 0,
    {
        Connection { active_transactions: 0 }
    }

    /// Number of active transactions on this connection (0 = autocommit).
    pub fn active_transactions(&self) -> (n: u32)
        ensures
            n == self@,
    {
        self.active_transactions
    }

    /// The PING frame of the handshake.
    pub fn ping_request() -> (f: Frame)
        ensures
            f.opcode == OP_PING,
            f.payload@ == Seq::<u8>::empty(),
    {
        Frame { opcode: OP_PING, payload: Vec::new() }
    }

    /// Reads the reply to PING: it must be PONG.
    pub fn ping_reply(response: &Frame) -> (res: Result<(), String>)
        ensures
            res is Ok <==> response.opcode == OP_PONG,
            res matches Err(m) ==> m@ == "expected PONG, got opcode "@ + decimal(
                response.opcode as nat,
            ),
    {
        if response.opcode != OP_PONG {
            let mut m = String::from_str("expected PONG, got opcode ");
            let n = decimal_string(response.opcode as u64);
            m.append(n.as_str());
            return Err(m);
        }
        Ok(())
    }

    /// The QUERY frame that carries `sql`.
    pub fn query_request(sql: &str) -> (f: Frame)
        ensures
            f.opcode == OP_QUERY,
            f.payload@ == query_bytes(sql@),
    {
        Frame { opcode: OP_QUERY, payload: encode_query(sql) }
    }

    /// The frame of a transaction command (BEGIN, COMMIT or ROLLBACK): the
    /// opcode alone, with an empty payload.
    pub fn tx_request(opcode: u8) -> (f: Frame)
        ensures
            f.opcode == opcode,
            f.payload@ == Seq::<u8>::empty(),
    {
        Frame { opcode, payload: Vec::new() }
    }

    /// Reads the reply to a transaction command `opcode`. When the server
    /// accepts it, the count of active transactions follows the command.
    pub fn tx_reply(&mut self, opcode: u8, response: &Frame) -> (res: Result<(), DriverError>)
        requires
            reply_readable(*response),
            opcode == OP_BEGIN && response.opcode == OP_OK ==> old(self)@ < u32::MAX,
        ensures
            match res {
                Ok(_) => tx_outcome(response.opcode, response.payload@) is Ok,
                Err(e) => tx_outcome(response.opcode, response.payload@) == Err::<(), (u8, Seq<char>)>(e@),
            },
            final(self)@ == if response.opcode == OP_OK {
                active_after(opcode, old(self)@)
            } else {
                old(self)@ as int
            },
    {
        if response.opcode == OP_OK {
            if opcode == OP_BEGIN {
                self.active_transactions = self.active_transactions + 1;
            } else if opcode == OP_COMMIT || opcode == OP_ROLLBACK {
                self.active_transactions = self.active_transactions.saturating_sub(1);
            }
            Ok(())
        } else if response.opcode == OP_ERROR {
            Err(read_error_reply(response.payload.as_slice()))
        } else {
            Err(unexpected_opcode(response.opcode, " for transaction command"))
        }
    }

    /// Reads the reply to a query: a result set, a count of affected rows, or
    /// the error it stands for.
    pub fn query_reply(&self, response: &Frame) -> (res: Result<QueryResult, DriverError>)
        requires
            reply_readable(*response),
        ensures
            match res {
                Ok(r) => query_outcome(response.opcode, response.payload@) == Ok::<QueryResultModel, (u8, Seq<char>)>(r@),
                Err(e) => query_outcome(response.opcode, response.payload@) == Err::<QueryResultModel, (u8, Seq<char>)>(e@),
            },
    {
        let payload = response.payload.as_slice();
        if response.opcode == OP_RESULT {
            match decode_resultset(payload) {
                Ok(rs) => Ok(QueryResult::ResultSet(rs)),
                Err(err) => Err(DriverError::from_protocol_error(err)),
            }
        } else if response.opcode == OP_OK {
            match decode_ok(payload) {
                Ok(n) => Ok(QueryResult::Affected(n)),
                Err(err) => Err(DriverError::from_protocol_error(err)),
            }
        } else if response.opcode == OP_ERROR {
            Err(read_error_reply(payload))
        } else {
            Err(unexpected_opcode(response.opcode, " for query"))
        }
    }
}

/// Whether a reply can be read without slicing past its end (the condition
/// under which the reading methods may be called).
pub fn reply_is_readable(response: &Frame) -> (b: bool)
    ensures
        b == reply_readable(*response),
{
    if response.opcode != OP_ERROR || response.payload.len() < 3 {
        return true;
    }
    let announced = u16_be(&response.payload.as_slice()[1..3]) as usize;
    announced <= response.payload.len() - 3
}

/// An accepted BEGIN opens one more transaction; an accepted COMMIT or ROLLBACK
/// closes exactly one (none when none is open); any other command leaves the
/// count. ROLLBACK and COMMIT count alike.
pub proof fn law_accepted_commands_count(n: u32, other: u8)
    requires
        other != OP_BEGIN && other != OP_COMMIT && other != OP_ROLLBACK,
    ensures
        active_after(OP_BEGIN, n) == n + 1,
        active_after(OP_COMMIT, n) == if n == 0 { 0 } else { n - 1 },
        active_after(OP_ROLLBACK, n) == if n == 0 { 0 } else { n - 1 },
        active_after(OP_ROLLBACK, n) == active_after(OP_COMMIT, n),
        active_after(other, n) == n,
{
}

/// A BEGIN followed by a ROLLBACK or a COMMIT, both accepted, gives the count
/// back; with two transactions open, one ROLLBACK leaves one.
pub proof fn law_begin_then_end_restores(n: u32)
    requires
        n < u32::MAX,
    ensures
        active_after(OP_ROLLBACK, active_after(OP_BEGIN, n) as u32) == n,
        active_after(OP_COMMIT, active_after(OP_BEGIN, n) as u32) == n,
        n >= 1 ==> active_after(OP_ROLLBACK, n) == n - 1 && active_after(OP_ROLLBACK, n) >= 0,
{
}

/// An ERROR reply that decodes stands for the server's own code and message,
/// for a query and for a transaction command alike; any other reply than the
/// expected ones is a failure too.
pub proof fn law_error_replies_fail(payload: Seq<u8>, code: u8, message: Seq<char>, op: u8)
    requires
        error_decode(payload) == Ok::<(u8, Seq<char>), Seq<char>>((code, message)),
    ensures
        error_reply(payload) == (code, message),
        query_outcome(OP_ERROR, payload) == Err::<QueryResultModel, (u8, Seq<char>)>((code, message)),
        tx_outcome(OP_ERROR, payload) == Err::<(), (u8, Seq<char>)>((code, message)),
        op != OP_RESULT && op != OP_OK ==> query_outcome(op, payload) is Err,
        op != OP_OK ==> tx_outcome(op, payload) is Err,
        tx_outcome(OP_OK, payload) is Ok,
{
}

/// A RESULT reply gives the result set its payload decodes to; an OK reply the
/// count it carries, read big-endian.
pub proof fn law_success_replies(payload: Seq<u8>)
    ensures
        resultset_decode(payload) matches Ok(rs) ==> query_outcome(OP_RESULT, payload) == Ok::<
            QueryResultModel,
            (u8, Seq<char>),
        >(QueryResultModel::ResultSet(rs)),
        resultset_decode(payload) is Err ==> query_outcome(OP_RESULT, payload) is Err,
        payload.len() == 4 ==> query_outcome(OP_OK, payload) == Ok::<
            QueryResultModel,
            (u8, Seq<char>),
        >(
            QueryResultModel::Affected(
                (payload[0] as int * 16777216 + payload[1] as int * 65536 + payload[2] as int
                    * 256 + payload[3] as int) as u32,
            ),
        ),
        payload.len() != 4 ==> query_outcome(OP_OK, payload) is Err,
{
}

} // verus!
