//! Client-side transactions over protocol v1: a manager that tracks whether a
//! transaction is open on its connection, and a guard for one transaction.

use vstd::prelude::*;
use vstd::string::*;
use crate::connection_manager::{
    active_after, query_outcome, reply_readable, tx_outcome, Connection, DriverError, QueryResult,
    QueryResultModel,
};
use crate::protocol::{query_bytes, Frame, ERR_TRANSACTION, OP_BEGIN, OP_COMMIT, OP_OK, OP_ROLLBACK};

verus! {

/// Client-side transaction manager: tracks whether a transaction is open on its
/// connection.
pub struct TransactionManager {
    connection: Connection,
    active: bool,
}

impl View for TransactionManager {
    /// The connection's count of active transactions, and whether the manager
    /// has a transaction open.
    type V = (u32, bool);

    closed spec fn view(&self) -> (u32, bool) {
        (self.connection@, self.active)
    }
}

/// Whether the reply to a transaction command can be read, in the state `count`.
pub open spec fn tx_reply_allowed(opcode: u8, count: u32, response: Frame) -> bool {
    &&& reply_readable(response)
    &&& (opcode == OP_BEGIN && response.opcode == OP_OK ==> count < u32::MAX)
}

impl TransactionManager {
    /// The manager of a freshly opened connection: no transaction open.
    pub fn new() -> (m: TransactionManager)
        ensures
            m@ == (0u32, false),
    {
        TransactionManager { connection: Connection::new(), active: false }
    }

    /// Is a transaction open on this connection?
    pub fn in_transaction(&self) -> (b: bool)
        ensures
            b == self@.1,
    {
        self.active
    }

    /// Number of active transactions that the connection counts.
    pub fn active_transactions(&self) -> (n: u32)
        ensures
            n == self@.0,
    {
        self.connection.active_transactions()
    }

    /// Reads the reply to a query sent in autocommit or inside the open
    /// transaction; the state does not change.
    pub fn query_reply(&self, response: &Frame) -> (res: Result<QueryResult, DriverError>)
        requires
            reply_readable(*response),
        ensures
            match res {
                Ok(r) => query_outcome(response.opcode, response.payload@) == Ok::<QueryResultModel, (u8, Seq<char>)>(r@),
                Err(e) => query_outcome(response.opcode, response.payload@) == Err::<QueryResultModel, (u8, Seq<char>)>(e@),
            },
    {
        self.connection.query_reply(response)
    }

    fn command_reply(&mut self, opcode: u8, response: &Frame, open_after: bool) -> (res: Result<
        (),
        DriverError,
    >)
        requires
            tx_reply_allowed(opcode, old(self)@.0, *response),
        ensures
            match res {
                Ok(_) => tx_outcome(response.opcode, response.payload@) is Ok,
                Err(e) => tx_outcome(response.opcode, response.payload@) == Err::<(), (u8, Seq<char>)>(e@),
            },
            res is Ok ==> final(self)@.0 == active_after(opcode, old(self)@.0) && final(self)@.1 == open_after,
            res is Err ==> final(self)@ == old(self)@,
    {
        let r = self.connection.tx_reply(opcode, response);
        if r.is_ok() {
            self.active = open_after;
        }
        r
    }

    /// Reads the reply to BEGIN: once the server accepts, a transaction is open.
    pub fn begin_reply(&mut self, response: &Frame) -> (res: Result<(), DriverError>)
        requires
            tx_reply_allowed(OP_BEGIN, old(self)@.0, *response),
        ensures
            match res {
                Ok(_) => tx_outcome(response.opcode, response.payload@) is Ok,
                Err(e) => tx_outcome(response.opcode, response.payload@) == Err::<(), (u8, Seq<char>)>(e@),
            },
            res is Ok ==> final(self)@.0 == old(self)@.0 + 1 && final(self)@.1,
            res is Err ==> final(self)@ == old(self)@,
    {
        self.command_reply(OP_BEGIN, response, true)
    }

    /// Reads the reply to COMMIT: once the server accepts, no transaction is open.
    pub fn commit_reply(&mut self, response: &Frame) -> (res: Result<(), DriverError>)
        requires
            reply_readable(*response),
        ensures
            match res {
                Ok(_) => tx_outcome(response.opcode, response.payload@) is Ok,
                Err(e) => tx_outcome(response.opcode, response.payload@) == Err::<(), (u8, Seq<char>)>(e@),
            },
            res is Ok ==> final(self)@.0 == active_after(OP_COMMIT, old(self)@.0) && !final(self)@.1,
            res is Err ==> final(self)@ == old(self)@,
    {
        self.command_reply(OP_COMMIT, response, false)
    }

    /// Reads the reply to ROLLBACK: once the server accepts, no transaction is open.
    pub fn rollback_reply(&mut self, response: &Frame) -> (res: Result<(), DriverError>)
        requires
            reply_readable(*response),
        ensures
            match res {
                Ok(_) => tx_outcome(response.opcode, response.payload@) is Ok,
                Err(e) => tx_outcome(response.opcode, response.payload@) == Err::<(), (u8, Seq<char>)>(e@),
            },
            res is Ok ==> final(self)@.0 == active_after(OP_ROLLBACK, old(self)@.0) && !final(self)@.1,
            res is Err ==> final(self)@ == old(self)@,
    {
        self.command_reply(OP_ROLLBACK, response, false)
    }
}

/// Guard of one transaction on a connection: open once BEGIN is accepted,
/// closed by an explicit COMMIT or ROLLBACK.
pub struct Transaction {
    active: bool,
}

impl View for Transaction {
    /// Whether the transaction is still open.
    type V = bool;

    closed spec fn view(&self) -> bool {
        self.active
    }
}

impl Transaction {
    /// Reads the reply to BEGIN: the guard, open, once the server accepts.
    pub fn begin_reply(connection: &mut Connection, response: &Frame) -> (res: Result<
        Transaction,
        DriverError,
    >)
        requires
            tx_reply_allowed(OP_BEGIN, old(connection)@, *response),
        ensures
            match res {
                Ok(t) => tx_outcome(response.opcode, response.payload@) is Ok && t@,
                Err(e) => tx_outcome(response.opcode, response.payload@) == Err::<(), (u8, Seq<char>)>(e@),
            },
            res is Ok ==> final(connection)@ == old(connection)@ + 1,
            res is Err ==> final(connection)@ == old(connection)@,
    {
        match connection.tx_reply(OP_BEGIN, response) {
            Ok(()) => Ok(Transaction { active: true }),
            Err(e) => Err(e),
        }
    }

    /// The QUERY frame for `sql` inside the transaction, or the refusal when the
    /// transaction is no longer open.
    pub fn query_request(&self, sql: &str) -> (res: Result<Frame, DriverError>)
        ensures
            match res {
                Ok(f) => self@ && f.opcode == crate::protocol::OP_QUERY && f.payload@ == query_bytes(sql@),
                Err(e) => !self@ && e@ == (ERR_TRANSACTION, "transaction is not active"@),
            },
    {
        if !self.active {
            return Err(
                DriverError {
                    code: ERR_TRANSACTION,
                    message: String::from_str("transaction is not active"),
                },
            );
        }
        Ok(Connection::query_request(sql))
    }

    /// Reads the reply to COMMIT; the guard is spent either way.
    pub fn commit_reply(self, connection: &mut Connection, response: &Frame) -> (res: Result<
        (),
        DriverError,
    >)
        requires
            reply_readable(*response),
        ensures
            match res {
                Ok(_) => tx_outcome(response.opcode, response.payload@) is Ok,
                Err(e) => tx_outcome(response.opcode, response.payload@) == Err::<(), (u8, Seq<char>)>(e@),
            },
            final(connection)@ == if response.opcode == OP_OK {
                active_after(OP_COMMIT, old(connection)@)
            } else {
                old(connection)@ as int
            },
    {
        connection.tx_reply(OP_COMMIT, response)
    }

    /// Reads the reply to ROLLBACK; the guard is spent either way.
    pub fn rollback_reply(self, connection: &mut Connection, response: &Frame) -> (res: Result<
        (),
        DriverError,
    >)
        requires
            reply_readable(*response),
        ensures
            match res {
                Ok(_) => tx_outcome(response.opcode, response.payload@) is Ok,
                Err(e) => tx_outcome(response.opcode, response.payload@) == Err::<(), (u8, Seq<char>)>(e@),
            },
            final(connection)@ == if response.opcode == OP_OK {
                active_after(OP_ROLLBACK, old(connection)@)
            } else {
                old(connection)@ as int
            },
    {
        connection.tx_reply(OP_ROLLBACK, response)
    }
}

} // verus!
