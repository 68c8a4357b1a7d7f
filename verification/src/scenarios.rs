//! The driver's built-in scenarios: each one connects to the server and checks
//! one feature of the driver (handshake, query, commit, rollback, errors).

use vstd::prelude::*;
use vstd::string::*;
use crate::connection_manager::{
    active_after, query_outcome, reply_is_readable, tx_outcome, Connection, DriverError,
    QueryResult, QueryResultModel,
};
use crate::protocol::{
    decode_resultset, error_decode, error_payload_complete, ColumnModel, ResultSetModel, query_bytes, resultset_decode, values_view, Frame,
    Value, ValueModel, ERR_GENERIC, ERR_PARSE, OP_BEGIN, OP_COMMIT, OP_ERROR, OP_PING, OP_PONG,
    OP_QUERY, OP_RESULT, OP_ROLLBACK,
};
use crate::transaction_manager::TransactionManager;
use crate::text::{decimal, decimal_string, signed_decimal, signed_decimal_string, str_equal};

verus! {

/// Result of a scenario.
#[derive(Debug, Clone)]
pub struct ScenarioResult {
    pub name: &'static str,
    pub ok: bool,
    pub summary: String,
}

impl View for ScenarioResult {
    /// Name, verdict and summary.
    type V = (Seq<char>, bool, Seq<char>);

    open spec fn view(&self) -> (Seq<char>, bool, Seq<char>) {
        (self.name@, self.ok, self.summary@)
    }
}

/// Available scenarios.
pub const SCENARIOS: [&'static str; 5] = ["ping", "select", "commit", "rollback", "error"];

/// The error of a scenario that failed below the protocol: generic code, the
/// failure's text.
pub fn driver_err(message: String) -> (e: DriverError)
    ensures
        e@ == (ERR_GENERIC, message@),
{
    DriverError::generic(message)
}

/// The pairs `(id, balance)` of the rows whose first two values are integers,
/// in row order.
pub open spec fn int_pairs(rows: Seq<Seq<ValueModel>>) -> Seq<(i32, i32)>
    decreases rows.len(),
{
    if rows.len() == 0 {
        seq![]
    } else {
        let before = int_pairs(rows.drop_last());
        match (rows.last()[0], rows.last()[1]) {
            (ValueModel::Int(id), ValueModel::Int(balance)) => before.push((id, balance)),
            _ => before,
        }
    }
}

/// The rows that the select scenario expects.
pub open spec fn expected_pairs() -> Seq<(i32, i32)> {
    seq![(1i32, 100i32), (2i32, 200i32)]
}

/// `(a, b)` in decimal.
pub open spec fn pair_text(p: (i32, i32)) -> Seq<char> {
    "("@ + signed_decimal(p.0 as int) + ", "@ + signed_decimal(p.1 as int) + ")"@
}

/// The pairs in decimal, separated by `, `.
pub open spec fn pair_items(s: Seq<(i32, i32)>) -> Seq<char>
    decreases s.len(),
{
    if s.len() == 0 {
        seq![]
    } else if s.len() == 1 {
        pair_text(s[0])
    } else {
        pair_items(s.drop_last()) + ", "@ + pair_text(s.last())
    }
}

/// The `Debug` form of a list of pairs: `[(1, 100), (2, 200)]`.
pub open spec fn pairs_text(s: Seq<(i32, i32)>) -> Seq<char> {
    "["@ + pair_items(s) + "]"@
}

fn pairs_string(pairs: &Vec<(i32, i32)>) -> (s: String)
    ensures
        s@ == pairs_text(pairs@),
{
    let mut s = String::from_str("[");
    let mut i: usize = 0;
    while i < pairs.len()
        invariant
            i <= pairs@.len(),
            s@ == "["@ + pair_items(pairs@.take(i as int)),
        decreases pairs@.len() - i,
    {
        if i > 0 {
            s.append(", ");
        }
        let (a, b) = pairs[i];
        s.append("(");
        let x = signed_decimal_string(a as i64);
        s.append(x.as_str());
        s.append(", ");
        let y = signed_decimal_string(b as i64);
        s.append(y.as_str());
        s.append(")");
        proof {
            let t = pairs@.take(i + 1);
            assert(t.drop_last() =~= pairs@.take(i as int));
            assert(t.last() == (a, b));
            if i == 0 {
                assert(pair_items(pairs@.take(0)) =~= Seq::<char>::empty());
            }
        }
        i = i + 1;
    }
    assert(pairs@.take(i as int) =~= pairs@);
    s.append("]");
    s
}

fn pairs_equal(a: &Vec<(i32, i32)>, b: &Vec<(i32, i32)>) -> (eq: bool)
    ensures
        eq == (a@ == b@),
{
    if a.len() != b.len() {
        return false;
    }
    let mut i: usize = 0;
    while i < a.len()
        invariant
            a@.len() == b@.len(),
            i <= a@.len(),
            forall|j: int| 0 <= j < i ==> a@[j] == b@[j],
        decreases a@.len() - i,
    {
        if a[i].0 != b[i].0 || a[i].1 != b[i].1 {
            return false;
        }
        i = i + 1;
    }
    assert(a@ =~= b@);
    true
}

/// Every row has at least the two values the select scenario reads.
pub open spec fn rows_have_two_values(rows: Seq<Seq<ValueModel>>) -> bool {
    forall|r: int| 0 <= r < rows.len() ==> (#[trigger] rows[r]).len() >= 2
}

/// The summary of the select scenario.
pub open spec fn select_summary(pairs: Seq<(i32, i32)>) -> Seq<char> {
    decimal(pairs.len()) + " filas | esperadas "@ + pairs_text(expected_pairs()) + " | obtenidas "@
        + pairs_text(pairs)
}

/// The verdict of the select scenario on the query's result.
pub open spec fn select_result(q: QueryResultModel) -> (Seq<char>, bool, Seq<char>) {
    match q {
        QueryResultModel::ResultSet(rs) => (
            "select"@,
            int_pairs(rs.rows) == expected_pairs(),
            select_summary(int_pairs(rs.rows)),
        ),
        QueryResultModel::Affected(_) => (
            "select"@,
            false,
            "SELECT devolvio OK, se esperaba ResultSet"@,
        ),
    }
}

/// Judges the select scenario: the query must give a result set whose integer
/// rows are exactly `(1, 100)` and `(2, 200)`.
pub fn select_outcome(result: &QueryResult) -> (r: ScenarioResult)
    requires
        result@ matches QueryResultModel::ResultSet(rs) ==> rows_have_two_values(rs.rows),
    ensures
        r@ == select_result(result@),
{
    match result {
        QueryResult::ResultSet(rs) => {
            let ghost model = rs@.rows;
            let mut expected: Vec<(i32, i32)> = Vec::new();
            expected.push((1, 100));
            expected.push((2, 200));
            assert(expected@ =~= expected_pairs());
            let mut pairs: Vec<(i32, i32)> = Vec::new();
            let mut k: usize = 0;
            while k < rs.rows.len()
                invariant
                    model == rs@.rows,
                    rows_have_two_values(model),
                    k <= rs.rows@.len(),
                    pairs@ == int_pairs(model.take(k as int)),
                decreases rs.rows@.len() - k,
            {
                let row = &rs.rows[k];
                proof {
                    assert(model[k as int] == values_view(row@));
                    assert(model[k as int].len() >= 2);
                    assert(model.take(k + 1).drop_last() =~= model.take(k as int));
                    assert(model.take(k + 1).last() == values_view(row@));
                }
                match (&row[0], &row[1]) {
                    (Value::Int(id), Value::Int(balance)) => {
                        pairs.push((*id, *balance));
                    },
                    _ => {},
                }
                k = k + 1;
            }
            assert(model.take(k as int) =~= model);
            let ok = pairs_equal(&pairs, &expected);
            let mut summary = decimal_string(pairs.len() as u64);
            summary.append(" filas | esperadas ");
            let e = pairs_string(&expected);
            summary.append(e.as_str());
            summary.append(" | obtenidas ");
            let o = pairs_string(&pairs);
            summary.append(o.as_str());
            proof {
                reveal_strlit("select");
            }
            ScenarioResult { name: "select", ok, summary }
        },
        QueryResult::Affected(_) => ScenarioResult {
            name: "select",
            ok: false,
            summary: String::from_str("SELECT devolvio OK, se esperaba ResultSet"),
        },
    }
}

/// The verdict of the ping scenario once the handshake succeeded.
pub open spec fn ping_result() -> (Seq<char>, bool, Seq<char>) {
    ("ping"@, true, "handshake PING/PONG correcto"@)
}

/// The result of the ping scenario once the handshake succeeded.
pub fn ping_outcome() -> (r: ScenarioResult)
    ensures
        r@ == ping_result(),
{
    ScenarioResult { name: "ping", ok: true, summary: String::from_str("handshake PING/PONG correcto") }
}

/// Whether some row of the result starts with the integer `id`.
pub open spec fn has_row_with_id(result: QueryResultModel, id: i32) -> bool {
    match result {
        QueryResultModel::ResultSet(rs) => exists|r: int|
            0 <= r < rs.rows.len() && (#[trigger] rs.rows[r]).len() > 0 && rs.rows[r][0]
                == ValueModel::Int(id),
        QueryResultModel::Affected(_) => false,
    }
}

/// Whether the result of `SELECT id ...` holds a row whose first value is `id`.
pub fn row_exists(result: &QueryResult, id: i32) -> (found: bool)
    ensures
        found == has_row_with_id(result@, id),
{
    match result {
        QueryResult::ResultSet(rs) => {
            let ghost model = rs@.rows;
            let mut k: usize = 0;
            while k < rs.rows.len()
                invariant
                    model == rs@.rows,
                    result@ == QueryResultModel::ResultSet(rs@),
                    k <= rs.rows@.len(),
                    forall|r: int|
                        0 <= r < k ==> !((#[trigger] model[r]).len() > 0 && model[r][0]
                            == ValueModel::Int(id)),
                decreases rs.rows@.len() - k,
            {
                let row = &rs.rows[k];
                assert(model[k as int] == values_view(row@));
                if row.len() > 0 {
                    match &row[0] {
                        Value::Int(value) => {
                            if *value == id {
                                assert(model[k as int][0] == ValueModel::Int(id));
                                assert(result@ == QueryResultModel::ResultSet(rs@));
                                assert(model[k as int].len() > 0);
                                return true;
                            }
                        },
                        _ => {},
                    }
                }
                k = k + 1;
            }
            false
        },
        QueryResult::Affected(_) => false,
    }
}

/// The verdict of the commit scenario, given whether the committed row is there.
pub open spec fn commit_result(present: bool) -> (Seq<char>, bool, Seq<char>) {
    (
        "commit"@,
        present,
        if present {
            "BEGIN+INSERT+COMMIT persistio la fila 90"@
        } else {
            "COMMIT no persistio la fila 90"@
        },
    )
}

/// Judges the commit scenario: the row inserted inside the committed
/// transaction must be there afterwards.
pub fn commit_outcome(present: bool) -> (r: ScenarioResult)
    ensures
        r@ == commit_result(present),
{
    let summary = if present {
        String::from_str("BEGIN+INSERT+COMMIT persistio la fila 90")
    } else {
        String::from_str("COMMIT no persistio la fila 90")
    };
    ScenarioResult { name: "commit", ok: present, summary }
}

/// The verdict of the rollback scenario, given whether the rolled-back row is there.
pub open spec fn rollback_result(present: bool) -> (Seq<char>, bool, Seq<char>) {
    (
        "rollback"@,
        !present,
        if present {
            "ROLLBACK no deshizo la fila 91"@
        } else {
            "BEGIN+INSERT+ROLLBACK deshizo la fila 91"@
        },
    )
}

/// Judges the rollback scenario: the row inserted inside the rolled-back
/// transaction must not be there afterwards.
pub fn rollback_outcome(present: bool) -> (r: ScenarioResult)
    ensures
        r@ == rollback_result(present),
{
    let summary = if present {
        String::from_str("ROLLBACK no deshizo la fila 91")
    } else {
        String::from_str("BEGIN+INSERT+ROLLBACK deshizo la fila 91")
    };
    ScenarioResult { name: "rollback", ok: !present, summary }
}

/// A query's outcome as a mathematical object.
pub open spec fn outcome_view(r: Result<QueryResult, DriverError>) -> Result<
    QueryResultModel,
    (u8, Seq<char>),
> {
    match r {
        Ok(q) => Ok(q@),
        Err(e) => Err(e@),
    }
}

/// The verdict of the error scenario on the outcome of the invalid query.
pub open spec fn error_result(r: Result<QueryResultModel, (u8, Seq<char>)>) -> (
    Seq<char>,
    bool,
    Seq<char>,
) {
    match r {
        Err((code, message)) => if code == ERR_PARSE {
            ("error"@, true, "SQL invalido -> ERR_PARSE: "@ + message)
        } else {
            ("error"@, false, "codigo de error inesperado "@ + decimal(code as nat))
        },
        Ok(_) => ("error"@, false, "no se recibio ningun error"@),
    }
}

/// Judges the error scenario: invalid SQL must come back as an ERR_PARSE error.
pub fn error_outcome(result: &Result<QueryResult, DriverError>) -> (r: ScenarioResult)
    ensures
        r@ == error_result(outcome_view(*result)),
{
    match result {
        Err(error) => {
            if error.code == ERR_PARSE {
                let mut summary = String::from_str("SQL invalido -> ERR_PARSE: ");
                summary.append(error.message.as_str());
                ScenarioResult { name: "error", ok: true, summary }
            } else {
                let mut summary = String::from_str("codigo de error inesperado ");
                let code = decimal_string(error.code as u64);
                summary.append(code.as_str());
                ScenarioResult { name: "error", ok: false, summary }
            }
        },
        Ok(_) => ScenarioResult {
            name: "error",
            ok: false,
            summary: String::from_str("no se recibio ningun error"),
        },
    }
}

// ---------------------------------------------------------------------------
// Running a scenario

/// The scenarios.
#[derive(Debug, Clone, Copy)]
pub enum Scenario {
    Ping,
    Select,
    Commit,
    Rollback,
    Error,
}

/// The scenario of a name, if there is one.
pub open spec fn scenario_of(name: Seq<char>) -> Option<Scenario> {
    if name == "ping"@ {
        Some(Scenario::Ping)
    } else if name == "select"@ {
        Some(Scenario::Select)
    } else if name == "commit"@ {
        Some(Scenario::Commit)
    } else if name == "rollback"@ {
        Some(Scenario::Rollback)
    } else if name == "error"@ {
        Some(Scenario::Error)
    } else {
        None
    }
}

/// Finds a scenario by name; an unknown name is an error.
pub fn scenario_named(name: &str) -> (res: Result<Scenario, DriverError>)
    ensures
        match res {
            Ok(s) => scenario_of(name@) == Some(s),
            Err(e) => scenario_of(name@) is None && e@ == (
                ERR_GENERIC,
                "escenario desconocido: "@ + name@,
            ),
        },
{
    if str_equal(name, "ping") {
        Ok(Scenario::Ping)
    } else if str_equal(name, "select") {
        Ok(Scenario::Select)
    } else if str_equal(name, "commit") {
        Ok(Scenario::Commit)
    } else if str_equal(name, "rollback") {
        Ok(Scenario::Rollback)
    } else if str_equal(name, "error") {
        Ok(Scenario::Error)
    } else {
        let mut m = String::from_str("escenario desconocido: ");
        m.append(name);
        Err(DriverError { code: ERR_GENERIC, message: m })
    }
}

/// One request of a scenario's script.
#[derive(Debug, Clone, Copy)]
pub enum Step {
    Ping,
    Begin,
    Commit,
    Rollback,
    Query(&'static str),
}

/// A request of a script as a mathematical object.
pub enum StepModel {
    Ping,
    Begin,
    Commit,
    Rollback,
    Query(Seq<char>),
}

impl View for Step {
    type V = StepModel;

    open spec fn view(&self) -> StepModel {
        match self {
            Step::Ping => StepModel::Ping,
            Step::Begin => StepModel::Begin,
            Step::Commit => StepModel::Commit,
            Step::Rollback => StepModel::Rollback,
            Step::Query(sql) => StepModel::Query(sql@),
        }
    }
}

/// The requests that each scenario sends, in order, once connected.
pub open spec fn script(s: Scenario) -> Seq<StepModel> {
    match s {
        Scenario::Ping => seq![StepModel::Ping],
        Scenario::Select => seq![StepModel::Query("SELECT id, balance FROM accounts ORDER BY id"@)],
        Scenario::Commit => seq![
            StepModel::Begin,
            StepModel::Query("INSERT INTO accounts VALUES (90, 1000)"@),
            StepModel::Commit,
            StepModel::Query("SELECT id FROM accounts"@),
        ],
        Scenario::Rollback => seq![
            StepModel::Begin,
            StepModel::Query("INSERT INTO accounts VALUES (91, 2000)"@),
            StepModel::Rollback,
            StepModel::Query("SELECT id FROM accounts"@),
        ],
        Scenario::Error => seq![StepModel::Query("BOGUS SQL"@)],
    }
}

/// The opcode and payload of the frame a request is sent as.
pub open spec fn step_frame(st: StepModel) -> (u8, Seq<u8>) {
    match st {
        StepModel::Ping => (OP_PING, Seq::<u8>::empty()),
        StepModel::Begin => (OP_BEGIN, Seq::<u8>::empty()),
        StepModel::Commit => (OP_COMMIT, Seq::<u8>::empty()),
        StepModel::Rollback => (OP_ROLLBACK, Seq::<u8>::empty()),
        StepModel::Query(sql) => (OP_QUERY, query_bytes(sql)),
    }
}

fn script_len(s: Scenario) -> (n: usize)
    ensures
        n == script(s).len(),
{
    match s {
        Scenario::Ping | Scenario::Select | Scenario::Error => 1,
        Scenario::Commit | Scenario::Rollback => 4,
    }
}

fn script_step(s: Scenario, i: usize) -> (st: Step)
    requires
        i < script(s).len(),
    ensures
        st@ == script(s)[i as int],
{
    match s {
        Scenario::Ping => Step::Ping,
        Scenario::Select => Step::Query("SELECT id, balance FROM accounts ORDER BY id"),
        Scenario::Commit => {
            if i == 0 {
                Step::Begin
            } else if i == 1 {
                Step::Query("INSERT INTO accounts VALUES (90, 1000)")
            } else if i == 2 {
                Step::Commit
            } else {
                Step::Query("SELECT id FROM accounts")
            }
        },
        Scenario::Rollback => {
            if i == 0 {
                Step::Begin
            } else if i == 1 {
                Step::Query("INSERT INTO accounts VALUES (91, 2000)")
            } else if i == 2 {
                Step::Rollback
            } else {
                Step::Query("SELECT id FROM accounts")
            }
        },
        Scenario::Error => Step::Query("BOGUS SQL"),
    }
}

fn step_request(st: Step) -> (f: Frame)
    ensures
        (f.opcode, f.payload@) == step_frame(st@),
{
    match st {
        Step::Ping => Connection::ping_request(),
        Step::Begin => Connection::tx_request(OP_BEGIN),
        Step::Commit => Connection::tx_request(OP_COMMIT),
        Step::Rollback => Connection::tx_request(OP_ROLLBACK),
        Step::Query(sql) => Connection::query_request(sql),
    }
}

/// Where a run of a scenario stands.
#[derive(Debug, Clone, Copy)]
pub enum Stage {
    /// Waiting for the connection to the server.
    Connecting,
    /// The request of this index of the script was sent; waiting for its reply.
    Awaiting(usize),
    /// The run has ended.
    Finished,
}

/// What happened outside since the last action.
#[derive(Debug)]
pub enum Event {
    /// The connection is open.
    Connected,
    /// Connecting, sending or receiving failed; the failure's text.
    Failed(String),
    /// The server's reply.
    Reply(Frame),
}

/// An event as a mathematical object.
pub enum EventModel {
    Connected,
    Failed(Seq<char>),
    Reply(u8, Seq<u8>),
}

impl View for Event {
    type V = EventModel;

    open spec fn view(&self) -> EventModel {
        match self {
            Event::Connected => EventModel::Connected,
            Event::Failed(t) => EventModel::Failed(t@),
            Event::Reply(f) => EventModel::Reply(f.opcode, f.payload@),
        }
    }
}

/// What the caller is to do next.
#[derive(Debug)]
pub enum Action {
    /// Open the connection to the server.
    Connect,
    /// Send this frame and read the reply.
    Send(Frame),
    /// The run is over, with this result.
    Finish(Result<ScenarioResult, DriverError>),
}

/// An action as a mathematical object.
pub enum ActionModel {
    Connect,
    Send(u8, Seq<u8>),
    Finish(Result<(Seq<char>, bool, Seq<char>), (u8, Seq<char>)>),
}

impl View for Action {
    type V = ActionModel;

    open spec fn view(&self) -> ActionModel {
        match self {
            Action::Connect => ActionModel::Connect,
            Action::Send(f) => ActionModel::Send(f.opcode, f.payload@),
            Action::Finish(Ok(r)) => ActionModel::Finish(Ok(r@)),
            Action::Finish(Err(e)) => ActionModel::Finish(Err(e@)),
        }
    }
}

/// The verdict of a scenario on the result of its last query.
pub open spec fn judge(s: Scenario, q: QueryResultModel) -> (Seq<char>, bool, Seq<char>) {
    match s {
        Scenario::Select => select_result(q),
        Scenario::Commit => commit_result(has_row_with_id(q, 90)),
        Scenario::Rollback => rollback_result(has_row_with_id(q, 91)),
        Scenario::Error => error_result(Ok(q)),
        Scenario::Ping => ping_result(),
    }
}

/// The state after a transaction command that the server accepted.
pub open spec fn tx_state_after(st: StepModel, tx: (u32, bool)) -> (u32, bool) {
    match st {
        StepModel::Begin => (active_after(OP_BEGIN, tx.0) as u32, true),
        StepModel::Commit => (active_after(OP_COMMIT, tx.0) as u32, false),
        StepModel::Rollback => (active_after(OP_ROLLBACK, tx.0) as u32, false),
        _ => tx,
    }
}

/// What a run does on an event: its next stage, the transaction state of its
/// connection, and the action for the caller.
pub open spec fn transition(s: Scenario, stage: Stage, tx: (u32, bool), event: EventModel) -> (
    Stage,
    (u32, bool),
    ActionModel,
) {
    match (stage, event) {
        (Stage::Connecting, EventModel::Connected) => (
            Stage::Awaiting(0),
            tx,
            ActionModel::Send(step_frame(script(s)[0]).0, step_frame(script(s)[0]).1),
        ),
        (Stage::Awaiting(_), EventModel::Failed(t)) => (
            Stage::Finished,
            tx,
            ActionModel::Finish(
                if s is Error {
                    Ok(error_result(Err((ERR_GENERIC, t))))
                } else {
                    Err((ERR_GENERIC, t))
                },
            ),
        ),
        (Stage::Awaiting(i), EventModel::Reply(op, payload)) => {
            let st = script(s)[i as int];
            let next = script(s)[i + 1];
            match st {
                StepModel::Ping => (
                    Stage::Finished,
                    tx,
                    ActionModel::Finish(
                        if op == OP_PONG {
                            Ok(ping_result())
                        } else {
                            Err((ERR_GENERIC, "expected PONG, got opcode "@ + decimal(op as nat)))
                        },
                    ),
                ),
                StepModel::Query(_) => {
                    if s is Error {
                        (
                            Stage::Finished,
                            tx,
                            ActionModel::Finish(Ok(error_result(query_outcome(op, payload)))),
                        )
                    } else {
                        match query_outcome(op, payload) {
                            Err(e) => (Stage::Finished, tx, ActionModel::Finish(Err(e))),
                            Ok(q) => if i + 1 < script(s).len() {
                                (
                                    Stage::Awaiting((i + 1) as usize),
                                    tx,
                                    ActionModel::Send(step_frame(next).0, step_frame(next).1),
                                )
                            } else {
                                (Stage::Finished, tx, ActionModel::Finish(Ok(judge(s, q))))
                            },
                        }
                    }
                },
                _ => match tx_outcome(op, payload) {
                    Err(e) => (Stage::Finished, tx, ActionModel::Finish(Err(e))),
                    Ok(_) => (
                        Stage::Awaiting((i + 1) as usize),
                        tx_state_after(st, tx),
                        ActionModel::Send(step_frame(next).0, step_frame(next).1),
                    ),
                },
            }
        },
        // Connecting, any other event: the connection failed.
        (_, EventModel::Failed(t)) => (Stage::Finished, tx, ActionModel::Finish(Err((ERR_GENERIC, t)))),
        _ => (stage, tx, ActionModel::Connect),
    }
}

/// How far a run is from its end: connecting counts one more than the whole
/// script, awaiting the reply to request `i` counts the requests left.
pub open spec fn stage_rank(s: Scenario, stage: Stage) -> nat {
    match stage {
        Stage::Connecting => script(s).len() + 1,
        Stage::Awaiting(i) => (script(s).len() - i) as nat,
        Stage::Finished => 0,
    }
}

/// Every event a run accepts brings it strictly closer to its end, so a run
/// finishes after at most one event more than its script has requests.
pub proof fn lemma_transition_progresses(s: Scenario, stage: Stage, tx: (u32, bool), event: EventModel)
    requires
        stage matches Stage::Awaiting(i) ==> i < script(s).len(),
        event_expected((s, stage, tx), event),
    ensures
        stage_rank(s, transition(s, stage, tx, event).0) < stage_rank(s, stage),
        transition(s, stage, tx, event).0 matches Stage::Awaiting(j) ==> j < script(s).len(),
{
}

/// A run of one scenario: it says what to do, the caller does it and reports
/// what happened.
pub struct ScenarioRun {
    scenario: Scenario,
    stage: Stage,
    manager: TransactionManager,
}

impl View for ScenarioRun {
    /// The scenario, its stage, and the transaction state of its connection.
    type V = (Scenario, Stage, (u32, bool));

    closed spec fn view(&self) -> (Scenario, Stage, (u32, bool)) {
        (self.scenario, self.stage, self.manager@)
    }
}

/// An event that a run in state `run` can take: the kind the caller was asked
/// for, and a reply that can be read (an ERROR reply must not announce more
/// than it holds; the select scenario reads two values in every row).
pub open spec fn event_expected(run: (Scenario, Stage, (u32, bool)), event: EventModel) -> bool {
    match (run.1, event) {
        (Stage::Connecting, EventModel::Connected) => true,
        (Stage::Connecting, EventModel::Failed(_)) => true,
        (Stage::Awaiting(_), EventModel::Failed(_)) => true,
        (Stage::Awaiting(_), EventModel::Reply(op, payload)) => {
            &&& (op == OP_ERROR ==> error_payload_complete(payload))
            &&& (run.0 is Select && op == OP_RESULT) ==> (resultset_decode(payload) matches Ok(rs)
                ==> rows_have_two_values(rs.rows))
        },
        _ => false,
    }
}

impl ScenarioRun {
    /// The run is consistent: it awaits a request of its script, and its
    /// connection has a transaction open exactly between BEGIN and its end.
    pub closed spec fn well_formed(&self) -> bool {
        match self.stage {
            Stage::Connecting => self.manager@ == (0u32, false),
            Stage::Awaiting(i) => {
                &&& i < script(self.scenario).len()
                &&& self.manager@ == if (self.scenario is Commit || self.scenario is Rollback) && (i
                    == 1 || i == 2) {
                    (1u32, true)
                } else {
                    (0u32, false)
                }
            },
            Stage::Finished => true,
        }
    }

    /// Starts the scenario of this name: the caller is to connect first.
    pub fn start(name: &str) -> (res: Result<(ScenarioRun, Action), DriverError>)
        ensures
            match res {
                Ok((run, action)) => scenario_of(name@) == Some(run@.0) && run@.1 is Connecting
                    && run@.2 == (0u32, false) && action@ is Connect && run.well_formed(),
                Err(e) => scenario_of(name@) is None && e@ == (
                    ERR_GENERIC,
                    "escenario desconocido: "@ + name@,
                ),
            },
    {
        let scenario = scenario_named(name)?;
        Ok(
            (
                ScenarioRun { scenario, stage: Stage::Connecting, manager: TransactionManager::new() },
                Action::Connect,
            ),
        )
    }

    /// Whether the run is over.
    pub fn finished(&self) -> (b: bool)
        ensures
            b == self@.1 is Finished,
    {
        match self.stage {
            Stage::Finished => true,
            _ => false,
        }
    }

    fn finish(&mut self, result: Result<ScenarioResult, DriverError>) -> (a: Action)
        ensures
            final(self)@ == (old(self)@.0, Stage::Finished, old(self)@.2),
            a == Action::Finish(result),
    {
        self.stage = Stage::Finished;
        Action::Finish(result)
    }

    /// Takes what happened and says what to do next.
    pub fn advance(&mut self, event: Event) -> (action: Action)
        requires
            old(self).well_formed(),
            event_expected(old(self)@, event@),
        ensures
            final(self).well_formed(),
            (final(self)@.1, final(self)@.2, action@) == transition(
                old(self)@.0,
                old(self)@.1,
                old(self)@.2,
                event@,
            ),
            final(self)@.0 == old(self)@.0,
    {
        let s = self.scenario;
        match self.stage {
            Stage::Connecting => {
                match event {
                    Event::Connected => {
                        self.stage = Stage::Awaiting(0);
                        Action::Send(step_request(script_step(s, 0)))
                    },
                    Event::Failed(t) => self.finish(Err(driver_err(t))),
                    Event::Reply(_) => Action::Connect,
                }
            },
            Stage::Awaiting(i) => {
                match event {
                    Event::Failed(t) => {
                        let e = driver_err(t);
                        match s {
                            Scenario::Error => self.finish(Ok(error_outcome(&Err(e)))),
                            _ => self.finish(Err(e)),
                        }
                    },
                    Event::Reply(response) => self.take_reply(i, &response),
                    Event::Connected => Action::Connect,
                }
            },
            Stage::Finished => Action::Connect,
        }
    }

    fn take_reply(&mut self, i: usize, response: &Frame) -> (action: Action)
        requires
            old(self).well_formed(),
            old(self)@.1 == Stage::Awaiting(i),
            event_expected(old(self)@, EventModel::Reply(response.opcode, response.payload@)),
        ensures
            final(self).well_formed(),
            (final(self)@.1, final(self)@.2, action@) == transition(
                old(self)@.0,
                old(self)@.1,
                old(self)@.2,
                EventModel::Reply(response.opcode, response.payload@),
            ),
            final(self)@.0 == old(self)@.0,
    {
        let s = self.scenario;
        let n = script_len(s);
        let step = script_step(s, i);
        match step {
            Step::Ping => match Connection::ping_reply(response) {
                Ok(()) => self.finish(Ok(ping_outcome())),
                Err(m) => self.finish(Err(driver_err(m))),
            },
            Step::Query(_) => {
                let outcome = self.manager.query_reply(response);
                match s {
                    Scenario::Error => self.finish(Ok(error_outcome(&outcome))),
                    _ => match outcome {
                        Err(e) => self.finish(Err(e)),
                        Ok(q) => {
                            if i + 1 < n {
                                self.stage = Stage::Awaiting(i + 1);
                                Action::Send(step_request(script_step(s, i + 1)))
                            } else {
                                let verdict = match s {
                                    Scenario::Select => select_outcome(&q),
                                    Scenario::Commit => commit_outcome(row_exists(&q, 90)),
                                    _ => rollback_outcome(row_exists(&q, 91)),
                                };
                                self.finish(Ok(verdict))
                            }
                        },
                    },
                }
            },
            _ => {
                let r = match step {
                    Step::Begin => self.manager.begin_reply(response),
                    Step::Commit => self.manager.commit_reply(response),
                    _ => self.manager.rollback_reply(response),
                };
                match r {
                    Err(e) => self.finish(Err(e)),
                    Ok(()) => {
                        self.stage = Stage::Awaiting(i + 1);
                        Action::Send(step_request(script_step(s, i + 1)))
                    },
                }
            },
        }
    }

    /// Whether `event` may be handed to `advance` now (the condition it requires).
    pub fn accepts(&self, event: &Event) -> (b: bool)
        ensures
            b == event_expected(self@, event@),
    {
        match (self.stage, event) {
            (Stage::Connecting, Event::Connected) => true,
            (Stage::Connecting, Event::Failed(_)) => true,
            (Stage::Awaiting(_), Event::Failed(_)) => true,
            (Stage::Awaiting(_), Event::Reply(f)) => {
                if !reply_is_readable(f) {
                    return false;
                }
                match self.scenario {
                    Scenario::Select => {},
                    _ => {
                        return true;
                    },
                }
                if f.opcode != OP_RESULT {
                    return true;
                }
                match decode_resultset(f.payload.as_slice()) {
                    Err(_) => true,
                    Ok(rs) => {
                        let ghost rows = rs@.rows;
                        let mut k: usize = 0;
                        #[verifier::loop_isolation(false)]
                        while k < rs.rows.len()
                            invariant
                                rows == rs@.rows,
                                k <= rs.rows@.len(),
                                forall|r: int| 0 <= r < k ==> (#[trigger] rows[r]).len() >= 2,
                            decreases rs.rows@.len() - k,
                        {
                            assert(rows[k as int] == values_view(rs.rows@[k as int]@));
                            if rs.rows[k].len() < 2 {
                                assert(!rows_have_two_values(rows));
                                return false;
                            }
                            k = k + 1;
                        }
                        true
                    },
                }
            },
            _ => false,
        }
    }
}

// ---------------------------------------------------------------------------
// Laws of the verdicts and of a run

/// A row is found wherever it stands: any row whose first value is the integer
/// `id` makes the search succeed, and the search succeeds only on such a row.
pub proof fn law_row_found_anywhere(rs: ResultSetModel, id: i32, r: int, n: u32)
    ensures
        0 <= r < rs.rows.len() && rs.rows[r].len() > 0 && rs.rows[r][0] == ValueModel::Int(id)
            ==> has_row_with_id(QueryResultModel::ResultSet(rs), id),
        has_row_with_id(QueryResultModel::ResultSet(rs), id) ==> exists|k: int|
            0 <= k < rs.rows.len() && #[trigger] rs.rows[k].len() > 0 && rs.rows[k][0]
                == ValueModel::Int(id),
        !has_row_with_id(QueryResultModel::Affected(n), id),
{
    if 0 <= r < rs.rows.len() && rs.rows[r].len() > 0 && rs.rows[r][0] == ValueModel::Int(id) {
        assert(rs.rows[r].len() > 0);
    }
}

/// Searching two blocks of rows put together finds the row exactly when one of
/// the blocks holds it: the order of the rows does not matter.
pub proof fn law_row_search_splits(a: Seq<Seq<ValueModel>>, b: Seq<Seq<ValueModel>>, columns: Seq<ColumnModel>, id: i32)
    ensures
        has_row_with_id(QueryResultModel::ResultSet(ResultSetModel { columns, rows: a + b }), id)
            == (has_row_with_id(QueryResultModel::ResultSet(ResultSetModel { columns, rows: a }), id)
            || has_row_with_id(QueryResultModel::ResultSet(ResultSetModel { columns, rows: b }), id)),
{
    let ab = a + b;
    if has_row_with_id(QueryResultModel::ResultSet(ResultSetModel { columns, rows: ab }), id) {
        let k = choose|k: int|
            0 <= k < ab.len() && #[trigger] ab[k].len() > 0 && ab[k][0] == ValueModel::Int(id);
        if k < a.len() {
            assert(a[k] == ab[k]);
        } else {
            assert(b[k - a.len()] == ab[k]);
        }
    }
    if has_row_with_id(QueryResultModel::ResultSet(ResultSetModel { columns, rows: a }), id) {
        let k = choose|k: int|
            0 <= k < a.len() && #[trigger] a[k].len() > 0 && a[k][0] == ValueModel::Int(id);
        assert(ab[k] == a[k]);
    }
    if has_row_with_id(QueryResultModel::ResultSet(ResultSetModel { columns, rows: b }), id) {
        let k = choose|k: int|
            0 <= k < b.len() && #[trigger] b[k].len() > 0 && b[k][0] == ValueModel::Int(id);
        assert(ab[k + a.len()] == b[k]);
    }
}

/// Rows that are each a pair of integers give their pairs, in order, ids and
/// balances alike.
pub proof fn law_int_rows_give_their_pairs(rows: Seq<Seq<ValueModel>>)
    requires
        forall|r: int|
            0 <= r < rows.len() ==> (#[trigger] rows[r]).len() >= 2 && rows[r][0] is Int
                && rows[r][1] is Int,
    ensures
        int_pairs(rows).len() == rows.len(),
        forall|r: int|
            0 <= r < rows.len() ==> (#[trigger] int_pairs(rows)[r]) == (
                rows[r][0]->Int_0,
                rows[r][1]->Int_0,
            ),
    decreases rows.len(),
{
    if rows.len() > 0 {
        let init = rows.drop_last();
        assert forall|r: int| 0 <= r < init.len() implies (#[trigger] init[r]).len() >= 2
            && init[r][0] is Int && init[r][1] is Int by {
            assert(init[r] == rows[r]);
        }
        law_int_rows_give_their_pairs(init);
        let last = rows.last();
        assert(rows[rows.len() - 1] == last);
        assert forall|r: int| 0 <= r < rows.len() implies (#[trigger] int_pairs(rows)[r]) == (
            rows[r][0]->Int_0,
            rows[r][1]->Int_0,
        ) by {
            if r < rows.len() - 1 {
                assert(init[r] == rows[r]);
            }
        }
    }
}

/// The select verdict passes exactly when the integer rows are the two pairs
/// (1, 100) and (2, 200), in this order, balances included.
pub proof fn law_select_passes_on_exact_rows(rs: ResultSetModel)
    ensures
        select_result(QueryResultModel::ResultSet(rs)).1 <==> (int_pairs(rs.rows).len() == 2
            && int_pairs(rs.rows)[0] == (1i32, 100i32) && int_pairs(rs.rows)[1] == (2i32, 200i32)),
{
    let ps = int_pairs(rs.rows);
    if ps.len() == 2 && ps[0] == (1i32, 100i32) && ps[1] == (2i32, 200i32) {
        assert(ps =~= expected_pairs());
    }
    if ps == expected_pairs() {
        assert(ps[0] == expected_pairs()[0]);
        assert(ps[1] == expected_pairs()[1]);
    }
}

/// A run that is not the error scenario stops at the first request that fails:
/// when the reply to a query or a transaction command stands for an error, the
/// run finishes at once with that error and sends nothing more. In particular
/// an ERROR reply that decodes ends the run with the server's code and message.
pub proof fn law_failed_request_ends_run(
    s: Scenario,
    i: usize,
    tx: (u32, bool),
    op: u8,
    payload: Seq<u8>,
    code: u8,
    message: Seq<char>,
)
    requires
        !(s is Error),
        i < script(s).len(),
        !(script(s)[i as int] is Ping),
    ensures
        script(s)[i as int] is Query ==> (query_outcome(op, payload) matches Err(e) ==> transition(
            s,
            Stage::Awaiting(i),
            tx,
            EventModel::Reply(op, payload),
        ) == (Stage::Finished, tx, ActionModel::Finish(Err(e)))),
        !(script(s)[i as int] is Query) ==> (tx_outcome(op, payload) matches Err(e) ==> transition(
            s,
            Stage::Awaiting(i),
            tx,
            EventModel::Reply(op, payload),
        ) == (Stage::Finished, tx, ActionModel::Finish(Err(e)))),
        op == OP_ERROR && error_decode(payload) == Ok::<(u8, Seq<char>), Seq<char>>((code, message))
            ==> transition(s, Stage::Awaiting(i), tx, EventModel::Reply(op, payload)) == (
            Stage::Finished,
            tx,
            ActionModel::Finish(Err((code, message))),
        ),
{
}

/// A run moves on to its next request only after the reply to the current one
/// succeeded, and then sends exactly the next request of its script.
pub proof fn law_run_moves_on_only_after_success(
    s: Scenario,
    i: usize,
    tx: (u32, bool),
    op: u8,
    payload: Seq<u8>,
)
    requires
        i < script(s).len(),
    ensures
        transition(s, Stage::Awaiting(i), tx, EventModel::Reply(op, payload)).2 matches ActionModel::Send(
            o,
            b,
        ) ==> {
            &&& i + 1 < script(s).len()
            &&& (o, b) == step_frame(script(s)[i + 1])
            &&& (script(s)[i as int] is Query ==> query_outcome(op, payload) is Ok)
            &&& (!(script(s)[i as int] is Query) ==> tx_outcome(op, payload) is Ok)
        },
{
}

/// The verdicts: commit passes exactly when its row 90 is there afterwards,
/// rollback exactly when its row 91 is not, select on the exact rows, and the
/// error scenario exactly when the invalid query comes back as ERR_PARSE.
pub proof fn law_verdicts(q: QueryResultModel, r: Result<QueryResultModel, (u8, Seq<char>)>)
    ensures
        judge(Scenario::Commit, q).1 == has_row_with_id(q, 90),
        judge(Scenario::Rollback, q).1 == !has_row_with_id(q, 91),
        judge(Scenario::Select, q) == select_result(q),
        q is Affected ==> !select_result(q).1,
        error_result(r).1 == (r matches Err((code, _)) && code == ERR_PARSE),
        judge(Scenario::Commit, q).0 == "commit"@ && judge(Scenario::Rollback, q).0 == "rollback"@
            && judge(Scenario::Select, q).0 == "select"@ && error_result(r).0 == "error"@,
{
}

/// The commit and rollback scripts open a transaction, insert the row their
/// verdict looks for, end the transaction (COMMIT, resp. ROLLBACK) and query
/// the ids last; the other scenarios send one request.
pub proof fn law_scripts()
    ensures
        script(Scenario::Commit).len() == 4 && script(Scenario::Commit)[0] is Begin
            && script(Scenario::Commit)[2] is Commit && script(Scenario::Commit)[1] is Query
            && script(Scenario::Commit)[3] is Query,
        script(Scenario::Rollback).len() == 4 && script(Scenario::Rollback)[0] is Begin
            && script(Scenario::Rollback)[2] is Rollback && script(Scenario::Rollback)[1] is Query
            && script(Scenario::Rollback)[3] is Query,
        script(Scenario::Ping) == seq![StepModel::Ping],
        script(Scenario::Select).len() == 1 && script(Scenario::Select)[0] is Query,
        script(Scenario::Error).len() == 1 && script(Scenario::Error)[0] is Query,
        step_frame(StepModel::Begin).0 == OP_BEGIN && step_frame(StepModel::Commit).0 == OP_COMMIT
            && step_frame(StepModel::Rollback).0 == OP_ROLLBACK && step_frame(StepModel::Ping).0
            == OP_PING,
        forall|q: Seq<char>| #[trigger] step_frame(StepModel::Query(q)) == (OP_QUERY, query_bytes(q)),
{
}

/// The ping scenario passes exactly when the server answers PONG; the error
/// scenario judges whatever its query gives (reply or failure) instead of
/// passing a failure on; a failure while connecting ends any run with it.
pub proof fn law_ping_error_and_connect(
    s: Scenario,
    tx: (u32, bool),
    op: u8,
    payload: Seq<u8>,
    t: Seq<char>,
)
    ensures
        transition(Scenario::Ping, Stage::Awaiting(0), tx, EventModel::Reply(op, payload)).2 == if op
            == OP_PONG {
            ActionModel::Finish(Ok(ping_result()))
        } else {
            ActionModel::Finish(Err((ERR_GENERIC, "expected PONG, got opcode "@ + decimal(op as nat))))
        },
        transition(Scenario::Error, Stage::Awaiting(0), tx, EventModel::Reply(op, payload)).2
            == ActionModel::Finish(Ok(error_result(query_outcome(op, payload)))),
        transition(Scenario::Error, Stage::Awaiting(0), tx, EventModel::Failed(t)).2
            == ActionModel::Finish(Ok(error_result(Err((ERR_GENERIC, t))))),
        transition(s, Stage::Connecting, tx, EventModel::Failed(t)) == (
            Stage::Finished,
            tx,
            ActionModel::Finish(Err::<(Seq<char>, bool, Seq<char>), (u8, Seq<char>)>((ERR_GENERIC, t))),
        ),
        transition(s, Stage::Connecting, tx, EventModel::Connected) == (
            Stage::Awaiting(0),
            tx,
            ActionModel::Send(step_frame(script(s)[0]).0, step_frame(script(s)[0]).1),
        ),
{
}

} // verus!
