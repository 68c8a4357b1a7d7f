use rsoup::connection_manager::{DriverError, QueryResult};
use rsoup::protocol::{
    encode_error, encode_resultset, Column, Frame, ResultSet, Value, ERR_EXECUTION, ERR_GENERIC,
    ERR_PARSE, OP_BEGIN, OP_COMMIT, OP_ERROR, OP_OK, OP_PONG, OP_QUERY, OP_RESULT, OP_ROLLBACK,
    TYPE_INT,
};
use rsoup::scenarios::{
    commit_outcome, driver_err, error_outcome, ping_outcome, rollback_outcome, row_exists,
    scenario_named, select_outcome, Action, Event, ScenarioRun, SCENARIOS,
};

fn accounts(rows: Vec<(i32, i32)>) -> ResultSet {
    ResultSet {
        columns: vec![
            Column {
                name: "id".into(),
                type_code: TYPE_INT,
                length: 0,
            },
            Column {
                name: "balance".into(),
                type_code: TYPE_INT,
                length: 0,
            },
        ],
        rows: rows
            .into_iter()
            .map(|(a, b)| vec![Value::Int(a), Value::Int(b)])
            .collect(),
    }
}

#[test]
fn scenario_names() {
    assert_eq!(SCENARIOS, ["ping", "select", "commit", "rollback", "error"]);
    for name in SCENARIOS {
        assert!(scenario_named(name).is_ok());
    }
    let e = scenario_named("nope").unwrap_err();
    assert_eq!((e.code, e.message.as_str()), (ERR_GENERIC, "escenario desconocido: nope"));
}

#[test]
fn select_outcome_checks_the_rows() {
    let good = select_outcome(&QueryResult::ResultSet(accounts(vec![(1, 100), (2, 200)])));
    assert_eq!(good.name, "select");
    assert!(good.ok);
    assert_eq!(
        good.summary,
        "2 filas | esperadas [(1, 100), (2, 200)] | obtenidas [(1, 100), (2, 200)]"
    );
    let bad = select_outcome(&QueryResult::ResultSet(accounts(vec![(-3, 100)])));
    assert!(!bad.ok);
    assert_eq!(
        bad.summary,
        "1 filas | esperadas [(1, 100), (2, 200)] | obtenidas [(-3, 100)]"
    );
    let mut mixed = accounts(vec![(1, 100), (2, 200)]);
    mixed.rows.push(vec![Value::Null, Value::Int(5)]);
    assert!(select_outcome(&QueryResult::ResultSet(mixed)).ok);
    let empty = select_outcome(&QueryResult::ResultSet(accounts(vec![])));
    assert_eq!(empty.summary, "0 filas | esperadas [(1, 100), (2, 200)] | obtenidas []");
    let affected = select_outcome(&QueryResult::Affected(3));
    assert!(!affected.ok);
    assert_eq!(affected.summary, "SELECT devolvio OK, se esperaba ResultSet");
}

#[test]
fn rows_are_found_by_first_value() {
    let rs = QueryResult::ResultSet(accounts(vec![(1, 100), (90, 5)]));
    assert!(row_exists(&rs, 90));
    assert!(!row_exists(&rs, 5));
    assert!(!row_exists(&QueryResult::Affected(90), 90));
}

#[test]
fn verdicts() {
    let p = ping_outcome();
    assert_eq!((p.name, p.ok), ("ping", true));
    assert_eq!(p.summary, "handshake PING/PONG correcto");
    let c = commit_outcome(true);
    assert!(c.ok);
    assert_eq!(c.summary, "BEGIN+INSERT+COMMIT persistio la fila 90");
    assert_eq!(commit_outcome(false).summary, "COMMIT no persistio la fila 90");
    let r = rollback_outcome(false);
    assert!(r.ok);
    assert_eq!(r.summary, "BEGIN+INSERT+ROLLBACK deshizo la fila 91");
    let r = rollback_outcome(true);
    assert!(!r.ok);
    assert_eq!(r.summary, "ROLLBACK no deshizo la fila 91");
}

#[test]
fn error_verdicts() {
    let parse = error_outcome(&Err(DriverError {
        code: ERR_PARSE,
        message: "syntax error".into(),
    }));
    assert!(parse.ok);
    assert_eq!(parse.summary, "SQL invalido -> ERR_PARSE: syntax error");
    let other = error_outcome(&Err(DriverError {
        code: ERR_EXECUTION,
        message: "x".into(),
    }));
    assert!(!other.ok);
    assert_eq!(other.summary, "codigo de error inesperado 2");
    let none = error_outcome(&Ok(QueryResult::Affected(0)));
    assert!(!none.ok);
    assert_eq!(none.summary, "no se recibio ningun error");
    let d = driver_err("refused".into());
    assert_eq!((d.code, d.message.as_str()), (ERR_GENERIC, "refused"));
}

/// A simulated server that keeps a table of accounts, with transactions.
struct Server {
    committed: Vec<i32>,
    pending: Option<Vec<i32>>,
    sent: Vec<u8>,
}

impl Server {
    fn new() -> Server {
        Server {
            committed: vec![1, 2],
            pending: None,
            sent: Vec::new(),
        }
    }

    fn reply(&mut self, request: &Frame) -> Frame {
        self.sent.push(request.opcode);
        let ok = |n: u32| Frame {
            opcode: OP_OK,
            payload: n.to_be_bytes().to_vec(),
        };
        match request.opcode {
            OP_BEGIN => {
                self.pending = Some(self.committed.clone());
                ok(0)
            }
            OP_COMMIT => {
                if let Some(p) = self.pending.take() {
                    self.committed = p;
                }
                ok(0)
            }
            OP_ROLLBACK => {
                self.pending = None;
                ok(0)
            }
            OP_QUERY => {
                let sql = String::from_utf8_lossy(&request.payload[4..]).to_string();
                if sql.starts_with("INSERT") {
                    let id: i32 = sql[29..31].parse().unwrap();
                    match self.pending.as_mut() {
                        Some(p) => p.push(id),
                        None => self.committed.push(id),
                    }
                    ok(1)
                } else if sql.starts_with("SELECT") {
                    let ids = self.pending.clone().unwrap_or(self.committed.clone());
                    let rows = ids.iter().map(|id| (*id, *id * 100)).collect();
                    Frame {
                        opcode: OP_RESULT,
                        payload: encode_resultset(&accounts(rows)),
                    }
                } else {
                    Frame {
                        opcode: OP_ERROR,
                        payload: encode_error(ERR_PARSE, "syntax error"),
                    }
                }
            }
            _ => Frame {
                opcode: OP_PONG,
                payload: vec![],
            },
        }
    }
}

fn run(name: &str, server: &mut Server) -> Result<rsoup::scenarios::ScenarioResult, DriverError> {
    let (mut run, mut action) = ScenarioRun::start(name)?;
    let mut events = 0;
    loop {
        let event = match action {
            Action::Connect => Event::Connected,
            Action::Send(frame) => Event::Reply(server.reply(&frame)),
            Action::Finish(result) => {
                assert!(run.finished());
                return result;
            }
        };
        assert!(run.accepts(&event));
        action = run.advance(event);
        events += 1;
        assert!(events <= 5);
    }
}

#[test]
fn every_scenario_passes_against_a_faithful_server() {
    for name in SCENARIOS {
        let mut server = Server::new();
        let result = run(name, &mut server).unwrap();
        assert_eq!(result.name, name);
        assert!(result.ok, "{}: {}", name, result.summary);
    }
}

#[test]
fn commit_scenario_sends_its_script() {
    let mut server = Server::new();
    let result = run("commit", &mut server).unwrap();
    assert_eq!(result.summary, "BEGIN+INSERT+COMMIT persistio la fila 90");
    assert_eq!(server.sent, vec![OP_BEGIN, OP_QUERY, OP_COMMIT, OP_QUERY]);
    assert_eq!(server.committed, vec![1, 2, 90]);
}

#[test]
fn rollback_scenario_sends_its_script() {
    let mut server = Server::new();
    let result = run("rollback", &mut server).unwrap();
    assert_eq!(result.summary, "BEGIN+INSERT+ROLLBACK deshizo la fila 91");
    assert_eq!(server.sent, vec![OP_BEGIN, OP_QUERY, OP_ROLLBACK, OP_QUERY]);
    assert_eq!(server.committed, vec![1, 2]);
}

#[test]
fn unknown_scenario_is_refused() {
    let e = run("nope", &mut Server::new()).unwrap_err();
    assert_eq!(e.message, "escenario desconocido: nope");
}

#[test]
fn failures_end_the_run() {
    let (mut r, _) = ScenarioRun::start("select").unwrap();
    match r.advance(Event::Failed("connection refused".into())) {
        Action::Finish(Err(e)) => {
            assert_eq!((e.code, e.message.as_str()), (ERR_GENERIC, "connection refused"))
        }
        other => panic!("unexpected {:?}", other),
    }
    assert!(r.finished());
    // in the error scenario a failed query is judged, not passed on
    let (mut r, _) = ScenarioRun::start("error").unwrap();
    r.advance(Event::Connected);
    match r.advance(Event::Failed("reset".into())) {
        Action::Finish(Ok(res)) => {
            assert!(!res.ok);
            assert_eq!(res.summary, "codigo de error inesperado 0");
        }
        other => panic!("unexpected {:?}", other),
    }
}

#[test]
fn refused_begin_ends_the_run() {
    let (mut r, _) = ScenarioRun::start("commit").unwrap();
    match r.advance(Event::Connected) {
        Action::Send(f) => assert_eq!(f.opcode, OP_BEGIN),
        other => panic!("unexpected {:?}", other),
    }
    let refusal = Frame {
        opcode: OP_ERROR,
        payload: encode_error(3, "locked"),
    };
    match r.advance(Event::Reply(refusal)) {
        Action::Finish(Err(e)) => assert_eq!((e.code, e.message.as_str()), (3, "locked")),
        other => panic!("unexpected {:?}", other),
    }
}

#[test]
fn ping_scenario_needs_pong() {
    let (mut r, _) = ScenarioRun::start("ping").unwrap();
    r.advance(Event::Connected);
    match r.advance(Event::Reply(Frame {
        opcode: OP_OK,
        payload: vec![],
    })) {
        Action::Finish(Err(e)) => assert_eq!(e.message, "expected PONG, got opcode 16"),
        other => panic!("unexpected {:?}", other),
    }
}

#[test]
fn select_scenario_refuses_rows_of_one_value() {
    let (mut r, _) = ScenarioRun::start("select").unwrap();
    r.advance(Event::Connected);
    let rs = ResultSet {
        columns: vec![Column {
            name: "id".into(),
            type_code: TYPE_INT,
            length: 0,
        }],
        rows: vec![vec![Value::Int(1)]],
    };
    let reply = Event::Reply(Frame {
        opcode: OP_RESULT,
        payload: encode_resultset(&rs),
    });
    assert!(!r.accepts(&reply));
}
