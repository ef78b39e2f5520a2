use planetscale_driver::connection::TransactionStage;
use planetscale_driver::encoding::to_base64;
use planetscale_driver::response::DriverError;
use planetscale_driver::structs::{ExecuteRequest, ExecuteResponse, Session, VitessError};
use planetscale_driver::PSConnection;

#[test]
fn credentials_are_basic_auth() {
    let conn = PSConnection::new("aws.connect.psdb.cloud", "user", "pass");
    assert_eq!(conn.auth(), "Basic dXNlcjpwYXNz");
    assert_eq!(conn.host(), "aws.connect.psdb.cloud");
    assert_eq!(to_base64("user:pass"), "dXNlcjpwYXNz");
    assert_eq!(to_base64(""), "");
    assert_eq!(to_base64("a"), "YQ==");
    assert_eq!(to_base64("ab"), "YWI=");
    assert_eq!(to_base64("abc"), "YWJj");
    assert_eq!(to_base64("é"), "w6k=");
    assert_eq!(to_base64("\u{ff}\u{3ff}"), "w7/Pvw==");
}

#[test]
fn endpoints() {
    let conn = PSConnection::new("example.com", "u", "p");
    assert_eq!(conn.execute_url(), "https://example.com/psdb.v1alpha1.Database/Execute");
    assert_eq!(conn.session_url(), "https://example.com/psdb.v1alpha1.Database/CreateSession");
}

#[test]
fn request_carries_query_and_session() {
    let mut s = Session::default();
    s.signature = "sig".to_string();
    let req = ExecuteRequest::new("SELECT 1", Some(s.clone()));
    assert_eq!(req.query, "SELECT 1");
    assert_eq!(req.session, Some(s));
    assert_eq!(ExecuteRequest::new("", None).session, None);
    let conn = PSConnection::new("h", "u", "p");
    assert_eq!(conn.request("SELECT 2").session, None);
    assert_eq!(conn.request("SELECT 2").query, "SELECT 2");
}

#[test]
fn answer_session_is_kept_even_on_error() {
    let mut conn = PSConnection::new("h", "u", "p");
    let mut res = ExecuteResponse::default();
    res.session.signature = "new".to_string();
    res.session.vitess_session.session_uuid = "uuid".to_string();
    let out = conn.accept_answer(res.clone());
    assert_eq!(out.unwrap(), res);
    assert_eq!(conn.request("q").session, Some(res.session.clone()));

    res.error = Some(VitessError { message: "m".to_string(), code: "c".to_string() });
    res.session.signature = "newer".to_string();
    let out = conn.accept_answer(res.clone());
    match out {
        Err(DriverError::Vitess(e)) => {
            assert_eq!(e.code, "c");
            assert_eq!(e.message, "m");
        }
        other => panic!("unexpected {:?}", other),
    }
    assert_eq!(conn.request("q").session.unwrap().signature, "newer");
    assert_eq!(conn.auth(), "Basic dTpw");
    assert_eq!(conn.host(), "h");

    let mut fresh = ExecuteResponse::default();
    fresh.session.signature = "fresh".to_string();
    conn.accept_session(fresh);
    assert_eq!(conn.request("q").session.unwrap().signature, "fresh");
}

fn run(outcomes: Vec<Result<(), &'static str>>) -> (Vec<&'static str>, Result<(), &'static str>) {
    let mut stage = TransactionStage::start();
    let mut sent = Vec::new();
    let mut outcomes = outcomes.into_iter();
    loop {
        if let TransactionStage::Done(r) = stage {
            return (sent, r);
        }
        match stage.statement() {
            Some(s) => sent.push(s),
            None => sent.push("<body>"),
        }
        stage = stage.next(outcomes.next().unwrap());
    }
}

#[test]
fn transaction_commits_after_good_body() {
    let (sent, r) = run(vec![Ok(()), Ok(()), Ok(())]);
    assert_eq!(sent, vec!["BEGIN", "<body>", "COMMIT"]);
    assert_eq!(r, Ok(()));
}

#[test]
fn transaction_rolls_back_failed_body() {
    let (sent, r) = run(vec![Ok(()), Err("body"), Ok(())]);
    assert_eq!(sent, vec!["BEGIN", "<body>", "ROLLBACK"]);
    assert_eq!(r, Err("body"));
    let (_, r) = run(vec![Ok(()), Err("body"), Err("rollback")]);
    assert_eq!(r, Err("rollback"));
}

#[test]
fn transaction_stops_at_failed_begin_or_commit() {
    let (sent, r) = run(vec![Err("begin")]);
    assert_eq!(sent, vec!["BEGIN"]);
    assert_eq!(r, Err("begin"));
    let (sent, r) = run(vec![Ok(()), Ok(()), Err("commit")]);
    assert_eq!(sent, vec!["BEGIN", "<body>", "COMMIT"]);
    assert_eq!(r, Err("commit"));
}
