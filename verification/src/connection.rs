//! The decisions of a connection: its credentials and endpoints, the
//! requests it sends, what it keeps of each answer, and the steps of a
//! transaction. Sending and receiving happen outside the library.

use vstd::prelude::*;
use vstd::utf8::encode_utf8;

use crate::encoding::{base64_len_fits, base64_of, to_base64};
use crate::response::DriverError;
use crate::structs::{
    ExecuteRequest,
    ExecuteResponse,
    Options,
    Session,
    ShardSession,
    TabletAlias,
    Target,
    VitessError,
    VitessSession,
};

verus! {

impl Target {
    /// A copy of the target.
    pub fn copied(&self) -> (r: Target)
        ensures
            r == *self,
    {
        Target {
            keyspace: self.keyspace.clone(),
            shard: self.shard.clone(),
            tablet_type: self.tablet_type.clone(),
        }
    }
}

impl TabletAlias {
    /// A copy of the tablet alias.
    pub fn copied(&self) -> (r: TabletAlias)
        ensures
            r == *self,
    {
        TabletAlias { cell: self.cell.clone(), uid: self.uid }
    }
}

impl ShardSession {
    /// A copy of the shard session.
    pub fn copied(&self) -> (r: ShardSession)
        ensures
            r == *self,
    {
        ShardSession {
            target: self.target.copied(),
            transaction_id: self.transaction_id.clone(),
            tablet_alias: self.tablet_alias.copied(),
        }
    }
}

impl Options {
    /// A copy of the options.
    pub fn copied(&self) -> (r: Options)
        ensures
            r == *self,
    {
        Options {
            included_fields: self.included_fields.clone(),
            client_found_rows: self.client_found_rows,
        }
    }
}

/// A copy of an optional text.
fn copy_text(s: &Option<String>) -> (r: Option<String>)
    ensures
        r == *s,
{
    match s {
        Some(t) => Some(t.clone()),
        None => None,
    }
}

/// The two sessions hold the same shard sessions.
pub open spec fn same_shard_sessions(a: Option<Vec<ShardSession>>, b: Option<Vec<ShardSession>>) -> bool {
    match (a, b) {
        (Some(x), Some(y)) => x@ == y@,
        (None, None) => true,
        _ => false,
    }
}

/// The two database sessions hold the same values.
pub open spec fn same_vitess_session(a: VitessSession, b: VitessSession) -> bool {
    &&& a.in_transaction == b.in_transaction
    &&& a.autocommit == b.autocommit
    &&& same_shard_sessions(a.shard_sessions, b.shard_sessions)
    &&& a.options == b.options
    &&& a.found_rows == b.found_rows
    &&& a.row_count == b.row_count
    &&& a.ddlstrategy == b.ddlstrategy
    &&& a.session_uuid == b.session_uuid
    &&& a.enable_system_settings == b.enable_system_settings
}

/// The two sessions hold the same values.
pub open spec fn same_session(a: Session, b: Session) -> bool {
    a.signature == b.signature && same_vitess_session(a.vitess_session, b.vitess_session)
}

impl VitessSession {
    /// A copy of the database side of a session.
    pub fn copied(&self) -> (r: VitessSession)
        ensures
            same_vitess_session(r, *self),
    {
        let shard_sessions = match &self.shard_sessions {
            Some(v) => {
                let mut out: Vec<ShardSession> = Vec::new();
                for i in 0..v.len()
                    invariant
                        out@.len() == i,
                        forall|j: int| 0 <= j < i ==> out@[j] == v@[j],
                {
                    out.push(v[i].copied());
                }
                assert(out@ =~= v@);
                Some(out)
            },
            None => None,
        };
        VitessSession {
            in_transaction: self.in_transaction,
            autocommit: self.autocommit,
            shard_sessions,
            options: self.options.copied(),
            found_rows: copy_text(&self.found_rows),
            row_count: copy_text(&self.row_count),
            ddlstrategy: self.ddlstrategy.clone(),
            session_uuid: self.session_uuid.clone(),
            enable_system_settings: self.enable_system_settings,
        }
    }
}

impl Session {
    /// A copy of the session.
    pub fn copied(&self) -> (r: Session)
        ensures
            same_session(r, *self),
    {
        Session { signature: self.signature.clone(), vitess_session: self.vitess_session.copied() }
    }
}

impl ExecuteRequest {
    /// The request to run `query` within `session` (none for a fresh one).
    pub fn new(query: &str, session: Option<Session>) -> (r: ExecuteRequest)
        ensures
            r.query@ == query@,
            r.session == session,
    {
        ExecuteRequest { query: query.to_owned(), session }
    }
}

/// The text `user:password` whose base64 form is sent as credentials.
pub open spec fn credentials(username: Seq<char>, password: Seq<char>) -> Seq<char> {
    username + seq![':'] + password
}

/// The value of the `Authorization` header for `username` and `password`.
pub open spec fn basic_auth(username: Seq<char>, password: Seq<char>) -> Seq<char> {
    seq!['B', 'a', 's', 'i', 'c', ' '] + base64_of(encode_utf8(credentials(username, password)))
}

/// The address of an endpoint of the database API at `host`.
pub open spec fn endpoint(host: Seq<char>, method: Seq<char>) -> Seq<char> {
    seq!['h', 't', 't', 'p', 's', ':', '/', '/'] + host + seq!['/'] + method
}

/// Where statements are sent.
pub open spec fn execute_method() -> Seq<char> {
    seq![
        'p', 's', 'd', 'b', '.', 'v', '1', 'a', 'l', 'p', 'h', 'a', '1', '.', 'D', 'a', 't', 'a',
        'b', 'a', 's', 'e', '/', 'E', 'x', 'e', 'c', 'u', 't', 'e'
    ]
}

/// Where fresh sessions are asked for.
pub open spec fn session_method() -> Seq<char> {
    seq![
        'p', 's', 'd', 'b', '.', 'v', '1', 'a', 'l', 'p', 'h', 'a', '1', '.', 'D', 'a', 't', 'a',
        'b', 'a', 's', 'e', '/', 'C', 'r', 'e', 'a', 't', 'e', 'S', 'e', 's', 's', 'i', 'o', 'n'
    ]
}

/// The session of `a` and `b` hold the same values, or neither has one.
pub open spec fn same_optional_session(a: Option<Session>, b: Option<Session>) -> bool {
    match (a, b) {
        (Some(x), Some(y)) => same_session(x, y),
        (None, None) => true,
        _ => false,
    }
}

/// The host of a database, the credentials to reach it, and the session that
/// the statements sent through it run in.
pub struct PSConnection {
    host: String,
    auth: String,
    session: Option<Session>,
}

impl PSConnection {
    /// The host the connection talks to.
    pub closed spec fn host_text(&self) -> Seq<char> {
        self.host@
    }

    /// The `Authorization` header the connection sends.
    pub closed spec fn auth_text(&self) -> Seq<char> {
        self.auth@
    }

    /// The session of the connection, if the server has handed one out yet.
    pub closed spec fn current_session(&self) -> Option<Session> {
        self.session
    }

    /// A connection to `host` with the given credentials, sent as HTTP basic
    /// authentication (`Basic ` and the base64 of `username:password`).
    pub fn new(host: &str, username: &str, password: &str) -> (r: PSConnection)
        requires
            base64_len_fits(encode_utf8(credentials(username@, password@)).len()),
        ensures
            r.host_text() == host@,
            r.auth_text() == basic_auth(username@, password@),
            r.auth_text() == seq!['B', 'a', 's', 'i', 'c', ' '] + base64_of(
                encode_utf8(username@ + seq![':'] + password@),
            ),
            r.current_session() is None,
    {
        let mut creds = username.to_owned();
        creds.append(":");
        creds.append(password);
        let mut auth = "Basic ".to_owned();
        proof {
            reveal_strlit(":");
            reveal_strlit("Basic ");
            assert(creds@ =~= credentials(username@, password@));
        }
        let encoded = to_base64(creds.as_str());
        auth.append(encoded.as_str());
        assert(auth@ =~= basic_auth(username@, password@));
        PSConnection { host: host.to_owned(), auth, session: None }
    }

    /// The value of the `Authorization` header.
    pub fn auth(&self) -> (r: &str)
        ensures
            r@ == self.auth_text(),
    {
        self.auth.as_str()
    }

    /// The host.
    pub fn host(&self) -> (r: &str)
        ensures
            r@ == self.host_text(),
    {
        self.host.as_str()
    }

    /// The address of `method` on this connection's host.
    fn endpoint_url(&self, method: &str) -> (r: String)
        ensures
            r@ == endpoint(self.host_text(), method@),
    {
        let mut url = "https://".to_owned();
        url.append(self.host.as_str());
        url.append("/");
        url.append(method);
        proof {
            reveal_strlit("https://");
            reveal_strlit("/");
            assert(url@ =~= endpoint(self.host_text(), method@));
        }
        url
    }

    /// The address that statements are sent to.
    pub fn execute_url(&self) -> (r: String)
        ensures
            r@ == endpoint(self.host_text(), execute_method()),
    {
        let m = "psdb.v1alpha1.Database/Execute";
        proof {
            reveal_strlit("psdb.v1alpha1.Database/Execute");
            assert(m@ =~= execute_method());
        }
        self.endpoint_url(m)
    }

    /// The address that fresh sessions are asked for at.
    pub fn session_url(&self) -> (r: String)
        ensures
            r@ == endpoint(self.host_text(), session_method()),
    {
        let m = "psdb.v1alpha1.Database/CreateSession";
        proof {
            reveal_strlit("psdb.v1alpha1.Database/CreateSession");
            assert(m@ =~= session_method());
        }
        self.endpoint_url(m)
    }

    /// The request to run `query` in the connection's current session.
    pub fn request(&self, query: &str) -> (r: ExecuteRequest)
        ensures
            r.query@ == query@,
            same_optional_session(r.session, self.current_session()),
    {
        let session = match &self.session {
            Some(s) => Some(s.copied()),
            None => None,
        };
        ExecuteRequest::new(query, session)
    }

    /// What the connection makes of the answer to a statement: from now on
    /// it keeps the answer's session, whether the statement failed or not;
    /// it gives back the answer itself, or the database's error when it
    /// reported one.
    pub fn accept_answer(&mut self, res: ExecuteResponse) -> (r: Result<ExecuteResponse, DriverError>)
        ensures
            final(self).host_text() == old(self).host_text(),
            final(self).auth_text() == old(self).auth_text(),
            same_optional_session(final(self).current_session(), Some(res.session)),
            match res.error {
                Some(e) => r matches Err(DriverError::Vitess(v)) && v.code@ == e.code@
                    && v.message@ == e.message@,
                None => r == Ok::<ExecuteResponse, DriverError>(res),
            },
    {
        self.session = Some(res.session.copied());
        match &res.error {
            Some(err) => Err(
                DriverError::Vitess(VitessError { message: err.message.clone(), code: err.code.clone() }),
            ),
            None => Ok(res),
        }
    }

    /// What the connection makes of the answer to a request for a fresh
    /// session: it keeps the answer's session from now on.
    pub fn accept_session(&mut self, res: ExecuteResponse)
        ensures
            final(self).host_text() == old(self).host_text(),
            final(self).auth_text() == old(self).auth_text(),
            same_optional_session(final(self).current_session(), Some(res.session)),
    {
        self.session = Some(res.session);
    }
}

/// Once a connection has accepted an answer, the next request it makes runs
/// in the session that answer brought.
pub proof fn lemma_request_carries_last_session(
    answer: Session,
    kept: Option<Session>,
    sent: Option<Session>,
)
    requires
        same_optional_session(kept, Some(answer)),
        same_optional_session(sent, kept),
    ensures
        same_optional_session(sent, Some(answer)),
{
}

/// Where a transaction stands: what runs next, or how it ended.
pub enum TransactionStage<E> {
    /// `BEGIN` is sent next.
    Begin,
    /// The body runs next.
    Body,
    /// The body failed with this error; `ROLLBACK` is sent next.
    Rollback(E),
    /// The body succeeded; `COMMIT` is sent next.
    Commit,
    /// The transaction is over, with this outcome.
    Done(Result<(), E>),
}

impl<E> TransactionStage<E> {
    /// A transaction starts by sending `BEGIN`.
    pub fn start() -> (r: Self)
        ensures
            r is Begin,
    {
        TransactionStage::Begin
    }

    /// The statement to send at this stage, if one is sent.
    pub fn statement(&self) -> (r: Option<&'static str>)
        ensures
            self is Begin ==> (r matches Some(s) && s@ == seq!['B', 'E', 'G', 'I', 'N']),
            self is Rollback ==> (r matches Some(s) && s@ == seq![
                'R', 'O', 'L', 'L', 'B', 'A', 'C', 'K'
            ]),
            self is Commit ==> (r matches Some(s) && s@ == seq!['C', 'O', 'M', 'M', 'I', 'T']),
            (self is Body || self is Done) ==> r is None,
    {
        proof {
            reveal_strlit("BEGIN");
            reveal_strlit("ROLLBACK");
            reveal_strlit("COMMIT");
        }
        match self {
            TransactionStage::Begin => Some("BEGIN"),
            TransactionStage::Rollback(_) => Some("ROLLBACK"),
            TransactionStage::Commit => Some("COMMIT"),
            _ => None,
        }
    }

    /// The next stage, given the outcome of what ran at this one (see
    /// `stage_after`).
    pub fn next(self, outcome: Result<(), E>) -> (r: Self)
        requires
            !(self is Done),
        ensures
            r == stage_after(self, outcome),
    {
        match self {
            TransactionStage::Begin => match outcome {
                Ok(()) => TransactionStage::Body,
                Err(e) => TransactionStage::Done(Err(e)),
            },
            TransactionStage::Body => match outcome {
                Ok(()) => TransactionStage::Commit,
                Err(e) => TransactionStage::Rollback(e),
            },
            TransactionStage::Rollback(body_error) => match outcome {
                Ok(()) => TransactionStage::Done(Err(body_error)),
                Err(e) => TransactionStage::Done(Err(e)),
            },
            TransactionStage::Commit => TransactionStage::Done(outcome),
            TransactionStage::Done(o) => TransactionStage::Done(o),
        }
    }
}

/// The stage after `stage`, given the outcome of what ran there: a failed
/// `BEGIN` ends the transaction with its error; a failed body is rolled back
/// and, if the rollback succeeds, the transaction ends with the body's error;
/// a successful body is committed; a failed `ROLLBACK` or `COMMIT` ends it
/// with that failure; a successful `COMMIT` ends it well. An ended
/// transaction stays as it is.
pub open spec fn stage_after<E>(stage: TransactionStage<E>, outcome: Result<(), E>) -> TransactionStage<E> {
    match stage {
        TransactionStage::Begin => match outcome {
            Ok(()) => TransactionStage::Body,
            Err(e) => TransactionStage::Done(Err(e)),
        },
        TransactionStage::Body => match outcome {
            Ok(()) => TransactionStage::Commit,
            Err(e) => TransactionStage::Rollback(e),
        },
        TransactionStage::Rollback(body_error) => match outcome {
            Ok(()) => TransactionStage::Done(Err(body_error)),
            Err(e) => TransactionStage::Done(Err(e)),
        },
        TransactionStage::Commit => TransactionStage::Done(outcome),
        TransactionStage::Done(o) => TransactionStage::Done(o),
    }
}

/// Where a transaction stands after the outcomes `outcomes`, one for each
/// stage, starting from `stage`.
pub open spec fn stage_after_all<E>(stage: TransactionStage<E>, outcomes: Seq<Result<(), E>>) -> TransactionStage<E>
    decreases outcomes.len(),
{
    if outcomes.len() == 0 {
        stage
    } else {
        stage_after_all(stage_after(stage, outcomes[0]), outcomes.skip(1))
    }
}

/// A transaction ends well only when `BEGIN`, the body and `COMMIT` all
/// succeeded, in that order.
pub proof fn lemma_transaction_succeeds_only_when_committed<E>(outcomes: Seq<Result<(), E>>)
    requires
        stage_after_all(TransactionStage::<E>::Begin, outcomes) == TransactionStage::<E>::Done(
            Ok(()),
        ),
    ensures
        outcomes.len() >= 3,
        outcomes[0] is Ok,
        outcomes[1] is Ok,
        outcomes[2] is Ok,
{
    if outcomes.len() == 0 {
    } else {
        let s1 = stage_after(TransactionStage::<E>::Begin, outcomes[0]);
        let r1 = outcomes.skip(1);
        lemma_done_stays_done(s1, r1);
        if outcomes.len() >= 2 {
            let s2 = stage_after(s1, r1[0]);
            let r2 = r1.skip(1);
            lemma_done_stays_done(s2, r2);
            assert(r1[0] == outcomes[1]);
            if outcomes.len() >= 3 {
                let s3 = stage_after(s2, r2[0]);
                let r3 = r2.skip(1);
                lemma_done_stays_done(s3, r3);
                assert(r2[0] == outcomes[2]);
                if let TransactionStage::Rollback(e) = s2 {
                    assert(s3 is Done);
                }
            }
        }
    }
}

proof fn lemma_done_stays_done<E>(stage: TransactionStage<E>, outcomes: Seq<Result<(), E>>)
    ensures
        stage is Done ==> stage_after_all(stage, outcomes) == stage,
        outcomes.len() == 0 ==> stage_after_all(stage, outcomes) == stage,
    decreases outcomes.len(),
{
    if outcomes.len() > 0 {
        lemma_done_stays_done(stage_after(stage, outcomes[0]), outcomes.skip(1));
    }
}

/// When the body fails and the rollback succeeds, the transaction ends with
/// the body's error; when the rollback fails too, it ends with the
/// rollback's error. Either way it does not end well.
pub proof fn lemma_failed_body_is_reported<E>(
    body_error: E,
    rollback: Result<(), E>,
    rest: Seq<Result<(), E>>,
)
    ensures
        ({
            let outcomes = seq![Ok(()), Err(body_error), rollback] + rest;
            stage_after_all(TransactionStage::<E>::Begin, outcomes) == match rollback {
                Ok(()) => TransactionStage::<E>::Done(Err(body_error)),
                Err(e) => TransactionStage::<E>::Done(Err(e)),
            }
        }),
{
    let outcomes = seq![Ok(()), Err(body_error), rollback] + rest;
    let end = match rollback {
        Ok(()) => TransactionStage::<E>::Done(Err(body_error)),
        Err(e) => TransactionStage::<E>::Done(Err(e)),
    };
    lemma_done_stays_done(end, rest);
    let o1 = outcomes.skip(1);
    let o2 = o1.skip(1);
    let o3 = o2.skip(1);
    assert(o3 =~= rest);
    assert(outcomes[0] == Ok::<(), E>(()));
    assert(o1[0] == Err::<(), E>(body_error));
    assert(o2[0] == rollback);
    let b = TransactionStage::<E>::Begin;
    assert(stage_after_all(b, outcomes) == stage_after_all(TransactionStage::<E>::Body, o1));
    assert(stage_after_all(TransactionStage::<E>::Body, o1) == stage_after_all(
        TransactionStage::<E>::Rollback(body_error),
        o2,
    ));
    assert(stage_after_all(TransactionStage::<E>::Rollback(body_error), o2) == stage_after_all(
        end,
        o3,
    ));
}

/// The `Authorization` header carries the credentials verbatim: it is
/// `Basic ` followed by base64 text that decodes to exactly the UTF-8 bytes of
/// the username, `:` and the password, whatever characters they hold.
pub proof fn lemma_auth_header_carries_credentials(username: Seq<char>, password: Seq<char>)
    ensures
        basic_auth(username, password).take(6) == seq!['B', 'a', 's', 'i', 'c', ' '],
        crate::encoding::base64_decoded(basic_auth(username, password).skip(6)) == Some(
            encode_utf8(username + seq![':'] + password),
        ),
{
    let h = basic_auth(username, password);
    let creds = encode_utf8(username + seq![':'] + password);
    assert(h.take(6) =~= seq!['B', 'a', 's', 'i', 'c', ' ']);
    assert(h.skip(6) =~= base64_of(creds));
    crate::encoding::lemma_base64_round_trip(creds);
}

/// Statements go to `https://`, the host, then
/// `/psdb.v1alpha1.Database/Execute`; fresh sessions are asked for at the
/// same host under `/psdb.v1alpha1.Database/CreateSession`.
pub proof fn lemma_endpoints_of_host(host: Seq<char>)
    ensures
        endpoint(host, execute_method()) == seq!['h', 't', 't', 'p', 's', ':', '/', '/'] + host
            + seq![
            '/', 'p', 's', 'd', 'b', '.', 'v', '1', 'a', 'l', 'p', 'h', 'a', '1', '.', 'D', 'a',
            't', 'a', 'b', 'a', 's', 'e', '/', 'E', 'x', 'e', 'c', 'u', 't', 'e'
        ],
        endpoint(host, session_method()) == seq!['h', 't', 't', 'p', 's', ':', '/', '/'] + host
            + seq![
            '/', 'p', 's', 'd', 'b', '.', 'v', '1', 'a', 'l', 'p', 'h', 'a', '1', '.', 'D', 'a',
            't', 'a', 'b', 'a', 's', 'e', '/', 'C', 'r', 'e', 'a', 't', 'e', 'S', 'e', 's', 's',
            'i', 'o', 'n'
        ],
{
    assert(endpoint(host, execute_method()) =~= seq!['h', 't', 't', 'p', 's', ':', '/', '/'] + host
        + seq![
        '/', 'p', 's', 'd', 'b', '.', 'v', '1', 'a', 'l', 'p', 'h', 'a', '1', '.', 'D', 'a', 't',
        'a', 'b', 'a', 's', 'e', '/', 'E', 'x', 'e', 'c', 'u', 't', 'e'
    ]);
    assert(endpoint(host, session_method()) =~= seq!['h', 't', 't', 'p', 's', ':', '/', '/'] + host
        + seq![
        '/', 'p', 's', 'd', 'b', '.', 'v', '1', 'a', 'l', 'p', 'h', 'a', '1', '.', 'D', 'a', 't',
        'a', 'b', 'a', 's', 'e', '/', 'C', 'r', 'e', 'a', 't', 'e', 'S', 'e', 's', 's', 'i', 'o',
        'n'
    ]);
}

} // verus!
