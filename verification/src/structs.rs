//! The messages of the PlanetScale HTTP API, as plain data. Their JSON forms
//! (camelCase field names) are read and written outside the library.

use vstd::prelude::*;

verus! {

/// A request to run one SQL statement.
#[derive(Debug, Clone, PartialEq, Default)]
pub struct ExecuteRequest {
    pub query: String,
    pub session: Option<Session>,
}

/// The answer to an `ExecuteRequest` or to a session request. (The timing
/// that the server also reports is a float and is not kept here.)
#[derive(Debug, Clone, PartialEq, Default)]
pub struct ExecuteResponse {
    pub session: Session,
    pub result: Option<QueryResult>,
    pub error: Option<VitessError>,
}

/// An error reported by the database.
#[derive(Debug, Clone, PartialEq, Default)]
pub struct VitessError {
    pub message: String,
    pub code: String,
}

/// The session that the server hands back with each answer.
#[derive(Debug, Clone, PartialEq, Default)]
pub struct Session {
    pub signature: String,
    pub vitess_session: VitessSession,
}

/// The database side of a session.
#[derive(Debug, Clone, PartialEq, Default)]
pub struct VitessSession {
    pub in_transaction: Option<bool>,
    pub autocommit: Option<bool>,
    pub shard_sessions: Option<Vec<ShardSession>>,
    pub options: Options,
    pub found_rows: Option<String>,
    pub row_count: Option<String>,
    pub ddlstrategy: String,
    pub session_uuid: String,
    pub enable_system_settings: bool,
}

/// A session on one shard.
#[derive(Debug, Clone, PartialEq, Default)]
pub struct ShardSession {
    pub target: Target,
    pub transaction_id: String,
    pub tablet_alias: TabletAlias,
}

/// Where a shard session runs.
#[derive(Debug, Clone, PartialEq, Default)]
pub struct Target {
    pub keyspace: String,
    pub shard: String,
    pub tablet_type: String,
}

/// The tablet of a shard session.
#[derive(Debug, Clone, PartialEq, Default)]
pub struct TabletAlias {
    pub cell: String,
    pub uid: i64,
}

/// Options of a session.
#[derive(Debug, Clone, PartialEq, Default)]
pub struct Options {
    pub included_fields: String,
    pub client_found_rows: bool,
}

/// The result of a statement: counters, column descriptions and rows.
#[derive(Debug, Clone, PartialEq, Default)]
pub struct QueryResult {
    pub rows_affected: Option<String>,
    pub insert_id: Option<String>,
    pub fields: Option<Vec<Field>>,
    pub rows: Option<Vec<Row>>,
}

/// The description of a column.
#[derive(Debug, Clone, PartialEq, Default)]
pub struct Field {
    pub name: String,
    pub type_field: String,
    pub table: Option<String>,
    pub org_table: Option<String>,
    pub database: Option<String>,
    pub org_name: Option<String>,
    pub column_length: Option<i64>,
    pub charset: Option<i64>,
    pub flags: Option<i64>,
    pub column_type: Option<String>,
}

/// One row: the byte length of each column value, in decimal, and all the
/// values one after the other, in base64.
#[derive(Debug, Clone, PartialEq, Default)]
pub struct Row {
    pub lengths: Vec<String>,
    pub values: String,
}

} // verus!
