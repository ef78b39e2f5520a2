//! Verified core of a client for the PlanetScale HTTP database API: building
//! SQL from templates with escaped values, reading column values from text,
//! splitting the rows of an answer into values, and the decisions of a
//! connection (credentials, endpoints, sessions, transactions).

pub mod connection;
pub mod encoding;
pub mod parser;
pub mod querybuilder;
pub mod response;
pub mod structs;
pub mod text;

pub use connection::PSConnection;
pub use parser::Parser;
pub use querybuilder::{query, QueryBuilder};
pub use response::Deserializer;
