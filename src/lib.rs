//! Background column sorter: the schema rule, the sort engine over per-row
//! ranks and the state of a sort job with its query API.
pub mod ranking;
pub mod schema;
pub mod sorter;
