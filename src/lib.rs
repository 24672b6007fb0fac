//! A handle-addressed, permission-checked store of protocol attributes, as
//! queried by the read path of an attribute protocol server.
pub mod ids;
pub mod att_database;
pub mod test_att_db;
