//! Serving connections: what a connection does with the bytes it gets, which
//! connections there are, and what follows from an event.
pub mod conn;
pub mod find;
pub mod posted;
pub mod table;
pub mod turn;
