//! Warehouse controller: the stock grid, the order and robot protocol
//! parsers, and the order workflow state machine.
pub mod control;
pub mod graphic;
pub mod order;
pub mod server;
pub mod text;
