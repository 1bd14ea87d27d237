//! Consolidation of two exchanges' order-book depth into one ranked,
//! bounded top-of-book view with its spread.

pub mod decimal;
pub mod book;
pub mod merge;
pub mod messages;
pub mod state;
pub mod engine;
pub mod service;
pub mod connector;
