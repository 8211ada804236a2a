//! Bulk export of ledger event records: split a block span into bounded
//! sub-spans, fetch each from a query service, retry rejected spans with a
//! narrower width, decode each raw event's payload against an event
//! signature, and render one delimited text row per decoded event.

pub mod decode;
pub mod engine;
pub mod event;
pub mod laws;
pub mod row;
pub mod span;
