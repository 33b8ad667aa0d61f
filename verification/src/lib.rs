//! Inventory of the processes that hold listening network ports.
//!
//! The library decodes the field-tagged output of `lsof` into processes and their ports
//! ([`lsof`]), shows the part of that inventory that a free-text filter matches ([`filter`]),
//! and keeps the state of a list display: the mode, the filter and a selection that stays on
//! the same process while fresh inventories replace the old ([`app`]).
//!
//! Every function is verified against a contract over plain values: byte and character
//! sequences, entries and views. The few calls that are believed without proof are the
//! private functions marked `external_body`, and each says what it takes on trust.

pub mod app;
pub mod decimal;
pub mod filter;
pub mod lsof;
pub mod lsof_laws;
pub mod text;
