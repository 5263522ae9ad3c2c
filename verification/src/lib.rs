//! Verified core of a personal expense visualiser for WeChat Pay bill
//! exports: reading the transaction list out of an exported bill, and the
//! rules for adding a manually entered record to the category totals.

pub mod data_io;
pub mod manual_entry;
pub mod models;
pub mod text;
