//! Turns a hierarchically commented emoji registry into a catalog of groups,
//! subgroups and emoji, expands each emoji's modifier variants into accessor
//! lists, and builds a sorted alias table from the catalog and an outside
//! alias dataset.
pub mod alias;
pub mod catalog;
pub mod constants;
pub mod emoji;
pub mod line;
pub mod preview;
pub mod strutil;
pub mod text;
