//! Crafting-resource request tracking for a game guild: free-text resource
//! lists are normalized and parsed into quantities, compared against a shared
//! inventory ledger, and settled by debiting stock once every line is covered.
//!
//! The crate is organised leaf-first:
//! - [`text`]: the character-level model (trimming, lowercasing, digits);
//! - [`normalize`]: canonical resource keys;
//! - [`parse`]: the free-text resource-list grammar and unit conversion;
//! - [`inventory`]: point-in-time stock snapshots keyed by resource key;
//! - [`reconcile`]: completed/remaining splits of a request against stock;
//! - [`registry`]: the one-open-request-per-requester store;
//! - [`rows`]: coercion of raw ledger rows to and from typed values;
//! - [`lifecycle`]: the request state machine, from start to settlement;
//! - [`submission`]: crediting donated stock against the ledger and open rows.

pub mod errors;
pub mod text;
pub mod normalize;
pub mod parse;
pub mod inventory;
pub mod reconcile;
pub mod registry;
pub mod rows;
pub mod lifecycle;
pub mod submission;
