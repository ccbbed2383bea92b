//! Core engine for turning plain-text time ledgers into invoice figures:
//! the ledger line grammar, the date-range selection language, the
//! chronological aggregation with capping and overage rules, and the
//! persistent invoice sequence index.
//!
//! Hours and money amounts are held as fixed-point integers (see the
//! scale constants in [`data`]) so that every sum, cap and tax rule is
//! exact; the surrounding application converts at its edges.

pub mod clock;
pub mod data;
pub mod dates;
pub mod format;
pub mod index;
pub mod invoice;
pub mod latex;
pub mod log;
pub mod markdown;
pub mod parse;
pub mod text;
