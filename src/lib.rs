//! A per-account ledger: the balance state machine, the fixed-width tail log
//! behind statements, the datagram framing of the ledger protocol with its
//! table of pending requests, the write-behind batch queue and the
//! version-tagged statement cache.
pub mod decimal;
pub mod ledger;
pub mod tail_log;
pub mod clock;
pub mod statement;
pub mod wire;
pub mod pending;
pub mod batch;
pub mod service;
