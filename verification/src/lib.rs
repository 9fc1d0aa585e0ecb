//! Incremental mirror of a remote, date-partitioned file catalog.
//!
//! The library holds the verified core of the sync engine: the persisted
//! catalog model, the canonical text codec for it, the paginated discovery
//! and file-listing walks, the download planning rules, and the engine
//! state transitions that tie them together.  All network and file I/O is
//! driven from outside; the library works on plain values and states, in
//! contracts, what each phase does to the catalog.

use vstd::prelude::*;

pub mod catalog;
pub mod codec;
pub mod dates;
pub mod engine;
pub mod filter;
pub mod pages;

verus! {

/// The kinds of remote data sets that can be mirrored.
#[derive(Clone, Copy)]
pub enum DataType {
    SwapRate,
    AggTrades,
    Trades,
}

impl DataType {
    /// The path segment of this data set, as spec text.
    pub open spec fn as_str_view(&self) -> Seq<char> {
        match self {
            DataType::SwapRate => "swaprate"@,
            DataType::AggTrades => "aggtrades"@,
            DataType::Trades => "trades"@,
        }
    }

    /// The path segment the remote service uses for this data set.
    pub fn as_str(&self) -> (r: &str)
        ensures
            r@ == self.as_str_view(),
    {
        match self {
            DataType::SwapRate => "swaprate",
            DataType::AggTrades => "aggtrades",
            DataType::Trades => "trades",
        }
    }
}

} // verus!
