//! Incremental rebuild decisions for a tree of LaTeX documents: which files
//! must be converted again, where their output goes, and the ledger of the
//! times at which each file was last seen.
pub mod ledger;
pub mod paths;
pub mod run;
pub mod scan;
pub mod stale;
pub mod stamp;
pub mod text;
