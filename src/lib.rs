//! Finds a short chain of friends between two accounts of a social graph by
//! best-first search: a key-deduplicated max-heap frontier of scored candidates,
//! a ledger of who discovered whom, and a search state machine that hands out
//! batches to expand and folds the results back in. Fetching pages and scoring
//! accounts happen outside; the search decides what to do with them.

pub mod account;
pub mod error;
pub mod heap;
pub mod html_parser;
pub mod ledger;
pub mod searcher;
pub mod steam_requester;
pub mod util;
