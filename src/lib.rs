//! Merge the top-of-book depth feeds of several exchanges into one bounded,
//! price-sorted summary of bids and asks, with the spread between them.
//!
//! Prices and amounts are fixed-point: whole numbers of hundred-millionths.

mod aggregator;
mod book;
pub mod connections;
mod dashboard;
mod decimal;
mod decode;
mod feed;
mod supervisor;

pub use aggregator::{merge_side, OrderbookAggregator, Side, SUMMARY_DEPTH};
pub use book::{AnonymousLevel, Level, SimpleOrderBook, Summary};
pub use dashboard::{levels_as_table, App, Table, TableRow};
pub use decimal::{format_units, parse_decimal, UNITS_PER_WHOLE};
pub use decode::{decode_book, decode_level, decode_side, DecodeError, LevelField};
pub use feed::{copy_summary, FeedCursor, FeedPoll, SummaryFeed};
pub use supervisor::{describe_failure, Supervisor, SupervisorAction, TaskOutcome};
