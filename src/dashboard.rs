//! The model behind the terminal dashboard: the summary it shows, whether the
//! user asked to quit, and the rows of its two tables.

use vstd::prelude::*;
use crate::book::{Level, Summary};
use crate::decimal::{format_units, units_text};

verus! {

/// The dashboard's state.
#[derive(Debug)]
pub struct App {
    /// The market symbol shown in the banner.
    pub symbol: String,
    /// The address the summaries come from.
    pub address: String,
    /// The latest summary received.
    pub summary: Summary,
    /// Whether the user asked to quit.
    pub should_quit: bool,
}

impl App {
    /// A dashboard that has received no summary yet.
    pub fn new(symbol: String, address: String) -> (r: Self)
        ensures
            r.symbol == symbol,
            r.address == address,
            r.summary.spread == 0,
            r.summary.bids@.len() == 0,
            r.summary.asks@.len() == 0,
            !r.should_quit,
    {
        App { symbol, address, summary: Summary::empty(), should_quit: false }
    }

    /// The user pressed a quit key.
    pub fn on_quit_key(&mut self)
        ensures
            final(self).should_quit,
            final(self).symbol == old(self).symbol,
            final(self).address == old(self).address,
            final(self).summary == old(self).summary,
    {
        self.should_quit = true;
    }

    /// A new summary arrived: it replaces the one shown.
    pub fn on_new_summary(&mut self, summary: Summary)
        ensures
            final(self).summary == summary,
            final(self).should_quit == old(self).should_quit,
            final(self).symbol == old(self).symbol,
            final(self).address == old(self).address,
    {
        self.summary = summary;
    }
}

/// One row of a side's table.
#[derive(Debug, PartialEq, Eq)]
pub struct TableRow {
    /// The amount, with five decimal places.
    pub amount: String,
    /// The price, with ten decimal places.
    pub price: String,
    /// The exchange, in parentheses.
    pub exchange: String,
}

/// The table of one side of the summary.
#[derive(Debug, PartialEq, Eq)]
pub struct Table {
    pub title: String,
    pub rows: Vec<TableRow>,
}

/// The row that shows `level`.
pub open spec fn row_shows(row: TableRow, level: Level) -> bool {
    &&& row.amount@ == units_text(level.amount as nat, 5)
    &&& row.price@ == units_text(level.price as nat, 10)
    &&& row.exchange@ == "("@ + level.exchange@ + ")"@
}

/// The table titled `which` that shows `levels`, one row each, in order.
pub fn levels_as_table(which: &str, levels: &Vec<Level>) -> (r: Table)
    ensures
        r.title@ == which@,
        r.rows@.len() == levels@.len(),
        forall|i: int| 0 <= i < levels@.len() ==> row_shows(#[trigger] r.rows@[i], levels@[i]),
{
    let mut rows: Vec<TableRow> = Vec::new();
    let mut i: usize = 0;
    while i < levels.len()
        invariant
            i <= levels@.len(),
            rows@.len() == i,
            forall|k: int| 0 <= k < i ==> row_shows(#[trigger] rows@[k], levels@[k]),
        decreases levels@.len() - i,
    {
        let level = &levels[i];
        let mut exchange = String::from_str("(");
        exchange.append(level.exchange.as_str());
        exchange.append(")");
        let row = TableRow {
            amount: format_units(level.amount, 5),
            price: format_units(level.price, 10),
            exchange,
        };
        rows.push(row);
        i = i + 1;
    }
    Table { title: String::from_str(which), rows }
}

} // verus!
