//! Bitstamp: after connecting, the client subscribes to the order-book
//! channel of its symbol; the first reply must confirm the subscription, and
//! later messages carry the snapshot under `data`.

use vstd::prelude::*;

verus! {

/// The name under which Bitstamp's levels appear in the summary.
pub const EXCHANGE_NAME: &'static str = "bitstamp";

/// What a confirming reply contains.
pub const CONFIRMATION: &'static str = "bts:subscription_succeeded";

/// `pattern` occurs in `text`.
pub open spec fn occurs_in(pattern: Seq<char>, text: Seq<char>) -> bool {
    exists|i: int| 0 <= i && i + pattern.len() <= text.len() && #[trigger] text.subrange(i, i + pattern.len()) == pattern
}

/// The connection to Bitstamp.
#[derive(Debug, Clone, Copy, PartialEq, Eq)]
pub struct BitstampConnection;

impl BitstampConnection {
    /// The exchange's name.
    pub fn exchange_name(&self) -> (r: &'static str)
        ensures
            r@ == EXCHANGE_NAME@,
    {
        EXCHANGE_NAME
    }

    /// The address of Bitstamp's websocket service.
    pub fn endpoint(&self) -> (r: String)
        ensures
            r@ == "wss://ws.bitstamp.net"@,
    {
        String::from_str("wss://ws.bitstamp.net")
    }

    /// The request that subscribes to the order book of `symbol`, which is
    /// passed on as it is.
    pub fn subscription_message(&self, symbol: &str) -> (r: String)
        ensures
            r@ == "{\"event\":\"bts:subscribe\",\"data\":{\"channel\":\"order_book_"@ + symbol@
                + "\"}}"@,
    {
        let mut r = String::from_str("{\"event\":\"bts:subscribe\",\"data\":{\"channel\":\"order_book_");
        r.append(symbol);
        r.append("\"}}");
        r
    }

    /// Whether a reply to the subscription confirms it.
    pub fn is_confirmation(&self, reply: &str) -> (r: bool)
        ensures
            r == occurs_in(CONFIRMATION@, reply@),
    {
        contains_text(reply, CONFIRMATION)
    }
}

fn matches_at(text: &str, pattern: &str, at: usize, n: usize, m: usize) -> (r: bool)
    requires
        n == text@.len(),
        m == pattern@.len(),
        at + m <= n,
    ensures
        r == (text@.subrange(at as int, at + m) == pattern@),
{
    let mut j: usize = 0;
    while j < m
        invariant
            n == text@.len(),
            m == pattern@.len(),
            at + m <= n,
            j <= m,
            text@.subrange(at as int, at + j) == pattern@.take(j as int),
        decreases m - j,
    {
        if text.get_char(at + j) != pattern.get_char(j) {
            assert(text@.subrange(at as int, at + m)[j as int] != pattern@[j as int]);
            return false;
        }
        assert(text@.subrange(at as int, at + j + 1) =~= pattern@.take(j + 1));
        j = j + 1;
    }
    assert(pattern@.take(m as int) =~= pattern@);
    true
}

/// Whether `pattern` occurs in `text`.
fn contains_text(text: &str, pattern: &str) -> (r: bool)
    ensures
        r == occurs_in(pattern@, text@),
{
    let n = text.unicode_len();
    let m = pattern.unicode_len();
    if m > n {
        return false;
    }
    if m == 0 {
        assert(text@.subrange(0, 0 + pattern@.len() as int) =~= pattern@);
        return true;
    }
    let mut i: usize = 0;
    while i <= n - m
        invariant
            n == text@.len(),
            m == pattern@.len(),
            0 < m <= n,
            i <= n - m + 1,
            forall|k: int|
                0 <= k < i ==> #[trigger] text@.subrange(k, k + m as int) != pattern@,
        decreases n - m + 1 - i,
    {
        if matches_at(text, pattern, i, n, m) {
            return true;
        }
        i = i + 1;
    }
    false
}

} // verus!
