//! Binance: the stream is chosen by the address itself, and every message is
//! a partial-book snapshot `{"lastUpdateId": .., "bids": [..], "asks": [..]}`.

use vstd::prelude::*;

verus! {

/// The name under which Binance's levels appear in the summary.
pub const EXCHANGE_NAME: &'static str = "binance";

/// The connection to Binance.
#[derive(Debug, Clone, Copy, PartialEq, Eq)]
pub struct BinanceConnection;

impl BinanceConnection {
    /// The exchange's name.
    pub fn exchange_name(&self) -> (r: &'static str)
        ensures
            r@ == EXCHANGE_NAME@,
    {
        EXCHANGE_NAME
    }

    /// The address of the depth stream of `symbol`, which is passed on as it is.
    pub fn endpoint(&self, symbol: &str) -> (r: String)
        ensures
            r@ == "wss://stream.binance.com:9443/ws/"@ + symbol@ + "@depth20@100ms"@,
    {
        let mut r = String::from_str("wss://stream.binance.com:9443/ws/");
        r.append(symbol);
        r.append("@depth20@100ms");
        r
    }
}

} // verus!
