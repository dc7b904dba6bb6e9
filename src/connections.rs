//! The exchange adapters: per-exchange protocol facts, and the session that
//! decides what to do with each event of a websocket connection.

pub mod binance;
pub mod bitstamp;

use vstd::prelude::*;
use crate::decode::DecodeError;
use binance::BinanceConnection;
use bitstamp::{occurs_in, BitstampConnection, CONFIRMATION};

verus! {

/// An exchange that the engine can take snapshots from.
#[derive(Debug, Clone, Copy, PartialEq, Eq)]
pub enum ExchangeConnection {
    Binance(BinanceConnection),
    Bitstamp(BitstampConnection),
}

/// Why an adapter stopped.
#[derive(Debug, PartialEq, Eq)]
pub enum Error {
    /// The stream ended before the server replied to the subscription.
    NoConfirmation,
    /// The reply to the subscription did not confirm it; it is kept here.
    SubscriptionFailure(String),
    /// The connection failed; the text says how.
    Transport(String),
    /// A message could not be decoded.
    Deserialization(DecodeError),
    /// The server closed the connection.
    ConnectionDropped,
}

/// Where a session stands.
#[derive(Debug, Clone, Copy, PartialEq, Eq)]
pub enum SessionState {
    /// Subscribed, waiting for the server to confirm.
    AwaitingConfirmation,
    /// Every text frame is a snapshot.
    Streaming,
    /// The session is over.
    Finished,
}

/// What happened on the connection, or to a message handed out for decoding.
#[derive(Debug)]
pub enum SessionEvent {
    /// A ping or pong frame.
    Control,
    /// A text frame (a binary frame read as UTF-8).
    Text(String),
    /// A text frame handed out for decoding did not decode.
    Undecodable(DecodeError),
    /// The connection failed.
    Transport(String),
    /// The server closed the stream.
    Ended,
    /// The engine no longer takes snapshots.
    SinkClosed,
}

/// What the adapter does next.
#[derive(Debug)]
pub enum SessionStep {
    /// Nothing: read the next frame.
    Ignore,
    /// Decode this text as a snapshot and hand it to the engine.
    Decode(String),
    /// Stop, successfully.
    Stop,
    /// Stop with this error.
    Fail(Error),
}

/// The decisions of one adapter over one websocket connection.
#[derive(Debug)]
pub struct Session {
    pub state: SessionState,
}

/// The state and step that follow `event` in `state`. A confirmation is the
/// first text frame, and holds `CONFIRMATION`; control frames are ignored
/// until the session is over.
pub open spec fn next_step(state: SessionState, event: SessionEvent) -> (SessionState, SessionStep) {
    match state {
        SessionState::Finished => (SessionState::Finished, SessionStep::Stop),
        SessionState::AwaitingConfirmation => match event {
            SessionEvent::Text(t) => if occurs_in(CONFIRMATION@, t@) {
                (SessionState::Streaming, SessionStep::Ignore)
            } else {
                (SessionState::Finished, SessionStep::Fail(Error::SubscriptionFailure(t)))
            },
            SessionEvent::Control => (SessionState::AwaitingConfirmation, SessionStep::Ignore),
            SessionEvent::Undecodable(e) => (
                SessionState::Finished,
                SessionStep::Fail(Error::Deserialization(e)),
            ),
            SessionEvent::Transport(e) => (SessionState::Finished, SessionStep::Fail(Error::Transport(e))),
            SessionEvent::Ended => (SessionState::Finished, SessionStep::Fail(Error::NoConfirmation)),
            SessionEvent::SinkClosed => (SessionState::Finished, SessionStep::Stop),
        },
        SessionState::Streaming => match event {
            SessionEvent::Control => (SessionState::Streaming, SessionStep::Ignore),
            SessionEvent::Text(t) => (SessionState::Streaming, SessionStep::Decode(t)),
            SessionEvent::Undecodable(e) => (
                SessionState::Finished,
                SessionStep::Fail(Error::Deserialization(e)),
            ),
            SessionEvent::Transport(e) => (SessionState::Finished, SessionStep::Fail(Error::Transport(e))),
            SessionEvent::Ended => (SessionState::Finished, SessionStep::Fail(Error::ConnectionDropped)),
            SessionEvent::SinkClosed => (SessionState::Finished, SessionStep::Stop),
        },
    }
}

impl Session {
    /// Takes one event and says what to do.
    pub fn step(&mut self, event: SessionEvent) -> (r: SessionStep)
        ensures
            (final(self).state, r) == next_step(old(self).state, event),
    {
        match self.state {
            SessionState::Finished => SessionStep::Stop,
            SessionState::AwaitingConfirmation => match event {
                SessionEvent::Text(t) => {
                    if BitstampConnection.is_confirmation(t.as_str()) {
                        self.state = SessionState::Streaming;
                        SessionStep::Ignore
                    } else {
                        self.state = SessionState::Finished;
                        SessionStep::Fail(Error::SubscriptionFailure(t))
                    }
                },
                SessionEvent::Control => SessionStep::Ignore,
                SessionEvent::Undecodable(e) => {
                    self.state = SessionState::Finished;
                    SessionStep::Fail(Error::Deserialization(e))
                },
                SessionEvent::Transport(e) => {
                    self.state = SessionState::Finished;
                    SessionStep::Fail(Error::Transport(e))
                },
                SessionEvent::Ended => {
                    self.state = SessionState::Finished;
                    SessionStep::Fail(Error::NoConfirmation)
                },
                SessionEvent::SinkClosed => {
                    self.state = SessionState::Finished;
                    SessionStep::Stop
                },
            },
            SessionState::Streaming => match event {
                SessionEvent::Control => SessionStep::Ignore,
                SessionEvent::Text(t) => SessionStep::Decode(t),
                SessionEvent::Undecodable(e) => {
                    self.state = SessionState::Finished;
                    SessionStep::Fail(Error::Deserialization(e))
                },
                SessionEvent::Transport(e) => {
                    self.state = SessionState::Finished;
                    SessionStep::Fail(Error::Transport(e))
                },
                SessionEvent::Ended => {
                    self.state = SessionState::Finished;
                    SessionStep::Fail(Error::ConnectionDropped)
                },
                SessionEvent::SinkClosed => {
                    self.state = SessionState::Finished;
                    SessionStep::Stop
                },
            },
        }
    }
}

impl ExchangeConnection {
    /// The exchange's name, under which its levels appear in the summary.
    pub fn exchange_name(&self) -> (r: &'static str)
        ensures
            r@ == match self {
                ExchangeConnection::Binance(_) => binance::EXCHANGE_NAME@,
                ExchangeConnection::Bitstamp(_) => bitstamp::EXCHANGE_NAME@,
            },
    {
        match self {
            ExchangeConnection::Binance(c) => c.exchange_name(),
            ExchangeConnection::Bitstamp(c) => c.exchange_name(),
        }
    }

    /// The websocket address to dial for `symbol`.
    pub fn endpoint(&self, symbol: &str) -> (r: String)
        ensures
            r@ == match self {
                ExchangeConnection::Binance(_) => "wss://stream.binance.com:9443/ws/"@ + symbol@
                    + "@depth20@100ms"@,
                ExchangeConnection::Bitstamp(_) => "wss://ws.bitstamp.net"@,
            },
    {
        match self {
            ExchangeConnection::Binance(c) => c.endpoint(symbol),
            ExchangeConnection::Bitstamp(c) => c.endpoint(),
        }
    }

    /// The text frame to send once connected, if any.
    pub fn subscription_message(&self, symbol: &str) -> (r: Option<String>)
        ensures
            self is Binance ==> r is None,
            self is Bitstamp ==> (r matches Some(m) && m@
                == "{\"event\":\"bts:subscribe\",\"data\":{\"channel\":\"order_book_"@ + symbol@
                + "\"}}"@),
    {
        match self {
            ExchangeConnection::Binance(_) => None,
            ExchangeConnection::Bitstamp(c) => Some(c.subscription_message(symbol)),
        }
    }

    /// The session of a new connection: Bitstamp first waits for its
    /// subscription to be confirmed; Binance streams at once.
    pub fn start_session(&self) -> (r: Session)
        ensures
            self is Binance ==> r.state == SessionState::Streaming,
            self is Bitstamp ==> r.state == SessionState::AwaitingConfirmation,
    {
        match self {
            ExchangeConnection::Binance(_) => Session { state: SessionState::Streaming },
            ExchangeConnection::Bitstamp(_) => Session { state: SessionState::AwaitingConfirmation },
        }
    }
}

/// A ping or pong frame changes nothing while the session is live: the
/// session keeps its state and the adapter reads on, with no error.
pub proof fn lemma_control_frames_are_ignored(state: SessionState)
    requires
        state != SessionState::Finished,
    ensures
        next_step(state, SessionEvent::Control) == (state, SessionStep::Ignore),
{
}

} // verus!
