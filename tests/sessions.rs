use spreadget::connections::binance::BinanceConnection;
use spreadget::connections::bitstamp::BitstampConnection;
use spreadget::connections::{
    Error, ExchangeConnection, SessionEvent, SessionState, SessionStep,
};
use spreadget::{describe_failure, DecodeError, Supervisor, SupervisorAction, TaskOutcome};

#[test]
fn exchange_facts() {
    let binance = ExchangeConnection::Binance(BinanceConnection);
    let bitstamp = ExchangeConnection::Bitstamp(BitstampConnection);
    assert_eq!(binance.exchange_name(), "binance");
    assert_eq!(bitstamp.exchange_name(), "bitstamp");
    assert_eq!(
        binance.endpoint("ethbtc"),
        "wss://stream.binance.com:9443/ws/ethbtc@depth20@100ms"
    );
    assert_eq!(bitstamp.endpoint("ethbtc"), "wss://ws.bitstamp.net");
    assert_eq!(binance.subscription_message("ethbtc"), None);
    assert_eq!(
        bitstamp.subscription_message("ethbtc").unwrap(),
        "{\"event\":\"bts:subscribe\",\"data\":{\"channel\":\"order_book_ethbtc\"}}"
    );
}

#[test]
fn bitstamp_confirmation_starts_the_stream() {
    let mut session = ExchangeConnection::Bitstamp(BitstampConnection).start_session();
    assert_eq!(session.state, SessionState::AwaitingConfirmation);
    let reply = "{\"event\":\"bts:subscription_succeeded\",\"channel\":\"order_book_ethbtc\",\"data\":{}}";
    assert!(matches!(session.step(SessionEvent::Text(reply.to_string())), SessionStep::Ignore));
    assert_eq!(session.state, SessionState::Streaming);
    match session.step(SessionEvent::Text("{\"data\":{}}".to_string())) {
        SessionStep::Decode(t) => assert_eq!(t, "{\"data\":{}}"),
        other => panic!("unexpected step {:?}", other),
    }
}

#[test]
fn bitstamp_handshake_failure() {
    let mut session = ExchangeConnection::Bitstamp(BitstampConnection).start_session();
    let reply = "{\"event\":\"bts:error\"}".to_string();
    match session.step(SessionEvent::Text(reply.clone())) {
        SessionStep::Fail(Error::SubscriptionFailure(t)) => assert_eq!(t, reply),
        other => panic!("unexpected step {:?}", other),
    }
    assert_eq!(session.state, SessionState::Finished);
    let mut supervisor = Supervisor::new(2);
    assert_eq!(supervisor.on_task_end(TaskOutcome::Failed), SupervisorAction::CancelOthers);
    assert_eq!(supervisor.on_task_end(TaskOutcome::Cancelled), SupervisorAction::ShutDown);
    assert!(supervisor.is_idle());
}

#[test]
fn ping_before_confirmation_is_ignored() {
    let mut session = ExchangeConnection::Bitstamp(BitstampConnection).start_session();
    assert!(matches!(session.step(SessionEvent::Control), SessionStep::Ignore));
    assert_eq!(session.state, SessionState::AwaitingConfirmation);
    let reply = "{\"event\":\"bts:subscription_succeeded\"}".to_string();
    assert!(matches!(session.step(SessionEvent::Text(reply)), SessionStep::Ignore));
    assert_eq!(session.state, SessionState::Streaming);
}

#[test]
fn no_reply_to_subscription() {
    let mut session = ExchangeConnection::Bitstamp(BitstampConnection).start_session();
    assert!(matches!(session.step(SessionEvent::Ended), SessionStep::Fail(Error::NoConfirmation)));
}

#[test]
fn ping_between_data_frames_changes_nothing() {
    let mut session = ExchangeConnection::Binance(BinanceConnection).start_session();
    assert_eq!(session.state, SessionState::Streaming);
    assert!(matches!(session.step(SessionEvent::Text("a".to_string())), SessionStep::Decode(_)));
    assert!(matches!(session.step(SessionEvent::Control), SessionStep::Ignore));
    assert_eq!(session.state, SessionState::Streaming);
    assert!(matches!(session.step(SessionEvent::Text("b".to_string())), SessionStep::Decode(_)));
}

#[test]
fn streaming_failures_end_the_session() {
    let mut session = ExchangeConnection::Binance(BinanceConnection).start_session();
    match session.step(SessionEvent::Undecodable(DecodeError::NotANumber)) {
        SessionStep::Fail(Error::Deserialization(e)) => assert_eq!(e, DecodeError::NotANumber),
        other => panic!("unexpected step {:?}", other),
    }
    let mut session = ExchangeConnection::Binance(BinanceConnection).start_session();
    assert!(matches!(session.step(SessionEvent::Ended), SessionStep::Fail(Error::ConnectionDropped)));
    let mut session = ExchangeConnection::Binance(BinanceConnection).start_session();
    match session.step(SessionEvent::Transport("reset".to_string())) {
        SessionStep::Fail(Error::Transport(t)) => assert_eq!(t, "reset"),
        other => panic!("unexpected step {:?}", other),
    }
    let mut session = ExchangeConnection::Binance(BinanceConnection).start_session();
    assert!(matches!(session.step(SessionEvent::SinkClosed), SessionStep::Stop));
    assert!(matches!(session.step(SessionEvent::Control), SessionStep::Stop));
}

#[test]
fn supervisor_ignores_successes() {
    let mut supervisor = Supervisor::new(3);
    assert!(!supervisor.is_idle());
    assert_eq!(supervisor.on_task_end(TaskOutcome::Succeeded), SupervisorAction::Continue);
    assert_eq!(supervisor.on_task_end(TaskOutcome::Succeeded), SupervisorAction::Continue);
    assert_eq!(supervisor.on_task_end(TaskOutcome::Failed), SupervisorAction::ShutDown);
    assert!(Supervisor::new(0).is_idle());
}

#[test]
fn failure_description_walks_the_chain() {
    let causes = vec!["websocket problem".to_string(), "connection reset".to_string()];
    assert_eq!(
        describe_failure("adapter failed", &causes),
        "adapter failed: websocket problem: connection reset"
    );
    assert_eq!(describe_failure("alone", &vec![]), "alone");
}
