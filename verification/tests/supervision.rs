use respframe::frame::Frame;
use respframe::server::{AcceptBackoff, HandlerAction, HandlerEvent, HandlerState};
use respframe::shutdown::Coordinator;

#[test]
fn backoff_doubles_and_caps() {
    // seven consecutive failures back off 1, 2, 4, ..., 64 and stay retryable
    let mut policy = AcceptBackoff::new();
    let mut delays = Vec::new();
    for _ in 0..7 {
        match policy.on_failure() {
            Some(delay) => delays.push(delay),
            None => panic!("failure within the cap must not be fatal"),
        }
    }
    assert_eq!(delays, vec![1, 2, 4, 8, 16, 32, 64]);
    // an eighth consecutive failure (the delay has grown past 64) is fatal
    assert_eq!(policy.on_failure(), None);
}

#[test]
fn backoff_success_before_cap_is_not_fatal() {
    let mut policy = AcceptBackoff::new();
    for _ in 0..7 {
        assert!(policy.on_failure().is_some());
    }
    // accept succeeded here: a fresh attempt starts over with a fresh policy
    let mut fresh = AcceptBackoff::new();
    assert_eq!(fresh.on_failure(), Some(1));
}

#[test]
fn shutdown_broadcast_reaches_existing_and_late_observers() {
    let mut coordinator = Coordinator::new();
    let mut early = coordinator.subscribe();
    assert!(!early.is_shutdown());

    coordinator.broadcast();
    // an observer created before the broadcast reports shutdown once its
    // pending wait resolves
    early.note_signal();
    assert!(early.is_shutdown());
    // and stays signalled forever
    early.note_signal();
    assert!(early.is_shutdown());

    // an observer created after the broadcast is signalled immediately
    let late = coordinator.subscribe();
    assert!(late.is_shutdown());

    // a repeated broadcast is a no-op: the first is definitive
    coordinator.broadcast();
    assert!(coordinator.subscribe().is_shutdown());
}

#[test]
fn handler_transitions() {
    let (state, action) = respframe::server::handler_step(
        HandlerState::Active,
        HandlerEvent::Frame(Frame::Simple(String::from("hi"))),
    );
    assert_eq!(state, HandlerState::Active);
    match action {
        HandlerAction::Echo(f) => assert_eq!(f, Frame::Simple(String::from("hi"))),
        _ => panic!("a received frame must be echoed"),
    }

    let (state, action) =
        respframe::server::handler_step(HandlerState::Active, HandlerEvent::EndOfStream);
    assert_eq!(state, HandlerState::Terminated);
    assert!(matches!(action, HandlerAction::Stop));

    let (state, action) =
        respframe::server::handler_step(HandlerState::Active, HandlerEvent::ShutdownObserved);
    assert_eq!(state, HandlerState::Terminated);
    assert!(matches!(action, HandlerAction::Stop));

    let (state, action) =
        respframe::server::handler_step(HandlerState::Active, HandlerEvent::ConnectionError);
    assert_eq!(state, HandlerState::TerminatedWithError);
    assert!(matches!(action, HandlerAction::Fail));
}
