use shutdown::sink::{route_message, SinkRoute};
use shutdown::server::{AcceptLoop, LoopAction, MergeEvent, StopReason};

#[test]
fn connections_spawn_handlers_while_running() {
    let mut accept_loop = AcceptLoop::new();
    assert!(accept_loop.is_running());
    assert_eq!(accept_loop.on_event(MergeEvent::Connection), LoopAction::Spawn);
    assert_eq!(accept_loop.on_event(MergeEvent::Connection), LoopAction::Spawn);
    assert!(accept_loop.is_running());
    assert_eq!(accept_loop.stop_reason(), None);
}

#[test]
fn shutdown_stops_accepting_and_later_connections_are_ignored() {
    let mut accept_loop = AcceptLoop::new();
    // two clients are connected; one of them sends the shutdown line
    assert_eq!(accept_loop.on_event(MergeEvent::Connection), LoopAction::Spawn);
    assert_eq!(accept_loop.on_event(MergeEvent::Connection), LoopAction::Spawn);
    assert_eq!(
        accept_loop.on_event(MergeEvent::Shutdown),
        LoopAction::Stop(StopReason::ShutdownRequested)
    );
    assert!(!accept_loop.is_running());
    assert_eq!(accept_loop.stop_reason(), Some(StopReason::ShutdownRequested));
    // a third client attempting to connect after the transition is not accepted;
    // the handlers already spawned were never told to stop
    assert_eq!(accept_loop.on_event(MergeEvent::Connection), LoopAction::Ignore);
    assert_eq!(accept_loop.stop_reason(), Some(StopReason::ShutdownRequested));
}

#[test]
fn simultaneous_connection_and_shutdown_stops_without_spawning() {
    let mut accept_loop = AcceptLoop::new();
    assert_eq!(
        accept_loop.on_event(MergeEvent::Both),
        LoopAction::Stop(StopReason::ShutdownRequested)
    );
    assert_eq!(accept_loop.on_event(MergeEvent::Connection), LoopAction::Ignore);
}

#[test]
fn accept_error_stops_with_a_distinct_reason() {
    let mut accept_loop = AcceptLoop::new();
    assert_eq!(
        accept_loop.on_event(MergeEvent::AcceptError),
        LoopAction::Stop(StopReason::ListenerFailed)
    );
    assert_eq!(accept_loop.stop_reason(), Some(StopReason::ListenerFailed));
    assert_eq!(accept_loop.on_event(MergeEvent::Shutdown), LoopAction::Ignore);
    assert_eq!(accept_loop.stop_reason(), Some(StopReason::ListenerFailed));
}

#[test]
fn reserved_literal_is_diverted() {
    match route_message("shutdown".to_owned()) {
        SinkRoute::Divert => {}
        SinkRoute::Forward(_) => panic!("the reserved literal must be diverted"),
    }
}

#[test]
fn other_messages_are_forwarded_unchanged() {
    for text in ["hello", "Shutdown", "shutdown ", "", "shutdow", "shutdownn"] {
        match route_message(text.to_owned()) {
            SinkRoute::Forward(forwarded) => assert_eq!(forwarded, text),
            SinkRoute::Divert => panic!("only the exact literal is diverted"),
        }
    }
}
