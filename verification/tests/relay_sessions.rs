use room_relay::errors::RelayError;
use room_relay::relay::{
    check_room, HostRouteOutcome, HostStatus, ListenerRouteError, ListenerRouteOk, Relay,
    RoomLookup,
};

fn owner() -> Vec<u8> {
    b"owner-1".to_vec()
}

fn room() -> Vec<u8> {
    b"room-1".to_vec()
}

fn found_owner() -> RoomLookup {
    RoomLookup::Found { owner: owner() }
}

fn hosted_relay() -> Relay {
    let mut relay = Relay::new(16);
    let admitted = relay.admit_host(&room(), &owner(), &found_owner());
    assert_eq!(admitted, Ok(()));
    relay
}

#[test]
fn second_host_attach_rejected_while_first_open() {
    let mut relay = hosted_relay();
    let second = relay.admit_host(&room(), &owner(), &found_owner());
    assert_eq!(second, Err(RelayError::AlreadyHosted));
    // the first connection entry remains
    assert!(relay.is_hosted(&room()));
}

#[test]
fn nonowner_host_attach_rejected_even_when_idle() {
    let mut relay = Relay::new(16);
    assert!(!relay.is_hosted(&room()));
    let refused = relay.admit_host(&room(), &b"someone-else".to_vec(), &found_owner());
    assert_eq!(refused, Err(RelayError::NotOwner));
    assert!(!relay.is_hosted(&room()));
}

#[test]
fn nonowner_host_attach_rejected_when_hosted() {
    let mut relay = hosted_relay();
    let refused = relay.admit_host(&room(), &b"someone-else".to_vec(), &found_owner());
    assert_eq!(refused, Err(RelayError::NotOwner));
}

#[test]
fn storage_verdicts_surface_before_any_state_change() {
    let mut relay = Relay::new(16);
    let missing = relay.admit_host(&room(), &owner(), &RoomLookup::NotFound);
    assert_eq!(missing, Err(RelayError::RoomNotFound));
    let down = relay.admit_host(&room(), &owner(), &RoomLookup::Unavailable);
    assert_eq!(down, Err(RelayError::StorageUnavailable));
    assert!(!relay.is_hosted(&room()));
}

#[test]
fn host_detach_fails_pending_listener_relay_then_reattach_succeeds() {
    let mut relay = hosted_relay();
    assert!(relay.attach_listener(&room(), &b"L1".to_vec()));

    relay.detach_host(&room());
    assert!(!relay.is_hosted(&room()));

    // the registered listener's next relay fails, fatally for its session
    let relayed = relay.route_listener_frame(&room(), &b"L1".to_vec(), &b"ping".to_vec());
    assert_eq!(relayed, Err(ListenerRouteError::HostGone));

    // a fresh host admission returns the room to hosted
    let again = relay.admit_host(&room(), &owner(), &found_owner());
    assert_eq!(again, Ok(()));
    assert!(relay.is_hosted(&room()));
}

#[test]
fn listener_cannot_register_in_unhosted_room() {
    let mut relay = Relay::new(16);
    assert!(!relay.attach_listener(&room(), &b"L1".to_vec()));
    assert!(relay.attach_listener_fresh(&room()).is_none());
}

#[test]
fn sibling_listener_detach_leaves_other_reachable() {
    let mut relay = hosted_relay();
    assert!(relay.attach_listener(&room(), &b"A".to_vec()));
    assert!(relay.attach_listener(&room(), &b"B".to_vec()));

    relay.detach_listener(&room(), &b"A".to_vec());

    // host-originated relay still reaches B
    let frame = b"{\"type\":\"ToListener\",\"to\":\"B\",\"msg\":\"still-here\"}".to_vec();
    assert_eq!(relay.route_host_frame(&room(), &frame), HostRouteOutcome::Delivered);
    let delivered = relay.next_listener_frame(&room(), &b"B".to_vec());
    assert_eq!(delivered, Some(b"still-here".to_vec()));

    // while A is gone
    let to_a = b"{\"type\":\"ToListener\",\"to\":\"A\",\"msg\":\"x\"}".to_vec();
    assert_eq!(relay.route_host_frame(&room(), &to_a), HostRouteOutcome::ListenerGone);
}

#[test]
fn keep_alive_never_terminates_host_connection() {
    let mut relay = hosted_relay();
    assert!(relay.attach_listener(&room(), &b"L1".to_vec()));

    // the outcome asks the caller to touch storage; even if that touch
    // fails, nothing here tears the connection down
    let outcome = relay.route_host_frame(&room(), &b"{\"type\":\"KeepAlive\"}".to_vec());
    assert_eq!(outcome, HostRouteOutcome::KeepAlive);

    assert!(relay.is_hosted(&room()));
    let frame = b"{\"type\":\"ToListener\",\"to\":\"L1\",\"msg\":\"after\"}".to_vec();
    assert_eq!(relay.route_host_frame(&room(), &frame), HostRouteOutcome::Delivered);
}

#[test]
fn round_trip_host_to_listener_and_back() {
    let mut relay = hosted_relay();
    assert!(relay.attach_listener(&room(), &b"L1".to_vec()));

    // host -> listener: payload arrives verbatim
    let frame = b"{\"type\":\"ToListener\",\"to\":\"L1\",\"msg\":\"hello\"}".to_vec();
    assert_eq!(relay.route_host_frame(&room(), &frame), HostRouteOutcome::Delivered);
    assert_eq!(relay.next_listener_frame(&room(), &b"L1".to_vec()), Some(b"hello".to_vec()));

    // listener -> host: text arrives wrapped
    let sent = relay.route_listener_frame(&room(), &b"L1".to_vec(), &b"ping".to_vec());
    assert_eq!(sent, Ok(ListenerRouteOk::Relayed));
    assert_eq!(
        relay.next_host_frame(&room()),
        Some(b"{\"from\":\"L1\",\"msg\":\"ping\"}".to_vec())
    );
}

#[test]
fn malformed_host_frame_dropped_and_next_frame_processed() {
    let mut relay = hosted_relay();
    let outcome = relay.route_host_frame(&room(), &b"not json".to_vec());
    assert_eq!(outcome, HostRouteOutcome::Malformed);

    // the connection was not closed: a following KeepAlive is processed
    let next = relay.route_host_frame(&room(), &b"{\"type\":\"KeepAlive\"}".to_vec());
    assert_eq!(next, HostRouteOutcome::KeepAlive);
}

#[test]
fn empty_listener_text_is_ignored() {
    let mut relay = hosted_relay();
    let sent = relay.route_listener_frame(&room(), &b"L1".to_vec(), &Vec::new());
    assert_eq!(sent, Ok(ListenerRouteOk::Ignored));
    assert_eq!(relay.next_host_frame(&room()), None);
}

#[test]
fn per_connection_frame_order_is_kept() {
    let mut relay = hosted_relay();
    assert!(relay.attach_listener(&room(), &b"L1".to_vec()));
    for payload in ["one", "two", "three"] {
        let frame = format!("{{\"type\":\"ToListener\",\"to\":\"L1\",\"msg\":\"{payload}\"}}");
        assert_eq!(
            relay.route_host_frame(&room(), &frame.into_bytes()),
            HostRouteOutcome::Delivered
        );
    }
    assert_eq!(relay.next_listener_frame(&room(), &b"L1".to_vec()), Some(b"one".to_vec()));
    assert_eq!(relay.next_listener_frame(&room(), &b"L1".to_vec()), Some(b"two".to_vec()));
    assert_eq!(relay.next_listener_frame(&room(), &b"L1".to_vec()), Some(b"three".to_vec()));
    assert_eq!(relay.next_listener_frame(&room(), &b"L1".to_vec()), None);
}

#[test]
fn full_listener_queue_drops_host_relay() {
    let mut relay = Relay::new(2);
    assert_eq!(relay.admit_host(&room(), &owner(), &found_owner()), Ok(()));
    assert!(relay.attach_listener(&room(), &b"L1".to_vec()));
    let frame = b"{\"type\":\"ToListener\",\"to\":\"L1\",\"msg\":\"m\"}".to_vec();
    assert_eq!(relay.route_host_frame(&room(), &frame), HostRouteOutcome::Delivered);
    assert_eq!(relay.route_host_frame(&room(), &frame), HostRouteOutcome::Delivered);
    // the bound is the backpressure: the third is dropped, not fatal
    assert_eq!(relay.route_host_frame(&room(), &frame), HostRouteOutcome::QueueFull);
    assert!(relay.is_hosted(&room()));
}

#[test]
fn full_host_queue_is_fatal_to_listener() {
    let mut relay = Relay::new(1);
    assert_eq!(relay.admit_host(&room(), &owner(), &found_owner()), Ok(()));
    assert!(relay.attach_listener(&room(), &b"L1".to_vec()));
    let first = relay.route_listener_frame(&room(), &b"L1".to_vec(), &b"a".to_vec());
    assert_eq!(first, Ok(ListenerRouteOk::Relayed));
    let second = relay.route_listener_frame(&room(), &b"L1".to_vec(), &b"b".to_vec());
    assert_eq!(second, Err(ListenerRouteError::QueueFull));
}

#[test]
fn fresh_listener_ids_register_and_receive() {
    let mut relay = hosted_relay();
    let lid = relay.attach_listener_fresh(&room()).expect("room is hosted");
    assert_eq!(lid.len(), 36);

    let mut frame = b"{\"type\":\"ToListener\",\"to\":\"".to_vec();
    frame.extend_from_slice(&lid);
    frame.extend_from_slice(b"\",\"msg\":\"direct\"}");
    assert_eq!(relay.route_host_frame(&room(), &frame), HostRouteOutcome::Delivered);
    assert_eq!(relay.next_listener_frame(&room(), &lid), Some(b"direct".to_vec()));

    let other = relay.attach_listener_fresh(&room()).expect("room is hosted");
    assert_ne!(lid, other);
}

#[test]
fn host_status_tracks_host_entry() {
    let mut relay = Relay::new(16);
    assert_eq!(relay.host_status(&room()), HostStatus::Stopped);
    assert_eq!(relay.admit_host(&room(), &owner(), &found_owner()), Ok(()));
    assert_eq!(relay.host_status(&room()), HostStatus::Playing);
    relay.detach_host(&room());
    assert_eq!(relay.host_status(&room()), HostStatus::Stopped);
}

#[test]
fn host_status_codes_and_labels() {
    assert_eq!(HostStatus::from_code(0), HostStatus::Unknown);
    assert_eq!(HostStatus::from_code(1), HostStatus::Stopped);
    assert_eq!(HostStatus::from_code(2), HostStatus::Playing);
    assert_eq!(HostStatus::from_code(-7), HostStatus::Unknown);
    assert_eq!(HostStatus::Playing.code(), 2);
    assert_eq!(HostStatus::Unknown.label(), "unknown");
    assert_eq!(HostStatus::Stopped.label(), "stopped");
    assert_eq!(HostStatus::Playing.label(), "playing");
}

#[test]
fn errors_do_not_leak_across_rooms() {
    let mut relay = Relay::new(16);
    let other_room = b"room-2".to_vec();
    assert_eq!(relay.admit_host(&room(), &owner(), &found_owner()), Ok(()));
    assert_eq!(relay.admit_host(&other_room, &owner(), &found_owner()), Ok(()));
    assert!(relay.attach_listener(&other_room, &b"L9".to_vec()));

    relay.detach_host(&room());

    // the other room's state is untouched
    assert!(relay.is_hosted(&other_room));
    let frame = b"{\"type\":\"ToListener\",\"to\":\"L9\",\"msg\":\"ok\"}".to_vec();
    assert_eq!(relay.route_host_frame(&other_room, &frame), HostRouteOutcome::Delivered);
}

#[test]
fn listener_admission_follows_storage_verdict() {
    assert_eq!(check_room(&found_owner()), Ok(()));
    assert_eq!(check_room(&RoomLookup::NotFound), Err(RelayError::RoomNotFound));
    assert_eq!(check_room(&RoomLookup::Unavailable), Err(RelayError::StorageUnavailable));
}
