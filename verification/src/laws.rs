//! The relay's cross-operation guarantees, stated over the registry model
//! and proved once for every reachable state.
//!
//! The model keys host connection entries by room in a map, so a room
//! structurally cannot carry two host entries at once; what is stated here
//! is the behavioural side of the same guarantees — what each operation
//! refuses, preserves and delivers.

use vstd::prelude::*;

use crate::errors::RelayError;
use crate::frames::{
    lemma_parse_render_to_listener, spec_parse_host_frame, spec_render_to_host,
    spec_render_to_listener, SpecHostFrame,
};
use crate::relay::{
    spec_admit_host, spec_attach_listener, spec_detach_host, spec_detach_listener,
    spec_route_host_frame, spec_route_listener_frame, HostRouteOutcome, ListenerRouteError,
    ListenerRouteOk, RelayView, SpecRoomLookup,
};

verus! {

/// At most one host connection entry exists per room at any instant: on an
/// idle room the owner's first admission succeeds, and a second admission
/// for the same room — the concurrent retry serialised right behind the
/// first — is refused with `AlreadyHosted` and changes nothing, however
/// many times it is repeated.
pub proof fn law_single_host_per_room(v: RelayView, room: Seq<u8>, owner: Seq<u8>)
    requires
        !v.hosts.contains_key(room),
    ensures
        ({
            let first = spec_admit_host(v, room, owner, SpecRoomLookup::Found { owner });
            let second = spec_admit_host(first.0, room, owner, SpecRoomLookup::Found { owner });
            &&& first.1 == Ok::<(), RelayError>(())
            &&& second.1 == Err::<(), RelayError>(RelayError::AlreadyHosted)
            &&& second.0 == first.0
        }),
{
}

/// A host admission by a non-owner identity is always refused with
/// `NotOwner` and changes nothing — whether or not a host is attached, and
/// whatever else the registry holds.
pub proof fn law_nonowner_always_rejected(
    v: RelayView,
    room: Seq<u8>,
    caller: Seq<u8>,
    owner: Seq<u8>,
)
    requires
        caller != owner,
    ensures
        spec_admit_host(v, room, caller, SpecRoomLookup::Found { owner }) == (
            v,
            Err::<(), RelayError>(RelayError::NotOwner),
        ),
{
}

/// After a host detaches, a pending listener relay to that room fails —
/// fatally for the listener's session — and a fresh admission by the owner
/// succeeds, returning the room to hosted.
pub proof fn law_host_departure(
    v: RelayView,
    room: Seq<u8>,
    owner: Seq<u8>,
    lid: Seq<u8>,
    text: Seq<u8>,
)
    requires
        text.len() > 0,
    ensures
        ({
            let d = spec_detach_host(v, room);
            &&& spec_route_listener_frame(d, room, lid, text) == (
                d,
                Err::<ListenerRouteOk, ListenerRouteError>(ListenerRouteError::HostGone),
            )
            &&& spec_admit_host(d, room, owner, SpecRoomLookup::Found { owner }).1 == Ok::<
                (),
                RelayError,
            >(())
            &&& spec_admit_host(
                d,
                room,
                owner,
                SpecRoomLookup::Found { owner },
            ).0.hosts.contains_key(room)
        }),
{
}

/// Listener registration and deregistration never touch sibling listeners:
/// after attaching listeners `la` and `lb` and detaching `la`, the entry of
/// `lb` is exactly what it was, `la` is gone, and a host-originated relay
/// addressed to `lb` still delivers its payload verbatim.
pub proof fn law_sibling_listeners_unaffected(
    v: RelayView,
    room: Seq<u8>,
    la: Seq<u8>,
    lb: Seq<u8>,
    msg: Seq<u8>,
)
    requires
        v.wf(),
        v.listeners.contains_key(room),
        la != lb,
    ensures
        ({
            let vb = spec_attach_listener(spec_attach_listener(v, room, la).0, room, lb).0;
            let vd = spec_detach_listener(vb, room, la);
            &&& vd.listeners.contains_key(room)
            &&& !vd.listeners[room].contains_key(la)
            &&& vd.listeners[room].contains_key(lb)
            &&& vd.listeners[room][lb] == vb.listeners[room][lb]
            &&& spec_route_host_frame(vd, room, spec_render_to_listener(lb, msg)) == (
                RelayView {
                    cap: vd.cap,
                    hosts: vd.hosts,
                    listeners: vd.listeners.insert(
                        room,
                        vd.listeners[room].insert(lb, vd.listeners[room][lb].push(msg)),
                    ),
                },
                HostRouteOutcome::Delivered,
            )
        }),
{
    lemma_parse_render_to_listener(lb, msg);
    let vb = spec_attach_listener(spec_attach_listener(v, room, la).0, room, lb).0;
    let vd = spec_detach_listener(vb, room, la);
    assert(vd.listeners[room][lb] =~= Seq::<Seq<u8>>::empty());
    assert(vd.cap >= 1);
}

/// A keep-alive frame never changes the registry and never ends the host
/// connection: its outcome only asks the caller to touch the room's
/// last-active timestamp, and that touch failing is the caller's log line,
/// not a transition.
pub proof fn law_keep_alive_is_harmless(v: RelayView, room: Seq<u8>, frame: Seq<u8>)
    requires
        spec_parse_host_frame(frame) == Some(SpecHostFrame::KeepAlive),
    ensures
        spec_route_host_frame(v, room, frame) == (v, HostRouteOutcome::KeepAlive),
{
}

/// No inbound host frame — well-formed or not — creates or destroys a
/// connection entry: routing can only append to a listener queue. Teardown
/// happens through detachment alone.
pub proof fn law_host_frames_never_tear_down(v: RelayView, room: Seq<u8>, frame: Seq<u8>)
    ensures
        ({
            let v2 = spec_route_host_frame(v, room, frame).0;
            &&& v2.hosts == v.hosts
            &&& v2.listeners.dom() == v.listeners.dom()
            &&& forall|k: Seq<u8>| #[trigger]
                v.listeners.contains_key(k) ==> v2.listeners[k].dom() == v.listeners[k].dom()
        }),
{
    let v2 = spec_route_host_frame(v, room, frame).0;
    match spec_parse_host_frame(frame) {
        Some(SpecHostFrame::ToListener { to, msg }) => {
            if v.listeners.contains_key(room) && v.listeners[room].contains_key(to)
                && v.listeners[room][to].len() < v.cap {
                assert(v2.listeners.dom() =~= v.listeners.dom());
                assert forall|k: Seq<u8>| #[trigger]
                    v.listeners.contains_key(k) implies v2.listeners[k].dom()
                    == v.listeners[k].dom() by {
                    if k == room {
                        assert(v2.listeners[room].dom() =~= v.listeners[room].dom());
                    }
                }
            }
        },
        _ => {},
    }
}

/// A malformed host frame is dropped without any other effect: the
/// connection stays open and the next frame is processed exactly as if the
/// malformed one had never arrived.
pub proof fn law_malformed_frame_is_dropped(v: RelayView, room: Seq<u8>, f1: Seq<u8>, f2: Seq<u8>)
    requires
        spec_parse_host_frame(f1) is None,
    ensures
        spec_route_host_frame(v, room, f1) == (v, HostRouteOutcome::Malformed),
        spec_route_host_frame(spec_route_host_frame(v, room, f1).0, room, f2)
            == spec_route_host_frame(v, room, f2),
{
}

/// The relay round trip. Host to listener: the canonical `ToListener`
/// frame naming a registered listener delivers its payload verbatim onto
/// that listener's queue. Listener to host: non-empty text is wrapped as
/// `{"from":L,"msg":T}` and lands on the host's queue.
pub proof fn law_relay_round_trip(
    v: RelayView,
    room: Seq<u8>,
    lid: Seq<u8>,
    text: Seq<u8>,
    msg: Seq<u8>,
)
    requires
        v.wf(),
        v.hosts.contains_key(room),
        v.hosts[room].len() < v.cap,
        v.listeners[room].contains_key(lid),
        v.listeners[room][lid].len() < v.cap,
        text.len() > 0,
    ensures
        ({
            let (v2, o) = spec_route_host_frame(v, room, spec_render_to_listener(lid, msg));
            &&& o == HostRouteOutcome::Delivered
            &&& v2.listeners[room][lid] == v.listeners[room][lid].push(msg)
        }),
        ({
            let (v3, r) = spec_route_listener_frame(v, room, lid, text);
            &&& r == Ok::<ListenerRouteOk, ListenerRouteError>(ListenerRouteOk::Relayed)
            &&& v3.hosts[room] == v.hosts[room].push(spec_render_to_host(lid, text))
        }),
{
    lemma_parse_render_to_listener(lid, msg);
    assert(v.listeners.contains_key(room));
}

} // verus!
