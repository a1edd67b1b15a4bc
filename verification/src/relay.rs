//! The connection registry, session admission and teardown, and the router.
//!
//! A [`Relay`] holds, per room, at most one host connection entry and a set
//! of listener connection entries, each entry owning a bounded outbound
//! queue. Admission, teardown and routing are all operations on this one
//! value; the process around it serialises them (the registry is the only
//! contended resource) and a pump per connection drains the queues onto the
//! sockets.
//!
//! The registry is modelled by a [`RelayView`]: two maps keyed by room, one
//! to the host's outbound queue and one to the room's listener set. Every
//! operation's contract is a pure transition on that model.
//!
//! Policy: a listener may register only while its room is hosted (the host's
//! arrival creates the room's listener set, its departure removes it), so a
//! listener arriving before the host is turned away rather than left
//! orphaned.

use vstd::prelude::*;

use crate::errors::RelayError;
use crate::frames::{
    bytes_eq, parse_host_frame, render_to_host, spec_parse_host_frame, spec_render_to_host,
    HostFrame, SpecHostFrame,
};

verus! {

// ---------------------------------------------------------------------------
// Association lists as maps
// ---------------------------------------------------------------------------

/// The map an association list stands for; a later entry wins, though the
/// registry keeps keys distinct.
spec fn amap<V>(l: Seq<(Seq<u8>, V)>) -> Map<Seq<u8>, V>
    decreases l.len(),
{
    if l.len() == 0 {
        Map::empty()
    } else {
        amap(l.drop_last()).insert(l.last().0, l.last().1)
    }
}

spec fn alist_keys_distinct<V>(l: Seq<(Seq<u8>, V)>) -> bool {
    forall|i: int, j: int| 0 <= i < j < l.len() ==> l[i].0 != l[j].0
}

proof fn lemma_amap_dom<V>(l: Seq<(Seq<u8>, V)>, k: Seq<u8>)
    ensures
        amap(l).contains_key(k) <==> exists|i: int| 0 <= i < l.len() && l[i].0 == k,
    decreases l.len(),
{
    if l.len() > 0 {
        lemma_amap_dom(l.drop_last(), k);
        if amap(l).contains_key(k) {
            if k == l.last().0 {
                assert(l[l.len() - 1].0 == k);
            } else {
                let i = choose|i: int|
                    0 <= i < l.drop_last().len() && l.drop_last()[i].0 == k;
                assert(l[i].0 == k);
            }
        }
        if exists|i: int| 0 <= i < l.len() && l[i].0 == k {
            let i = choose|i: int| 0 <= i < l.len() && l[i].0 == k;
            if i < l.len() - 1 {
                assert(l.drop_last()[i].0 == k);
            }
        }
    }
}

proof fn lemma_amap_absent<V>(l: Seq<(Seq<u8>, V)>, k: Seq<u8>)
    requires
        forall|i: int| 0 <= i < l.len() ==> l[i].0 != k,
    ensures
        !amap(l).contains_key(k),
{
    lemma_amap_dom(l, k);
}

proof fn lemma_amap_index<V>(l: Seq<(Seq<u8>, V)>, i: int)
    requires
        alist_keys_distinct(l),
        0 <= i < l.len(),
    ensures
        amap(l).contains_key(l[i].0),
        amap(l)[l[i].0] == l[i].1,
    decreases l.len(),
{
    if i == l.len() - 1 {
    } else {
        assert(l.drop_last()[i] == l[i]);
        assert(alist_keys_distinct(l.drop_last()));
        lemma_amap_index(l.drop_last(), i);
        assert(l.last().0 != l[i].0);
    }
}

proof fn lemma_amap_push<V>(l: Seq<(Seq<u8>, V)>, k: Seq<u8>, v: V)
    ensures
        amap(l.push((k, v))) == amap(l).insert(k, v),
{
    assert(l.push((k, v)).drop_last() =~= l);
    assert(l.push((k, v)).last() == (k, v));
}

proof fn lemma_amap_update<V>(l: Seq<(Seq<u8>, V)>, i: int, v: V)
    requires
        alist_keys_distinct(l),
        0 <= i < l.len(),
    ensures
        amap(l.update(i, (l[i].0, v))) == amap(l).insert(l[i].0, v),
    decreases l.len(),
{
    let k = l[i].0;
    let l2 = l.update(i, (k, v));
    if i == l.len() - 1 {
        assert(l2.drop_last() =~= l.drop_last());
        assert(l2.last() == (k, v));
        assert(amap(l.drop_last()).insert(k, l[i].1).insert(k, v) =~= amap(
            l.drop_last(),
        ).insert(k, v));
    } else {
        assert(l2.drop_last() =~= l.drop_last().update(i, (k, v)));
        assert(l.drop_last()[i] == l[i]);
        assert(alist_keys_distinct(l.drop_last()));
        lemma_amap_update(l.drop_last(), i, v);
        assert(l2.last() == l.last());
        assert(l.last().0 != k);
        assert(amap(l.drop_last()).insert(k, v).insert(l.last().0, l.last().1) =~= amap(
            l.drop_last(),
        ).insert(l.last().0, l.last().1).insert(k, v));
    }
}

proof fn lemma_amap_remove<V>(l: Seq<(Seq<u8>, V)>, i: int)
    requires
        alist_keys_distinct(l),
        0 <= i < l.len(),
    ensures
        amap(l.remove(i)) == amap(l).remove(l[i].0),
    decreases l.len(),
{
    let k = l[i].0;
    if i == l.len() - 1 {
        assert(l.remove(i) =~= l.drop_last());
        assert(forall|j: int| 0 <= j < l.drop_last().len() ==> l.drop_last()[j].0 != k);
        lemma_amap_absent(l.drop_last(), k);
        assert(amap(l.drop_last()).insert(k, l[i].1).remove(k) =~= amap(l.drop_last()));
        assert(amap(l).remove(k) =~= amap(l.drop_last()));
    } else {
        assert(l.remove(i).drop_last() =~= l.drop_last().remove(i));
        assert(l.drop_last()[i] == l[i]);
        assert(alist_keys_distinct(l.drop_last()));
        lemma_amap_remove(l.drop_last(), i);
        assert(l.remove(i).last() == l.last());
        assert(l.last().0 != k);
        assert(amap(l.drop_last()).remove(k).insert(l.last().0, l.last().1) =~= amap(
            l.drop_last(),
        ).insert(l.last().0, l.last().1).remove(k));
    }
}

// ---------------------------------------------------------------------------
// The bounded outbound queue of one connection
// ---------------------------------------------------------------------------

/// One connection's outbound queue: frames wait here, in order, until the
/// connection's pump drains them onto the socket. The bound is the relay's
/// sole backpressure mechanism; a full queue makes the enqueue fail rather
/// than grow memory without bound.
pub struct Queue {
    cap: usize,
    items: Vec<Vec<u8>>,
}

impl View for Queue {
    type V = Seq<Seq<u8>>;

    closed spec fn view(&self) -> Seq<Seq<u8>> {
        self.items@.map_values(|m: Vec<u8>| m@)
    }
}

impl Queue {
    pub closed spec fn wf(&self) -> bool {
        1 <= self.cap && self.items@.len() <= self.cap
    }

    pub closed spec fn spec_cap(&self) -> usize {
        self.cap
    }

    pub fn new(cap: usize) -> (q: Queue)
        requires
            cap >= 1,
        ensures
            q.wf(),
            q.spec_cap() == cap,
            q@ == Seq::<Seq<u8>>::empty(),
    {
        let q = Queue { cap, items: Vec::new() };
        proof {
            assert(q@ =~= Seq::<Seq<u8>>::empty());
        }
        q
    }

    /// Enqueues one frame unless the queue is full.
    pub fn try_push(&mut self, m: Vec<u8>) -> (ok: bool)
        requires
            old(self).wf(),
        ensures
            final(self).wf(),
            final(self).spec_cap() == old(self).spec_cap(),
            ok == (old(self)@.len() < old(self).spec_cap()),
            ok ==> final(self)@ == old(self)@.push(m@),
            !ok ==> final(self)@ == old(self)@,
    {
        if self.items.len() < self.cap {
            let ghost before = self.items@;
            self.items.push(m);
            proof {
                assert(self@ =~= before.map_values(|x: Vec<u8>| x@).push(m@));
            }
            true
        } else {
            false
        }
    }

    /// Dequeues the oldest frame, if any.
    pub fn pop_front(&mut self) -> (r: Option<Vec<u8>>)
        requires
            old(self).wf(),
        ensures
            final(self).wf(),
            final(self).spec_cap() == old(self).spec_cap(),
            match r {
                None => old(self)@.len() == 0 && final(self)@ == old(self)@,
                Some(m) => {
                    &&& old(self)@.len() > 0
                    &&& m@ == old(self)@[0]
                    &&& final(self)@ == old(self)@.drop_first()
                },
            },
    {
        if self.items.len() == 0 {
            None
        } else {
            let ghost before = self.items@;
            let m = self.items.remove(0);
            proof {
                assert(before.remove(0) =~= before.drop_first());
                assert(self@ =~= before.map_values(|x: Vec<u8>| x@).drop_first());
            }
            Some(m)
        }
    }

    pub fn len(&self) -> (n: usize)
        ensures
            n == self@.len(),
    {
        self.items.len()
    }
}

// ---------------------------------------------------------------------------
// The registry model
// ---------------------------------------------------------------------------

/// The mathematical state of a relay: per room, the host's outbound queue
/// and the listener set with each listener's outbound queue.
pub struct RelayView {
    pub cap: nat,
    pub hosts: Map<Seq<u8>, Seq<Seq<u8>>>,
    pub listeners: Map<Seq<u8>, Map<Seq<u8>, Seq<Seq<u8>>>>,
}

impl RelayView {
    /// A room is hosted exactly while it carries a host connection entry,
    /// and exactly then does it have a listener set.
    pub open spec fn wf(self) -> bool {
        &&& self.cap >= 1
        &&& (forall|k: Seq<u8>| self.hosts.contains_key(k) <==> self.listeners.contains_key(k))
        &&& (forall|k: Seq<u8>| #[trigger]
            self.hosts.contains_key(k) ==> self.hosts[k].len() <= self.cap)
        &&& (forall|k: Seq<u8>, l: Seq<u8>|
            #![trigger self.listeners[k][l]]
            self.listeners.contains_key(k) && self.listeners[k].contains_key(l)
                ==> self.listeners[k][l].len() <= self.cap)
    }
}

/// What the storage collaborator said of a room, handed in by the caller:
/// the point read happens outside the registry, before any upgrade.
pub enum RoomLookup {
    /// The room exists and is owned by this identity.
    Found { owner: Vec<u8> },
    /// The room does not exist.
    NotFound,
    /// Storage could not be reached.
    Unavailable,
}

pub enum SpecRoomLookup {
    Found { owner: Seq<u8> },
    NotFound,
    Unavailable,
}

impl View for RoomLookup {
    type V = SpecRoomLookup;

    open spec fn view(&self) -> SpecRoomLookup {
        match self {
            RoomLookup::Found { owner } => SpecRoomLookup::Found { owner: owner@ },
            RoomLookup::NotFound => SpecRoomLookup::NotFound,
            RoomLookup::Unavailable => SpecRoomLookup::Unavailable,
        }
    }
}

// ---------------------------------------------------------------------------
// The registry itself
// ---------------------------------------------------------------------------

spec fn lset_alist(v: Seq<(Vec<u8>, Queue)>) -> Seq<(Seq<u8>, Seq<Seq<u8>>)> {
    v.map_values(|p: (Vec<u8>, Queue)| (p.0@, p.1@))
}

spec fn lset_view(v: Seq<(Vec<u8>, Queue)>) -> Map<Seq<u8>, Seq<Seq<u8>>> {
    amap(lset_alist(v))
}

spec fn rooms_alist(v: Seq<(Vec<u8>, Vec<(Vec<u8>, Queue)>)>) -> Seq<
    (Seq<u8>, Map<Seq<u8>, Seq<Seq<u8>>>),
> {
    v.map_values(|p: (Vec<u8>, Vec<(Vec<u8>, Queue)>)| (p.0@, lset_view(p.1@)))
}

/// The connection registry: room to host connection entry, and room to
/// listener connection entries.
pub struct Relay {
    cap: usize,
    hosts: Vec<(Vec<u8>, Queue)>,
    listeners: Vec<(Vec<u8>, Vec<(Vec<u8>, Queue)>)>,
}

impl View for Relay {
    type V = RelayView;

    closed spec fn view(&self) -> RelayView {
        RelayView {
            cap: self.cap as nat,
            hosts: amap(lset_alist(self.hosts@)),
            listeners: amap(rooms_alist(self.listeners@)),
        }
    }
}

spec fn lset_wf(v: Seq<(Vec<u8>, Queue)>, cap: usize) -> bool {
    &&& alist_keys_distinct(lset_alist(v))
    &&& (forall|j: int| 0 <= j < v.len() ==> (#[trigger] v[j].1).wf() && v[j].1.spec_cap() == cap)
}

impl Relay {
    pub closed spec fn wf(&self) -> bool {
        &&& self.cap >= 1
        &&& alist_keys_distinct(lset_alist(self.hosts@))
        &&& alist_keys_distinct(rooms_alist(self.listeners@))
        &&& lset_wf(self.hosts@, self.cap)
        &&& (forall|i: int| 0 <= i < self.listeners@.len() ==> lset_wf(
            (#[trigger] self.listeners@[i]).1@,
            self.cap,
        ))
        &&& (forall|k: Seq<u8>| self@.hosts.contains_key(k) <==> self@.listeners.contains_key(k))
    }

    /// A well-formed registry presents a well-formed model, so the laws
    /// stated over [`RelayView`] apply to every reachable registry.
    pub proof fn lemma_view_wf(&self)
        requires
            self.wf(),
        ensures
            self@.wf(),
    {
        let hs = lset_alist(self.hosts@);
        let rs = rooms_alist(self.listeners@);
        assert forall|k: Seq<u8>| #[trigger]
            self@.hosts.contains_key(k) implies self@.hosts[k].len() <= self@.cap by {
            lemma_amap_dom(hs, k);
            let i = choose|i: int| 0 <= i < hs.len() && hs[i].0 == k;
            lemma_amap_index(hs, i);
            assert(self@.hosts[k] == self.hosts@[i].1@);
        }
        assert forall|k: Seq<u8>, l: Seq<u8>|
            #![trigger self@.listeners[k][l]]
            self@.listeners.contains_key(k) && self@.listeners[k].contains_key(
                l,
            ) implies self@.listeners[k][l].len() <= self@.cap by {
            lemma_amap_dom(rs, k);
            let i = choose|i: int| 0 <= i < rs.len() && rs[i].0 == k;
            lemma_amap_index(rs, i);
            assert(self@.listeners[k] == lset_view(self.listeners@[i].1@));
            let inner = lset_alist(self.listeners@[i].1@);
            lemma_amap_dom(inner, l);
            let j = choose|j: int| 0 <= j < inner.len() && inner[j].0 == l;
            lemma_amap_index(inner, j);
            assert(self@.listeners[k][l] == self.listeners@[i].1@[j].1@);
        }
    }

    /// An empty registry whose queues will be bounded by `cap`.
    pub fn new(cap: usize) -> (r: Relay)
        requires
            cap >= 1,
        ensures
            r.wf(),
            r@.cap == cap,
            r@.hosts == Map::<Seq<u8>, Seq<Seq<u8>>>::empty(),
            r@.listeners == Map::<Seq<u8>, Map<Seq<u8>, Seq<Seq<u8>>>>::empty(),
    {
        let r = Relay { cap, hosts: Vec::new(), listeners: Vec::new() };
        proof {
            assert(lset_alist(r.hosts@) =~= Seq::<(Seq<u8>, Seq<Seq<u8>>)>::empty());
            assert(rooms_alist(r.listeners@) =~= Seq::<
                (Seq<u8>, Map<Seq<u8>, Seq<Seq<u8>>>),
            >::empty());
        }
        r
    }

    /// The index of the room's host connection entry, if one exists.
    fn find_host_idx(&self, room: &Vec<u8>) -> (r: Option<usize>)
        ensures
            match r {
                None => forall|i: int| 0 <= i < self.hosts@.len()
                    ==> (#[trigger] self.hosts@[i]).0@ != room@,
                Some(i) => i < self.hosts@.len() && self.hosts@[i as int].0@ == room@,
            },
    {
        let mut i: usize = 0;
        while i < self.hosts.len()
            invariant
                i <= self.hosts@.len(),
                forall|j: int| 0 <= j < i ==> (#[trigger] self.hosts@[j]).0@ != room@,
            decreases self.hosts@.len() - i,
        {
            if bytes_eq(&self.hosts[i].0, room) {
                return Some(i);
            }
            i = i + 1;
        }
        None
    }

    /// The index of the room's listener set, if one exists.
    fn find_room_idx(&self, room: &Vec<u8>) -> (r: Option<usize>)
        ensures
            match r {
                None => forall|i: int| 0 <= i < self.listeners@.len()
                    ==> (#[trigger] self.listeners@[i]).0@ != room@,
                Some(i) => i < self.listeners@.len() && self.listeners@[i as int].0@ == room@,
            },
    {
        let mut i: usize = 0;
        while i < self.listeners.len()
            invariant
                i <= self.listeners@.len(),
                forall|j: int| 0 <= j < i ==> (#[trigger] self.listeners@[j]).0@ != room@,
            decreases self.listeners@.len() - i,
        {
            if bytes_eq(&self.listeners[i].0, room) {
                return Some(i);
            }
            i = i + 1;
        }
        None
    }

    /// Whether a host connection entry exists for the room: the operational
    /// definition of "the room is live".
    pub fn is_hosted(&self, room: &Vec<u8>) -> (r: bool)
        ensures
            r == self@.hosts.contains_key(room@),
    {
        match self.find_host_idx(room) {
            Some(i) => {
                proof {
                    assert(lset_alist(self.hosts@)[i as int].0 == room@);
                    lemma_amap_dom(lset_alist(self.hosts@), room@);
                }
                true
            },
            None => {
                proof {
                    assert(forall|i: int| 0 <= i < lset_alist(self.hosts@).len()
                        ==> lset_alist(self.hosts@)[i].0 != room@);
                    lemma_amap_absent(lset_alist(self.hosts@), room@);
                }
                false
            },
        }
    }
}

// ---------------------------------------------------------------------------
// Distinctness bookkeeping
// ---------------------------------------------------------------------------

proof fn lemma_distinct_remove<V>(l: Seq<(Seq<u8>, V)>, i: int)
    requires
        alist_keys_distinct(l),
        0 <= i < l.len(),
    ensures
        alist_keys_distinct(l.remove(i)),
{
    assert forall|a: int, b: int|
        0 <= a < b < l.remove(i).len() implies l.remove(i)[a].0 != l.remove(i)[b].0 by {
        assert(l.remove(i)[a] == (if a < i {
            l[a]
        } else {
            l[a + 1]
        }));
        assert(l.remove(i)[b] == (if b < i {
            l[b]
        } else {
            l[b + 1]
        }));
    }
}

proof fn lemma_distinct_update<V>(l: Seq<(Seq<u8>, V)>, i: int, v: V)
    requires
        alist_keys_distinct(l),
        0 <= i < l.len(),
    ensures
        alist_keys_distinct(l.update(i, (l[i].0, v))),
{
    assert forall|a: int, b: int|
        0 <= a < b < l.update(i, (l[i].0, v)).len() implies l.update(i, (l[i].0, v))[a].0 != l.update(
        i,
        (l[i].0, v),
    )[b].0 by {
        assert(l.update(i, (l[i].0, v))[a].0 == l[a].0);
        assert(l.update(i, (l[i].0, v))[b].0 == l[b].0);
    }
}

// ---------------------------------------------------------------------------
// Session lifecycle: the host path
// ---------------------------------------------------------------------------

/// What hosting admission does: the storage verdict is weighed first, then
/// ownership, then the single-host rule; only full success touches the
/// registry, creating the host entry and the room's empty listener set.
pub open spec fn spec_admit_host(
    v: RelayView,
    room: Seq<u8>,
    caller: Seq<u8>,
    lookup: SpecRoomLookup,
) -> (RelayView, Result<(), RelayError>) {
    match lookup {
        SpecRoomLookup::Unavailable => (v, Err(RelayError::StorageUnavailable)),
        SpecRoomLookup::NotFound => (v, Err(RelayError::RoomNotFound)),
        SpecRoomLookup::Found { owner } => if owner != caller {
            (v, Err(RelayError::NotOwner))
        } else if v.hosts.contains_key(room) {
            (v, Err(RelayError::AlreadyHosted))
        } else {
            (
                RelayView {
                    cap: v.cap,
                    hosts: v.hosts.insert(room, Seq::empty()),
                    listeners: v.listeners.insert(room, Map::empty()),
                },
                Ok(()),
            )
        },
    }
}

/// What host teardown does: the room's host entry and its whole listener
/// set go away, so later listener relays to this room report a vanished
/// host instead of silently succeeding.
pub open spec fn spec_detach_host(v: RelayView, room: Seq<u8>) -> RelayView {
    RelayView { cap: v.cap, hosts: v.hosts.remove(room), listeners: v.listeners.remove(room) }
}

impl Relay {
    /// Admits a host connection for `room`, claimed by `caller`, given what
    /// storage said of the room. On success the host connection entry and
    /// the room's empty listener set are created; on any error nothing
    /// changes and the upgrade must not happen.
    pub fn admit_host(&mut self, room: &Vec<u8>, caller: &Vec<u8>, lookup: &RoomLookup) -> (r:
        Result<(), RelayError>)
        requires
            old(self).wf(),
        ensures
            final(self).wf(),
            (final(self)@, r) == spec_admit_host(old(self)@, room@, caller@, lookup@),
    {
        match lookup {
            RoomLookup::Unavailable => Err(RelayError::StorageUnavailable),
            RoomLookup::NotFound => Err(RelayError::RoomNotFound),
            RoomLookup::Found { owner } => {
                if !bytes_eq(owner, caller) {
                    Err(RelayError::NotOwner)
                } else {
                    match self.find_host_idx(room) {
                        Some(i) => {
                            proof {
                                assert(lset_alist(self.hosts@)[i as int].0 == room@);
                                lemma_amap_index(lset_alist(self.hosts@), i as int);
                            }
                            Err(RelayError::AlreadyHosted)
                        },
                        None => {
                            proof {
                                assert(forall|j: int|
                                    0 <= j < lset_alist(self.hosts@).len() ==> lset_alist(
                                        self.hosts@,
                                    )[j].0 != room@);
                                lemma_amap_absent(lset_alist(self.hosts@), room@);
                            }
                            let ghost oh = self.hosts@;
                            let ghost ol = self.listeners@;
                            let rc1 = room.clone();
                            proof {
                                assert(rc1@ =~= room@);
                            }
                            self.hosts.push((rc1, Queue::new(self.cap)));
                            let rc2 = room.clone();
                            proof {
                                assert(rc2@ =~= room@);
                            }
                            let empty_set: Vec<(Vec<u8>, Queue)> = Vec::new();
                            self.listeners.push((rc2, empty_set));
                            proof {
                                assert(lset_alist(self.hosts@) =~= lset_alist(oh).push(
                                    (room@, Seq::empty()),
                                ));
                                lemma_amap_push(lset_alist(oh), room@, Seq::empty());
                                assert(self@.hosts == old(self)@.hosts.insert(
                                    room@,
                                    Seq::empty(),
                                ));
                                assert(lset_alist(Seq::<(Vec<u8>, Queue)>::empty()) =~= Seq::<
                                    (Seq<u8>, Seq<Seq<u8>>),
                                >::empty());
                                assert(rooms_alist(self.listeners@) =~= rooms_alist(ol).push(
                                    (room@, Map::empty()),
                                ));
                                lemma_amap_push(rooms_alist(ol), room@, Map::empty());
                                assert(self@.listeners == old(self)@.listeners.insert(
                                    room@,
                                    Map::empty(),
                                ));
                                assert(alist_keys_distinct(lset_alist(self.hosts@)));
                                assert(!old(self)@.hosts.contains_key(room@));
                                assert(!old(self)@.listeners.contains_key(room@));
                                assert forall|j: int|
                                    0 <= j < rooms_alist(ol).len() implies rooms_alist(
                                    ol,
                                )[j].0 != room@ by {
                                    lemma_amap_index(rooms_alist(ol), j);
                                    if rooms_alist(ol)[j].0 == room@ {
                                        assert(old(self)@.listeners.contains_key(room@));
                                    }
                                }
                                assert(alist_keys_distinct(rooms_alist(self.listeners@)));
                                assert forall|j: int|
                                    0 <= j < self.hosts@.len() implies (#[trigger] self.hosts@[j].1).wf()
                                    && self.hosts@[j].1.spec_cap() == self.cap by {
                                    if j < oh.len() {
                                        assert(self.hosts@[j] == oh[j]);
                                    }
                                }
                                assert(lset_wf(Seq::<(Vec<u8>, Queue)>::empty(), self.cap));
                                assert forall|j: int|
                                    0 <= j < self.listeners@.len() implies lset_wf(
                                    (#[trigger] self.listeners@[j]).1@,
                                    self.cap,
                                ) by {
                                    if j < ol.len() {
                                        assert(self.listeners@[j] == ol[j]);
                                    } else {
                                        assert(self.listeners@[j].1@ =~= Seq::<
                                            (Vec<u8>, Queue),
                                        >::empty());
                                    }
                                }
                                assert forall|k: Seq<u8>|
                                    self@.hosts.contains_key(k) <==> self@.listeners.contains_key(
                                    k,
                                ) by {
                                    if k != room@ {
                                        assert(old(self)@.hosts.contains_key(k)
                                            <==> old(self)@.listeners.contains_key(k));
                                    }
                                }
                                assert(self.wf());
                            }
                            Ok(())
                        },
                    }
                }
            },
        }
    }

    /// Tears a host connection down: removes the room's host entry and its
    /// listener set. Removing an idle room changes nothing.
    pub fn detach_host(&mut self, room: &Vec<u8>)
        requires
            old(self).wf(),
        ensures
            final(self).wf(),
            final(self)@ == spec_detach_host(old(self)@, room@),
    {
        match self.find_host_idx(room) {
            Some(i) => {
                let ghost oh = self.hosts@;
                self.hosts.remove(i);
                proof {
                    assert(lset_alist(self.hosts@) =~= lset_alist(oh).remove(i as int));
                    assert(lset_alist(oh)[i as int].0 == room@);
                    lemma_amap_remove(lset_alist(oh), i as int);
                    lemma_distinct_remove(lset_alist(oh), i as int);
                    assert forall|j: int|
                        0 <= j < self.hosts@.len() implies (#[trigger] self.hosts@[j].1).wf()
                        && self.hosts@[j].1.spec_cap() == self.cap by {
                        assert(self.hosts@[j] == (if j < i {
                            oh[j]
                        } else {
                            oh[j + 1]
                        }));
                    }
                    assert(self@.hosts == old(self)@.hosts.remove(room@));
                }
            },
            None => {
                proof {
                    assert(forall|j: int|
                        0 <= j < lset_alist(self.hosts@).len() ==> lset_alist(self.hosts@)[j].0
                            != room@);
                    lemma_amap_absent(lset_alist(self.hosts@), room@);
                    assert(self@.hosts.remove(room@) =~= self@.hosts);
                    assert(self@.hosts == old(self)@.hosts.remove(room@));
                }
            },
        }
        let ghost mid_hosts = self@.hosts;
        match self.find_room_idx(room) {
            Some(i) => {
                let ghost ol = self.listeners@;
                self.listeners.remove(i);
                proof {
                    assert(rooms_alist(self.listeners@) =~= rooms_alist(ol).remove(i as int));
                    assert(rooms_alist(ol)[i as int].0 == room@);
                    lemma_amap_remove(rooms_alist(ol), i as int);
                    lemma_distinct_remove(rooms_alist(ol), i as int);
                    assert forall|j: int|
                        0 <= j < self.listeners@.len() implies lset_wf(
                        (#[trigger] self.listeners@[j]).1@,
                        self.cap,
                    ) by {
                        assert(self.listeners@[j] == (if j < i {
                            ol[j]
                        } else {
                            ol[j + 1]
                        }));
                    }
                    assert(self@.listeners == old(self)@.listeners.remove(room@));
                }
            },
            None => {
                proof {
                    assert(forall|j: int|
                        0 <= j < rooms_alist(self.listeners@).len() ==> rooms_alist(
                            self.listeners@,
                        )[j].0 != room@);
                    lemma_amap_absent(rooms_alist(self.listeners@), room@);
                    assert(self@.listeners.remove(room@) =~= self@.listeners);
                    assert(self@.listeners == old(self)@.listeners.remove(room@));
                }
            },
        }
        proof {
            assert(self@.hosts == mid_hosts);
            assert forall|k: Seq<u8>|
                self@.hosts.contains_key(k) <==> self@.listeners.contains_key(k) by {
                assert(old(self)@.hosts.contains_key(k) <==> old(self)@.listeners.contains_key(
                    k,
                ));
            }
            assert(self.wf());
            assert(self@ == spec_detach_host(old(self)@, room@));
        }
    }
}

// ---------------------------------------------------------------------------
// Session lifecycle: the listener path
// ---------------------------------------------------------------------------

/// What listener registration does: if the room is hosted, the listener is
/// entered into the room's set with a fresh empty queue (re-registering an
/// identifier replaces its entry); if not, nothing changes and registration
/// is refused.
pub open spec fn spec_attach_listener(v: RelayView, room: Seq<u8>, lid: Seq<u8>) -> (
    RelayView,
    bool,
) {
    if v.listeners.contains_key(room) {
        (
            RelayView {
                cap: v.cap,
                hosts: v.hosts,
                listeners: v.listeners.insert(room, v.listeners[room].insert(lid, Seq::empty())),
            },
            true,
        )
    } else {
        (v, false)
    }
}

/// What listener teardown does: the one identifier leaves its room's set;
/// sibling listeners and the host entry are untouched, as is every other
/// room.
pub open spec fn spec_detach_listener(v: RelayView, room: Seq<u8>, lid: Seq<u8>) -> RelayView {
    if v.listeners.contains_key(room) {
        RelayView {
            cap: v.cap,
            hosts: v.hosts,
            listeners: v.listeners.insert(room, v.listeners[room].remove(lid)),
        }
    } else {
        v
    }
}

/// The listener path's admission rule: the upgrade may proceed exactly
/// when the room exists. No identity is needed to listen.
pub open spec fn spec_check_room(lookup: SpecRoomLookup) -> Result<(), RelayError> {
    match lookup {
        SpecRoomLookup::Found { owner } => Ok(()),
        SpecRoomLookup::NotFound => Err(RelayError::RoomNotFound),
        SpecRoomLookup::Unavailable => Err(RelayError::StorageUnavailable),
    }
}

/// Decides whether a listener upgrade may proceed, from what storage said
/// of the room.
pub fn check_room(lookup: &RoomLookup) -> (r: Result<(), RelayError>)
    ensures
        r == spec_check_room(lookup@),
{
    match lookup {
        RoomLookup::Found { owner: _ } => Ok(()),
        RoomLookup::NotFound => Err(RelayError::RoomNotFound),
        RoomLookup::Unavailable => Err(RelayError::StorageUnavailable),
    }
}

/// Relies on uuid::Uuid::new_v4 and its hyphenated text form: a freshly
/// drawn random identifier, 36 ASCII bytes long. Nothing else can be
/// promised of a random value.
#[verifier::external_body]
fn fresh_listener_id() -> (r: Vec<u8>)
    ensures
        r@.len() == 36,
{
    uuid::Uuid::new_v4().to_string().into_bytes()
}

impl Relay {
    /// Registers a listener under a caller-supplied identifier. Returns
    /// whether the listener was registered: a room without a live host has
    /// no listener set, and the listener is turned away.
    pub fn attach_listener(&mut self, room: &Vec<u8>, lid: &Vec<u8>) -> (registered: bool)
        requires
            old(self).wf(),
        ensures
            final(self).wf(),
            (final(self)@, registered) == spec_attach_listener(old(self)@, room@, lid@),
    {
        match self.find_room_idx(room) {
            None => {
                proof {
                    assert(forall|j: int|
                        0 <= j < rooms_alist(self.listeners@).len() ==> rooms_alist(
                            self.listeners@,
                        )[j].0 != room@);
                    lemma_amap_absent(rooms_alist(self.listeners@), room@);
                }
                false
            },
            Some(i) => {
                proof {
                    assert(rooms_alist(self.listeners@)[i as int].0 == room@);
                    lemma_amap_index(rooms_alist(self.listeners@), i as int);
                }
                let ghost ol = self.listeners@;
                let cap = self.cap;
                let mut entry = self.listeners.remove(i);
                let ghost oinner = entry.1@;
                match find_lset_idx(&entry.1, lid) {
                    Some(j) => {
                        proof {
                            assert(lset_alist(oinner)[j as int].0 == lid@);
                        }
                        let mut inner_entry = entry.1.remove(j);
                        inner_entry.1 = Queue::new(cap);
                        entry.1.insert(j, inner_entry);
                        proof {
                            assert(entry.1@ =~= oinner.update(
                                j as int,
                                (oinner[j as int].0, inner_entry.1),
                            ));
                            assert(lset_alist(entry.1@) =~= lset_alist(oinner).update(
                                j as int,
                                (lid@, Seq::empty()),
                            ));
                            lemma_amap_update(lset_alist(oinner), j as int, Seq::empty());
                            lemma_distinct_update(lset_alist(oinner), j as int, Seq::empty());
                            assert(lset_view(entry.1@) == lset_view(oinner).insert(
                                lid@,
                                Seq::empty(),
                            ));
                            assert forall|m: int|
                                0 <= m < entry.1@.len() implies (#[trigger] entry.1@[m].1).wf()
                                && entry.1@[m].1.spec_cap() == cap by {
                                if m != j {
                                    assert(entry.1@[m] == oinner[m]);
                                }
                            }
                            assert(lset_wf(entry.1@, cap));
                        }
                    },
                    None => {
                        entry.1.push((lid.clone(), Queue::new(cap)));
                        proof {
                            assert(lset_alist(entry.1@) =~= lset_alist(oinner).push(
                                (lid@, Seq::empty()),
                            ));
                            lemma_amap_push(lset_alist(oinner), lid@, Seq::empty());
                            assert(lset_view(entry.1@) == lset_view(oinner).insert(
                                lid@,
                                Seq::empty(),
                            ));
                            assert forall|a: int, b: int|
                                0 <= a < b < lset_alist(entry.1@).len() implies lset_alist(
                                entry.1@,
                            )[a].0 != lset_alist(entry.1@)[b].0 by {
                                if b < lset_alist(oinner).len() {
                                    assert(lset_alist(entry.1@)[a] == lset_alist(oinner)[a]);
                                    assert(lset_alist(entry.1@)[b] == lset_alist(oinner)[b]);
                                } else {
                                    assert(lset_alist(entry.1@)[a] == lset_alist(oinner)[a]);
                                    assert(lset_alist(oinner)[a].0 != lid@);
                                }
                            }
                            assert forall|m: int|
                                0 <= m < entry.1@.len() implies (#[trigger] entry.1@[m].1).wf()
                                && entry.1@[m].1.spec_cap() == cap by {
                                if m < oinner.len() {
                                    assert(entry.1@[m] == oinner[m]);
                                }
                            }
                            assert(lset_wf(entry.1@, cap));
                        }
                    },
                }
                let ghost new_inner = lset_view(entry.1@);
                self.listeners.insert(i, entry);
                proof {
                    assert(self.listeners@ =~= ol.update(i as int, entry));
                    assert(rooms_alist(self.listeners@) =~= rooms_alist(ol).update(
                        i as int,
                        (room@, new_inner),
                    ));
                    lemma_amap_update(rooms_alist(ol), i as int, new_inner);
                    lemma_distinct_update(rooms_alist(ol), i as int, new_inner);
                    assert(self@.listeners == old(self)@.listeners.insert(
                        room@,
                        old(self)@.listeners[room@].insert(lid@, Seq::empty()),
                    ));
                    assert forall|m: int|
                        0 <= m < self.listeners@.len() implies lset_wf(
                        (#[trigger] self.listeners@[m]).1@,
                        self.cap,
                    ) by {
                        if m != i {
                            assert(self.listeners@[m] == ol[m]);
                        }
                    }
                    assert forall|k: Seq<u8>|
                        self@.hosts.contains_key(k) <==> self@.listeners.contains_key(k) by {
                        assert(old(self)@.hosts.contains_key(k)
                            <==> old(self)@.listeners.contains_key(k));
                        assert(old(self)@.listeners.contains_key(room@));
                    }
                    assert(self.wf());
                }
                true
            },
        }
    }

    /// Registers a listener under a freshly drawn identifier and returns
    /// it, or returns nothing (and changes nothing) when the room is not
    /// hosted.
    pub fn attach_listener_fresh(&mut self, room: &Vec<u8>) -> (r: Option<Vec<u8>>)
        requires
            old(self).wf(),
        ensures
            final(self).wf(),
            match r {
                None => final(self)@ == old(self)@ && !old(self)@.listeners.contains_key(room@),
                Some(lid) => {
                    &&& lid@.len() == 36
                    &&& (final(self)@, true) == spec_attach_listener(old(self)@, room@, lid@)
                },
            },
    {
        let lid = fresh_listener_id();
        if self.attach_listener(room, &lid) {
            Some(lid)
        } else {
            None
        }
    }

    /// Removes one listener from its room's set; siblings and the host are
    /// untouched. Detaching from an idle room, or an identifier that is not
    /// registered, changes nothing.
    pub fn detach_listener(&mut self, room: &Vec<u8>, lid: &Vec<u8>)
        requires
            old(self).wf(),
        ensures
            final(self).wf(),
            final(self)@ == spec_detach_listener(old(self)@, room@, lid@),
    {
        match self.find_room_idx(room) {
            None => {
                proof {
                    assert(forall|j: int|
                        0 <= j < rooms_alist(self.listeners@).len() ==> rooms_alist(
                            self.listeners@,
                        )[j].0 != room@);
                    lemma_amap_absent(rooms_alist(self.listeners@), room@);
                }
            },
            Some(i) => {
                proof {
                    assert(rooms_alist(self.listeners@)[i as int].0 == room@);
                    lemma_amap_index(rooms_alist(self.listeners@), i as int);
                }
                let ghost ol = self.listeners@;
                let cap = self.cap;
                let mut entry = self.listeners.remove(i);
                let ghost oinner = entry.1@;
                match find_lset_idx(&entry.1, lid) {
                    Some(j) => {
                        proof {
                            assert(lset_alist(oinner)[j as int].0 == lid@);
                        }
                        entry.1.remove(j);
                        proof {
                            assert(lset_alist(entry.1@) =~= lset_alist(oinner).remove(j as int));
                            lemma_amap_remove(lset_alist(oinner), j as int);
                            lemma_distinct_remove(lset_alist(oinner), j as int);
                            assert(lset_view(entry.1@) == lset_view(oinner).remove(lid@));
                            assert forall|m: int|
                                0 <= m < entry.1@.len() implies (#[trigger] entry.1@[m].1).wf()
                                && entry.1@[m].1.spec_cap() == cap by {
                                assert(entry.1@[m] == (if m < j {
                                    oinner[m]
                                } else {
                                    oinner[m + 1]
                                }));
                            }
                            assert(lset_wf(entry.1@, cap));
                        }
                    },
                    None => {
                        proof {
                            assert(forall|m: int|
                                0 <= m < lset_alist(entry.1@).len() ==> lset_alist(entry.1@)[m].0
                                    != lid@);
                            lemma_amap_absent(lset_alist(entry.1@), lid@);
                            assert(lset_view(entry.1@).remove(lid@) =~= lset_view(entry.1@));
                            assert(lset_view(entry.1@) == lset_view(oinner).remove(lid@));
                        }
                    },
                }
                let ghost new_inner = lset_view(entry.1@);
                self.listeners.insert(i, entry);
                proof {
                    assert(self.listeners@ =~= ol.update(i as int, entry));
                    assert(rooms_alist(self.listeners@) =~= rooms_alist(ol).update(
                        i as int,
                        (room@, new_inner),
                    ));
                    lemma_amap_update(rooms_alist(ol), i as int, new_inner);
                    lemma_distinct_update(rooms_alist(ol), i as int, new_inner);
                    assert(self@.listeners == old(self)@.listeners.insert(
                        room@,
                        old(self)@.listeners[room@].remove(lid@),
                    ));
                    assert forall|m: int|
                        0 <= m < self.listeners@.len() implies lset_wf(
                        (#[trigger] self.listeners@[m]).1@,
                        self.cap,
                    ) by {
                        if m != i {
                            assert(self.listeners@[m] == ol[m]);
                        }
                    }
                    assert forall|k: Seq<u8>|
                        self@.hosts.contains_key(k) <==> self@.listeners.contains_key(k) by {
                        assert(old(self)@.hosts.contains_key(k)
                            <==> old(self)@.listeners.contains_key(k));
                        assert(old(self)@.listeners.contains_key(room@));
                    }
                    assert(self.wf());
                }
            },
        }
    }
}

// ---------------------------------------------------------------------------
// The message router
// ---------------------------------------------------------------------------

/// How the router disposed of one inbound host frame. No outcome is fatal:
/// whatever a host frame holds, the host's connection stays open.
#[derive(Clone, Copy, Debug, PartialEq, Eq, Structural)]
pub enum HostRouteOutcome {
    /// The frame was not understood; it is dropped and logged, nothing more.
    Malformed,
    /// A liveness ping: the caller should touch the room's last-active
    /// timestamp, and a failure of that touch is logged only.
    KeepAlive,
    /// A directed relay, but the room's listener set is gone.
    RoomGone,
    /// A directed relay, but no such listener is registered; dropped.
    ListenerGone,
    /// The listener's outbound queue is full; the frame is dropped.
    QueueFull,
    /// The payload was enqueued for the addressed listener.
    Delivered,
}

/// Why a listener-originated relay failed. Either failure ends that
/// listener's session, so its client can retry a fresh handshake.
#[derive(Clone, Copy, Debug, PartialEq, Eq, Structural)]
pub enum ListenerRouteError {
    /// The room has no live host connection entry.
    HostGone,
    /// The host's outbound queue is full.
    QueueFull,
}

/// How a listener frame that did not fail was disposed of.
#[derive(Clone, Copy, Debug, PartialEq, Eq, Structural)]
pub enum ListenerRouteOk {
    /// Empty text carries nothing and is ignored.
    Ignored,
    /// The wrapped payload was enqueued for the room's host.
    Relayed,
}

/// What routing one inbound host frame does: a malformed frame or a
/// keep-alive leaves the registry as it is; a directed relay appends the
/// payload, verbatim, to the addressed listener's queue when that listener
/// is present and its queue has room, and is otherwise dropped.
pub open spec fn spec_route_host_frame(v: RelayView, room: Seq<u8>, frame: Seq<u8>) -> (
    RelayView,
    HostRouteOutcome,
) {
    match spec_parse_host_frame(frame) {
        None => (v, HostRouteOutcome::Malformed),
        Some(SpecHostFrame::KeepAlive) => (v, HostRouteOutcome::KeepAlive),
        Some(SpecHostFrame::ToListener { to, msg }) => {
            if !v.listeners.contains_key(room) {
                (v, HostRouteOutcome::RoomGone)
            } else if !v.listeners[room].contains_key(to) {
                (v, HostRouteOutcome::ListenerGone)
            } else if v.listeners[room][to].len() >= v.cap {
                (v, HostRouteOutcome::QueueFull)
            } else {
                (
                    RelayView {
                        cap: v.cap,
                        hosts: v.hosts,
                        listeners: v.listeners.insert(
                            room,
                            v.listeners[room].insert(to, v.listeners[room][to].push(msg)),
                        ),
                    },
                    HostRouteOutcome::Delivered,
                )
            }
        },
    }
}

/// What routing one inbound listener frame does: empty text is ignored;
/// otherwise the text is wrapped as a host frame naming its sender and
/// appended to the host's queue. A vanished host or a full host queue is an
/// error, and fatal to the listener's session — the asymmetry with the
/// host direction is deliberate.
pub open spec fn spec_route_listener_frame(
    v: RelayView,
    room: Seq<u8>,
    lid: Seq<u8>,
    text: Seq<u8>,
) -> (RelayView, Result<ListenerRouteOk, ListenerRouteError>) {
    if text.len() == 0 {
        (v, Ok(ListenerRouteOk::Ignored))
    } else if !v.hosts.contains_key(room) {
        (v, Err(ListenerRouteError::HostGone))
    } else if v.hosts[room].len() >= v.cap {
        (v, Err(ListenerRouteError::QueueFull))
    } else {
        (
            RelayView {
                cap: v.cap,
                hosts: v.hosts.insert(room, v.hosts[room].push(spec_render_to_host(lid, text))),
                listeners: v.listeners,
            },
            Ok(ListenerRouteOk::Relayed),
        )
    }
}

/// What one pump step on the host's queue does: the oldest frame leaves.
pub open spec fn spec_next_host_frame(v: RelayView, room: Seq<u8>) -> (RelayView, Option<Seq<u8>>) {
    if !v.hosts.contains_key(room) || v.hosts[room].len() == 0 {
        (v, None)
    } else {
        (
            RelayView {
                cap: v.cap,
                hosts: v.hosts.insert(room, v.hosts[room].drop_first()),
                listeners: v.listeners,
            },
            Some(v.hosts[room][0]),
        )
    }
}

/// What one pump step on a listener's queue does: the oldest frame leaves.
pub open spec fn spec_next_listener_frame(v: RelayView, room: Seq<u8>, lid: Seq<u8>) -> (
    RelayView,
    Option<Seq<u8>>,
) {
    if !v.listeners.contains_key(room) || !v.listeners[room].contains_key(lid)
        || v.listeners[room][lid].len() == 0 {
        (v, None)
    } else {
        (
            RelayView {
                cap: v.cap,
                hosts: v.hosts,
                listeners: v.listeners.insert(
                    room,
                    v.listeners[room].insert(lid, v.listeners[room][lid].drop_first()),
                ),
            },
            Some(v.listeners[room][lid][0]),
        )
    }
}

impl Relay {
    /// Routes one inbound frame from the room's host. Never fatal, whatever
    /// the frame holds: the outcome says what happened, and only a
    /// successful directed relay changes any queue.
    pub fn route_host_frame(&mut self, room: &Vec<u8>, frame: &Vec<u8>) -> (o: HostRouteOutcome)
        requires
            old(self).wf(),
        ensures
            final(self).wf(),
            (final(self)@, o) == spec_route_host_frame(old(self)@, room@, frame@),
    {
        match parse_host_frame(frame) {
            None => HostRouteOutcome::Malformed,
            Some(HostFrame::KeepAlive) => HostRouteOutcome::KeepAlive,
            Some(HostFrame::ToListener { to, msg }) => {
                match self.find_room_idx(room) {
                    None => {
                        proof {
                            assert(forall|j: int|
                                0 <= j < rooms_alist(self.listeners@).len() ==> rooms_alist(
                                    self.listeners@,
                                )[j].0 != room@);
                            lemma_amap_absent(rooms_alist(self.listeners@), room@);
                        }
                        HostRouteOutcome::RoomGone
                    },
                    Some(i) => {
                        proof {
                            assert(rooms_alist(self.listeners@)[i as int].0 == room@);
                            lemma_amap_index(rooms_alist(self.listeners@), i as int);
                        }
                        match find_lset_idx(&self.listeners[i].1, &to) {
                            None => {
                                proof {
                                    let inner = self.listeners@[i as int].1@;
                                    assert(forall|m: int|
                                        0 <= m < lset_alist(inner).len() ==> lset_alist(
                                            inner,
                                        )[m].0 != to@);
                                    lemma_amap_absent(lset_alist(inner), to@);
                                }
                                HostRouteOutcome::ListenerGone
                            },
                            Some(j) => {
                                proof {
                                    let inner = self.listeners@[i as int].1@;
                                    assert(lset_alist(inner)[j as int].0 == to@);
                                    lemma_amap_index(lset_alist(inner), j as int);
                                }
                                if self.listeners[i].1[j].1.len() >= self.cap {
                                    HostRouteOutcome::QueueFull
                                } else {
                                    let ghost ol = self.listeners@;
                                    let cap = self.cap;
                                    let mut entry = self.listeners.remove(i);
                                    let ghost oinner = entry.1@;
                                    let mut inner_entry = entry.1.remove(j);
                                    let ghost oq = inner_entry.1@;
                                    let ok = inner_entry.1.try_push(msg);
                                    proof {
                                        assert(ok);
                                    }
                                    entry.1.insert(j, inner_entry);
                                    proof {
                                        assert(entry.1@ =~= oinner.update(
                                            j as int,
                                            (oinner[j as int].0, inner_entry.1),
                                        ));
                                        assert(lset_alist(entry.1@) =~= lset_alist(oinner).update(
                                            j as int,
                                            (to@, oq.push(msg@)),
                                        ));
                                        lemma_amap_update(lset_alist(oinner), j as int, oq.push(msg@));
                                        lemma_distinct_update(
                                            lset_alist(oinner),
                                            j as int,
                                            oq.push(msg@),
                                        );
                                        assert forall|m: int|
                                            0 <= m < entry.1@.len() implies (#[trigger] entry.1@[m].1).wf()
                                            && entry.1@[m].1.spec_cap() == cap by {
                                            if m != j {
                                                assert(entry.1@[m] == oinner[m]);
                                            }
                                        }
                                        assert(lset_wf(entry.1@, cap));
                                    }
                                    let ghost new_inner = lset_view(entry.1@);
                                    self.listeners.insert(i, entry);
                                    proof {
                                        assert(self.listeners@ =~= ol.update(i as int, entry));
                                        assert(rooms_alist(self.listeners@) =~= rooms_alist(
                                            ol,
                                        ).update(i as int, (room@, new_inner)));
                                        lemma_amap_update(rooms_alist(ol), i as int, new_inner);
                                        lemma_distinct_update(rooms_alist(ol), i as int, new_inner);
                                        assert(new_inner == old(self)@.listeners[room@].insert(
                                            to@,
                                            old(self)@.listeners[room@][to@].push(msg@),
                                        ));
                                        assert(self@.listeners == old(self)@.listeners.insert(
                                            room@,
                                            new_inner,
                                        ));
                                        assert forall|m: int|
                                            0 <= m < self.listeners@.len() implies lset_wf(
                                            (#[trigger] self.listeners@[m]).1@,
                                            self.cap,
                                        ) by {
                                            if m != i {
                                                assert(self.listeners@[m] == ol[m]);
                                            }
                                        }
                                        assert forall|k: Seq<u8>|
                                            self@.hosts.contains_key(k)
                                                <==> self@.listeners.contains_key(k) by {
                                            assert(old(self)@.hosts.contains_key(k)
                                                <==> old(self)@.listeners.contains_key(k));
                                            assert(old(self)@.listeners.contains_key(room@));
                                        }
                                        assert(self.wf());
                                    }
                                    HostRouteOutcome::Delivered
                                }
                            },
                        }
                    },
                }
            },
        }
    }

    /// Routes one inbound text frame from a listener. An error means this
    /// listener's session must end; the registry itself is unchanged on
    /// error, and teardown is the caller's next step.
    pub fn route_listener_frame(&mut self, room: &Vec<u8>, lid: &Vec<u8>, text: &Vec<u8>) -> (r:
        Result<ListenerRouteOk, ListenerRouteError>)
        requires
            old(self).wf(),
        ensures
            final(self).wf(),
            (final(self)@, r) == spec_route_listener_frame(old(self)@, room@, lid@, text@),
    {
        if text.len() == 0 {
            return Ok(ListenerRouteOk::Ignored);
        }
        match self.find_host_idx(room) {
            None => {
                proof {
                    assert(forall|j: int|
                        0 <= j < lset_alist(self.hosts@).len() ==> lset_alist(self.hosts@)[j].0
                            != room@);
                    lemma_amap_absent(lset_alist(self.hosts@), room@);
                }
                Err(ListenerRouteError::HostGone)
            },
            Some(i) => {
                proof {
                    assert(lset_alist(self.hosts@)[i as int].0 == room@);
                    lemma_amap_index(lset_alist(self.hosts@), i as int);
                }
                if self.hosts[i].1.len() >= self.cap {
                    Err(ListenerRouteError::QueueFull)
                } else {
                    let frame = render_to_host(lid, text);
                    let ghost oh = self.hosts@;
                    let mut entry = self.hosts.remove(i);
                    let ghost oq = entry.1@;
                    let ok = entry.1.try_push(frame);
                    proof {
                        assert(ok);
                    }
                    self.hosts.insert(i, entry);
                    proof {
                        assert(self.hosts@ =~= oh.update(i as int, entry));
                        assert(lset_alist(self.hosts@) =~= lset_alist(oh).update(
                            i as int,
                            (room@, oq.push(spec_render_to_host(lid@, text@))),
                        ));
                        lemma_amap_update(
                            lset_alist(oh),
                            i as int,
                            oq.push(spec_render_to_host(lid@, text@)),
                        );
                        lemma_distinct_update(
                            lset_alist(oh),
                            i as int,
                            oq.push(spec_render_to_host(lid@, text@)),
                        );
                        assert(self@.hosts == old(self)@.hosts.insert(
                            room@,
                            old(self)@.hosts[room@].push(spec_render_to_host(lid@, text@)),
                        ));
                        assert forall|m: int|
                            0 <= m < self.hosts@.len() implies (#[trigger] self.hosts@[m].1).wf()
                            && self.hosts@[m].1.spec_cap() == self.cap by {
                            if m != i {
                                assert(self.hosts@[m] == oh[m]);
                            }
                        }
                        assert forall|k: Seq<u8>|
                            self@.hosts.contains_key(k) <==> self@.listeners.contains_key(k) by {
                            assert(old(self)@.hosts.contains_key(k)
                                <==> old(self)@.listeners.contains_key(k));
                            assert(old(self)@.hosts.contains_key(room@));
                        }
                        assert(self.wf());
                    }
                    Ok(ListenerRouteOk::Relayed)
                }
            },
        }
    }
}

impl Relay {
    /// One pump step for the room's host connection: takes the oldest
    /// outbound frame, to be written to the host's socket.
    pub fn next_host_frame(&mut self, room: &Vec<u8>) -> (r: Option<Vec<u8>>)
        requires
            old(self).wf(),
        ensures
            final(self).wf(),
            match r {
                None => final(self)@ == old(self)@ && spec_next_host_frame(old(self)@, room@)
                    == (old(self)@, Option::<Seq<u8>>::None),
                Some(m) => (final(self)@, Some(m@)) == spec_next_host_frame(old(self)@, room@),
            },
    {
        match self.find_host_idx(room) {
            None => {
                proof {
                    assert(forall|j: int|
                        0 <= j < lset_alist(self.hosts@).len() ==> lset_alist(self.hosts@)[j].0
                            != room@);
                    lemma_amap_absent(lset_alist(self.hosts@), room@);
                }
                None
            },
            Some(i) => {
                proof {
                    assert(lset_alist(self.hosts@)[i as int].0 == room@);
                    lemma_amap_index(lset_alist(self.hosts@), i as int);
                }
                let ghost oh = self.hosts@;
                let mut entry = self.hosts.remove(i);
                let ghost oq = entry.1@;
                let popped = entry.1.pop_front();
                self.hosts.insert(i, entry);
                proof {
                    assert(self.hosts@ =~= oh.update(i as int, entry));
                    assert(lset_alist(self.hosts@) =~= lset_alist(oh).update(
                        i as int,
                        (room@, entry.1@),
                    ));
                    lemma_amap_update(lset_alist(oh), i as int, entry.1@);
                    lemma_distinct_update(lset_alist(oh), i as int, entry.1@);
                    assert forall|m: int|
                        0 <= m < self.hosts@.len() implies (#[trigger] self.hosts@[m].1).wf()
                        && self.hosts@[m].1.spec_cap() == self.cap by {
                        if m != i {
                            assert(self.hosts@[m] == oh[m]);
                        }
                    }
                    assert forall|k: Seq<u8>|
                        self@.hosts.contains_key(k) <==> self@.listeners.contains_key(k) by {
                        assert(old(self)@.hosts.contains_key(k)
                            <==> old(self)@.listeners.contains_key(k));
                        assert(old(self)@.hosts.contains_key(room@));
                    }
                    assert(self.wf());
                    if popped is None {
                        assert(self@.hosts.insert(room@, oq) =~= old(self)@.hosts);
                        assert(self@.hosts == old(self)@.hosts);
                    }
                }
                popped
            },
        }
    }

    /// One pump step for a listener connection: takes the oldest outbound
    /// frame, to be written to that listener's socket.
    pub fn next_listener_frame(&mut self, room: &Vec<u8>, lid: &Vec<u8>) -> (r: Option<Vec<u8>>)
        requires
            old(self).wf(),
        ensures
            final(self).wf(),
            match r {
                None => final(self)@ == old(self)@ && spec_next_listener_frame(
                    old(self)@,
                    room@,
                    lid@,
                ) == (old(self)@, Option::<Seq<u8>>::None),
                Some(m) => (final(self)@, Some(m@)) == spec_next_listener_frame(
                    old(self)@,
                    room@,
                    lid@,
                ),
            },
    {
        match self.find_room_idx(room) {
            None => {
                proof {
                    assert(forall|j: int|
                        0 <= j < rooms_alist(self.listeners@).len() ==> rooms_alist(
                            self.listeners@,
                        )[j].0 != room@);
                    lemma_amap_absent(rooms_alist(self.listeners@), room@);
                }
                None
            },
            Some(i) => {
                proof {
                    assert(rooms_alist(self.listeners@)[i as int].0 == room@);
                    lemma_amap_index(rooms_alist(self.listeners@), i as int);
                }
                match find_lset_idx(&self.listeners[i].1, lid) {
                    None => {
                        proof {
                            let inner = self.listeners@[i as int].1@;
                            assert(forall|m: int|
                                0 <= m < lset_alist(inner).len() ==> lset_alist(inner)[m].0
                                    != lid@);
                            lemma_amap_absent(lset_alist(inner), lid@);
                        }
                        None
                    },
                    Some(j) => {
                        proof {
                            let inner = self.listeners@[i as int].1@;
                            assert(lset_alist(inner)[j as int].0 == lid@);
                            lemma_amap_index(lset_alist(inner), j as int);
                        }
                        let ghost ol = self.listeners@;
                        let cap = self.cap;
                        let mut entry = self.listeners.remove(i);
                        let ghost oinner = entry.1@;
                        let mut inner_entry = entry.1.remove(j);
                        let ghost oq = inner_entry.1@;
                        let popped = inner_entry.1.pop_front();
                        entry.1.insert(j, inner_entry);
                        proof {
                            assert(entry.1@ =~= oinner.update(
                                j as int,
                                (oinner[j as int].0, inner_entry.1),
                            ));
                            assert(lset_alist(entry.1@) =~= lset_alist(oinner).update(
                                j as int,
                                (lid@, inner_entry.1@),
                            ));
                            lemma_amap_update(lset_alist(oinner), j as int, inner_entry.1@);
                            lemma_distinct_update(lset_alist(oinner), j as int, inner_entry.1@);
                            assert forall|m: int|
                                0 <= m < entry.1@.len() implies (#[trigger] entry.1@[m].1).wf()
                                && entry.1@[m].1.spec_cap() == cap by {
                                if m != j {
                                    assert(entry.1@[m] == oinner[m]);
                                }
                            }
                            assert(lset_wf(entry.1@, cap));
                        }
                        let ghost new_inner = lset_view(entry.1@);
                        self.listeners.insert(i, entry);
                        proof {
                            assert(self.listeners@ =~= ol.update(i as int, entry));
                            assert(rooms_alist(self.listeners@) =~= rooms_alist(ol).update(
                                i as int,
                                (room@, new_inner),
                            ));
                            lemma_amap_update(rooms_alist(ol), i as int, new_inner);
                            lemma_distinct_update(rooms_alist(ol), i as int, new_inner);
                            assert(self@.listeners == old(self)@.listeners.insert(
                                room@,
                                new_inner,
                            ));
                            assert forall|m: int|
                                0 <= m < self.listeners@.len() implies lset_wf(
                                (#[trigger] self.listeners@[m]).1@,
                                self.cap,
                            ) by {
                                if m != i {
                                    assert(self.listeners@[m] == ol[m]);
                                }
                            }
                            assert forall|k: Seq<u8>|
                                self@.hosts.contains_key(k) <==> self@.listeners.contains_key(
                                k,
                            ) by {
                                assert(old(self)@.hosts.contains_key(k)
                                    <==> old(self)@.listeners.contains_key(k));
                                assert(old(self)@.listeners.contains_key(room@));
                            }
                            assert(self.wf());
                            if popped is None {
                                assert(new_inner =~= old(self)@.listeners[room@]);
                                assert(self@.listeners.insert(room@, old(self)@.listeners[room@])
                                    =~= old(self)@.listeners);
                                assert(self@.listeners == old(self)@.listeners);
                            }
                        }
                        popped
                    },
                }
            },
        }
    }
}

// ---------------------------------------------------------------------------
// Host status, as room listings report it
// ---------------------------------------------------------------------------

/// The reported liveness of a room's host, as stored listings carry it.
#[derive(Clone, Copy, Debug, PartialEq, Eq, Structural)]
pub enum HostStatus {
    Unknown,
    Stopped,
    Playing,
}

impl HostStatus {
    /// The numeric code a stored listing uses for this status.
    pub open spec fn spec_code(self) -> i16 {
        match self {
            HostStatus::Unknown => 0,
            HostStatus::Stopped => 1,
            HostStatus::Playing => 2,
        }
    }

    pub fn code(&self) -> (c: i16)
        ensures
            c == self.spec_code(),
    {
        match self {
            HostStatus::Unknown => 0,
            HostStatus::Stopped => 1,
            HostStatus::Playing => 2,
        }
    }

    /// Reads a stored code back; an unknown code reads as `Unknown`.
    pub fn from_code(c: i16) -> (s: HostStatus)
        ensures
            s == (if c == 1 {
                HostStatus::Stopped
            } else if c == 2 {
                HostStatus::Playing
            } else {
                HostStatus::Unknown
            }),
    {
        if c == 1 {
            HostStatus::Stopped
        } else if c == 2 {
            HostStatus::Playing
        } else {
            HostStatus::Unknown
        }
    }

    /// The label a listing shows for this status.
    pub fn label(&self) -> (text: &'static str)
        ensures
            text@ == (match self {
                HostStatus::Unknown => "unknown"@,
                HostStatus::Stopped => "stopped"@,
                HostStatus::Playing => "playing"@,
            }),
    {
        match self {
            HostStatus::Unknown => "unknown",
            HostStatus::Stopped => "stopped",
            HostStatus::Playing => "playing",
        }
    }
}

impl Relay {
    /// The status a room listing reports: playing exactly while a host
    /// connection entry exists.
    pub fn host_status(&self, room: &Vec<u8>) -> (s: HostStatus)
        ensures
            s == (if self@.hosts.contains_key(room@) {
                HostStatus::Playing
            } else {
                HostStatus::Stopped
            }),
    {
        if self.is_hosted(room) {
            HostStatus::Playing
        } else {
            HostStatus::Stopped
        }
    }
}

/// The index of a listener's entry in one room's listener set, if present.
fn find_lset_idx(v: &Vec<(Vec<u8>, Queue)>, lid: &Vec<u8>) -> (r: Option<usize>)
    ensures
        match r {
            None => forall|i: int| 0 <= i < v@.len() ==> (#[trigger] v@[i]).0@ != lid@,
            Some(i) => i < v@.len() && v@[i as int].0@ == lid@,
        },
{
    let mut i: usize = 0;
    while i < v.len()
        invariant
            i <= v@.len(),
            forall|j: int| 0 <= j < i ==> (#[trigger] v@[j]).0@ != lid@,
        decreases v@.len() - i,
    {
        if bytes_eq(&v[i].0, lid) {
            return Some(i);
        }
        i = i + 1;
    }
    None
}

} // verus!
