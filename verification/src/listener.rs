use crate::addr::same_address;
use crate::set::Handle;
use no_std_net::SocketAddr;
use std::collections::VecDeque;
use vstd::prelude::*;

verus! {

/// A connection that has arrived and waits to be accepted: the handle of its
/// socket and the address of the remote side.
pub type Pending = (Handle, SocketAddr);

/// What a queue with room for `room` connections holds after `item` arrived
/// while it held `queue`: the connection joins the end, unless the queue is
/// full.
pub open spec fn joined(queue: Seq<Pending>, room: nat, item: Pending) -> Seq<Pending> {
    if queue.len() < room {
        queue.push(item)
    } else {
        queue
    }
}

/// A queue of at most `L` pending connections, oldest first.
///
/// The view is the queued connections in the order in which they leave.
pub struct ConnectionQueue<const L: usize> {
    items: VecDeque<Pending>,
}

impl<const L: usize> View for ConnectionQueue<L> {
    type V = Seq<Pending>;

    closed spec fn view(&self) -> Seq<Pending> {
        self.items@
    }
}

impl<const L: usize> ConnectionQueue<L> {
    #[verifier::type_invariant]
    closed spec fn inv(&self) -> bool {
        self.items@.len() <= L
    }

    /// Creates an empty queue.
    pub fn new() -> (r: Self)
        ensures
            r@ == Seq::<Pending>::empty(),
    {
        ConnectionQueue { items: VecDeque::new() }
    }

    /// The number of connections the queue can hold.
    pub fn capacity(&self) -> (r: usize)
        ensures
            r == L,
    {
        L
    }

    /// The number of queued connections.
    pub fn len(&self) -> (r: usize)
        ensures
            r == self@.len(),
            r <= L,
    {
        proof {
            use_type_invariant(self);
        }
        self.items.len()
    }

    /// Whether nothing is queued.
    pub fn is_empty(&self) -> (r: bool)
        ensures
            r == (self@.len() == 0),
    {
        self.items.len() == 0
    }

    /// Whether the queue can take no more.
    pub fn is_full(&self) -> (r: bool)
        ensures
            r == (self@.len() == L),
    {
        proof {
            use_type_invariant(self);
        }
        self.items.len() == L
    }

    /// Adds a connection at the end of the queue, or hands it back if the
    /// queue is full.
    pub fn enqueue(&mut self, item: Pending) -> (r: Result<(), Pending>)
        ensures
            r is Ok <==> old(self)@.len() < L,
            final(self)@ == joined(old(self)@, L as nat, item),
            r matches Err(back) ==> back == item,
    {
        proof {
            use_type_invariant(&*self);
        }
        if self.items.len() >= L {
            return Err(item);
        }
        // The queue is taken out of `self` while it grows.
        let mut items = VecDeque::new();
        core::mem::swap(&mut self.items, &mut items);
        items.push_back(item);
        self.items = items;
        Ok(())
    }

    /// Takes the oldest connection out of the queue, if there is one.
    pub fn dequeue(&mut self) -> (r: Option<Pending>)
        ensures
            r is Some <==> old(self)@.len() > 0,
            r matches Some(item) ==> item == old(self)@[0] && final(self)@ == old(self)@.skip(1),
            r is None ==> final(self)@ == old(self)@,
    {
        proof {
            use_type_invariant(&*self);
        }
        // The queue is taken out of `self` while it shrinks.
        let mut items = VecDeque::new();
        core::mem::swap(&mut self.items, &mut items);
        let r = items.pop_front();
        self.items = items;
        assert(r is Some ==> self.items@ =~= old(self)@.skip(1));
        r
    }

    /// The oldest connection in the queue, if there is one.
    pub fn peek(&self) -> (r: Option<&Pending>)
        ensures
            r is Some <==> self@.len() > 0,
            r matches Some(item) ==> *item == self@[0],
    {
        if self.items.len() == 0 {
            None
        } else {
            Some(&self.items[0])
        }
    }
}

/// The abstract state of a listener: the port each bound handle is bound to,
/// and the pending connections of each port that has a queue.
pub struct ListenerView {
    /// The port of each bound handle.
    pub ports: Map<Handle, u16>,
    /// The pending connections of each port with a queue, oldest first.
    pub pending: Map<u16, Seq<Pending>>,
}

impl ListenerView {
    /// Whether `handle` can be bound in a listener for `capacity` handles:
    /// it is not bound yet, and fewer than `capacity` handles are.
    pub open spec fn can_bind(self, capacity: nat, handle: Handle) -> bool {
        !self.ports.contains_key(handle) && self.ports.len() < capacity
    }

    /// The state after `handle` was bound to `port`: the port starts with an
    /// empty queue, whatever it held.
    pub open spec fn bind(self, handle: Handle, port: u16) -> ListenerView {
        ListenerView {
            ports: self.ports.insert(handle, port),
            pending: self.pending.insert(port, Seq::empty()),
        }
    }

    /// The state after the bound handle `handle` was unbound: its port
    /// loses its queue.
    pub open spec fn unbind(self, handle: Handle) -> ListenerView {
        ListenerView {
            ports: self.ports.remove(handle),
            pending: self.pending.remove(self.ports[handle]),
        }
    }

    /// The pending connections of the port that `handle` is bound to, if it
    /// is bound and the port has a queue.
    pub open spec fn queue_of(self, handle: Handle) -> Option<Seq<Pending>> {
        if self.ports.contains_key(handle) && self.pending.contains_key(self.ports[handle]) {
            Some(self.pending[self.ports[handle]])
        } else {
            None
        }
    }

    /// The oldest pending connection for `handle`, if there is one.
    pub open spec fn head(self, handle: Handle) -> Option<Pending> {
        match self.queue_of(handle) {
            Some(queue) => if queue.len() > 0 {
                Some(queue[0])
            } else {
                None
            },
            None => None,
        }
    }

    /// The state after the oldest pending connection for `handle`, if there
    /// is one, was taken out.
    pub open spec fn drop_head(self, handle: Handle) -> ListenerView {
        if self.head(handle) is Some {
            ListenerView {
                pending: self.pending.insert(
                    self.ports[handle],
                    self.pending[self.ports[handle]].skip(1),
                ),
                ..self
            }
        } else {
            self
        }
    }

    /// The state after `item` arrived on `port`, in a listener whose queues
    /// hold `room` connections: it is put into the queue of the port, if the
    /// port has one.
    pub open spec fn arrive(self, room: nat, port: u16, item: Pending) -> ListenerView {
        if self.pending.contains_key(port) {
            ListenerView {
                pending: self.pending.insert(port, joined(self.pending[port], room, item)),
                ..self
            }
        } else {
            self
        }
    }

    /// Whether every port with a queue is the port of a bound handle.
    pub open spec fn queues_are_bound(self) -> bool {
        forall|port: u16| #[trigger]
            self.pending.contains_key(port) ==> exists|handle: Handle|
                self.ports.contains_key(handle) && #[trigger] self.ports[handle] == port
    }

    /// Whether a listener for `capacity` handles can be in this state: at
    /// most `capacity` handles are bound, and every port with a queue is the
    /// port of a bound handle.
    pub open spec fn well_formed(self, capacity: nat) -> bool {
        &&& self.ports.dom().finite()
        &&& self.ports.len() <= capacity
        &&& self.queues_are_bound()
    }

    /// Whether the port of every bound handle has a queue.
    pub open spec fn bound_have_queues(self) -> bool {
        forall|handle: Handle| #[trigger]
            self.ports.contains_key(handle) ==> self.pending.contains_key(self.ports[handle])
    }
}

/// A connection that arrives on the port that a handle has just been bound
/// to is the one that is accepted for the handle. Where the queues have room
/// for at least one connection, and binding `handle` to `port` succeeds or
/// finds the handle bound to that port with nothing waiting: once `item` has
/// arrived on `port`, a connection waits for `handle`, the oldest one is
/// `item`, and once it is taken out none waits.
pub proof fn lemma_bind_arrive_accept(
    view: ListenerView,
    capacity: nat,
    room: nat,
    handle: Handle,
    port: u16,
    item: Pending,
)
    requires
        room > 0,
        view.can_bind(capacity, handle) || (view.ports.contains_key(handle) && view.ports[handle]
            == port && view.queue_of(handle) == Some(Seq::<Pending>::empty())),
    ensures
        ({
            let bound = if view.can_bind(capacity, handle) {
                view.bind(handle, port)
            } else {
                view
            };
            let arrived = bound.arrive(room, port, item);
            &&& arrived.queue_of(handle) == Some(seq![item])
            &&& arrived.head(handle) == Some(item)
            &&& arrived.drop_head(handle).queue_of(handle) == Some(Seq::<Pending>::empty())
            &&& arrived.drop_head(handle).head(handle) is None
        }),
{
    let bound = if view.can_bind(capacity, handle) {
        view.bind(handle, port)
    } else {
        view
    };
    let arrived = bound.arrive(room, port, item);
    assert(bound.pending[port] =~= Seq::<Pending>::empty());
    assert(arrived.pending[port] =~= seq![item]);
    assert(arrived.drop_head(handle).pending[port] =~= Seq::<Pending>::empty());
}

/// A listener has no more queues than bound handles, and so no more than it
/// can bind handles.
pub proof fn lemma_queues_bounded(view: ListenerView, capacity: nat)
    requires
        view.well_formed(capacity),
    ensures
        view.pending.dom().finite(),
        view.pending.len() <= view.ports.len() <= capacity,
{
    view.ports.lemma_values_len();
    assert(view.pending.dom().subset_of(view.ports.values())) by {
        assert forall|port: u16| view.pending.dom().contains(port) implies view.ports.values().contains(
            port,
        ) by {
            assert(view.pending.contains_key(port));
            let handle = choose|handle: Handle|
                view.ports.contains_key(handle) && #[trigger] view.ports[handle] == port;
            assert(view.ports.contains_key(handle) && view.ports[handle] == port);
        }
    }
    vstd::set_lib::lemma_len_subset(view.pending.dom(), view.ports.values());
}

/// Whether no key occurs twice in `entries`.
spec fn keys_unique<K, V>(entries: Seq<(K, V)>) -> bool {
    forall|i: int, j: int|
        0 <= i < j < entries.len() ==> (#[trigger] entries[i]).0 != (#[trigger] entries[j]).0
}

/// Whether `key` occurs in `entries`.
spec fn has_key<K, V>(entries: Seq<(K, V)>, key: K) -> bool {
    exists|i: int| 0 <= i < entries.len() && (#[trigger] entries[i]).0 == key
}

/// The place of `key` in `entries`.
spec fn place_of<K, V>(entries: Seq<(K, V)>, key: K) -> int {
    choose|i: int| 0 <= i < entries.len() && (#[trigger] entries[i]).0 == key
}

/// The value that `entries` holds for `key`.
spec fn value_of<K, V>(entries: Seq<(K, V)>, key: K) -> V {
    entries[place_of(entries, key)].1
}

/// The keys of `entries`.
spec fn key_set<K, V>(entries: Seq<(K, V)>) -> Set<K> {
    Set::new(|key: K| has_key(entries, key))
}

/// With no key twice, the entry at place `i` is where its key is found.
proof fn lemma_value_at<K, V>(entries: Seq<(K, V)>, i: int)
    requires
        keys_unique(entries),
        0 <= i < entries.len(),
    ensures
        has_key(entries, entries[i].0),
        place_of(entries, entries[i].0) == i,
        value_of(entries, entries[i].0) == entries[i].1,
{
    let key = entries[i].0;
    let c = place_of(entries, key);
    assert(0 <= c < entries.len() && entries[c].0 == key);
}

/// With no key twice, there are as many keys as entries.
proof fn lemma_key_set_len<K, V>(entries: Seq<(K, V)>)
    requires
        keys_unique(entries),
    ensures
        key_set(entries).finite(),
        key_set(entries).len() == entries.len(),
    decreases entries.len(),
{
    if entries.len() == 0 {
        assert(key_set(entries) =~= Set::<K>::empty());
    } else {
        let rest = entries.drop_last();
        let last = entries.last();
        assert(keys_unique(rest)) by {
            assert forall|i: int, j: int| 0 <= i < j < rest.len() implies (#[trigger] rest[i]).0
                != (#[trigger] rest[j]).0 by {
                assert(rest[i] == entries[i] && rest[j] == entries[j]);
            }
        }
        lemma_key_set_len(rest);
        assert(!has_key(rest, last.0)) by {
            if has_key(rest, last.0) {
                let i = place_of(rest, last.0);
                assert(rest[i] == entries[i]);
                assert(entries[i].0 != entries[entries.len() - 1].0);
            }
        }
        assert(key_set(entries) =~= key_set(rest).insert(last.0)) by {
            assert forall|key: K| key_set(entries).contains(key) == key_set(rest).insert(
                last.0,
            ).contains(key) by {
                if has_key(entries, key) {
                    let i = place_of(entries, key);
                    if i < rest.len() {
                        assert(rest[i] == entries[i]);
                    }
                }
                if has_key(rest, key) {
                    let i = place_of(rest, key);
                    assert(rest[i] == entries[i]);
                }
                if key == last.0 {
                    assert(entries[entries.len() - 1].0 == key);
                }
            }
        }
    }
}

/// An entry with a new key, put at the end, adds its key and value and
/// leaves the other keys with their values.
proof fn lemma_push<K, V>(entries: Seq<(K, V)>, key: K, value: V)
    requires
        keys_unique(entries),
        !has_key(entries, key),
    ensures
        keys_unique(entries.push((key, value))),
        forall|other: K| #[trigger]
            has_key(entries.push((key, value)), other) == (other == key || has_key(entries, other)),
        forall|other: K|
            has_key(entries.push((key, value)), other) ==> #[trigger] value_of(
                entries.push((key, value)),
                other,
            ) == if other == key {
                value
            } else {
                value_of(entries, other)
            },
{
    let after = entries.push((key, value));
    assert(keys_unique(after)) by {
        assert forall|i: int, j: int| 0 <= i < j < after.len() implies (#[trigger] after[i]).0 != (
        #[trigger] after[j]).0 by {
            assert(after[i] == entries[i]);
            if j < entries.len() {
                assert(after[j] == entries[j]);
            }
        }
    }
    assert forall|other: K| #[trigger]
        has_key(after, other) == (other == key || has_key(entries, other)) by {
        if has_key(after, other) {
            let i = place_of(after, other);
            if i < entries.len() {
                assert(entries[i] == after[i]);
            }
        }
        if has_key(entries, other) {
            let i = place_of(entries, other);
            assert(entries[i] == after[i]);
        }
        if other == key {
            assert(after[entries.len() as int].0 == key);
        }
    }
    assert forall|other: K| has_key(after, other) implies #[trigger] value_of(after, other) == if other
        == key {
        value
    } else {
        value_of(entries, other)
    } by {
        if other == key {
            lemma_value_at(after, entries.len() as int);
        } else {
            let i = place_of(entries, other);
            assert(entries[i] == after[i]);
            lemma_value_at(after, i);
        }
    }
}

/// A new value at place `i` changes the value of the key at that place and
/// leaves the other keys with their values.
proof fn lemma_update<K, V>(entries: Seq<(K, V)>, i: int, value: V)
    requires
        keys_unique(entries),
        0 <= i < entries.len(),
    ensures
        keys_unique(entries.update(i, (entries[i].0, value))),
        forall|other: K| #[trigger]
            has_key(entries.update(i, (entries[i].0, value)), other) == has_key(entries, other),
        forall|other: K|
            has_key(entries, other) ==> #[trigger] value_of(
                entries.update(i, (entries[i].0, value)),
                other,
            ) == if other == entries[i].0 {
                value
            } else {
                value_of(entries, other)
            },
{
    let after = entries.update(i, (entries[i].0, value));
    assert(keys_unique(after)) by {
        assert forall|a: int, b: int| 0 <= a < b < after.len() implies (#[trigger] after[a]).0 != (
        #[trigger] after[b]).0 by {
            assert(after[a].0 == entries[a].0);
            assert(after[b].0 == entries[b].0);
        }
    }
    assert forall|other: K| #[trigger] has_key(after, other) == has_key(entries, other) by {
        if has_key(after, other) {
            let k = place_of(after, other);
            assert(entries[k].0 == after[k].0);
        }
        if has_key(entries, other) {
            let k = place_of(entries, other);
            assert(entries[k].0 == after[k].0);
        }
    }
    assert forall|other: K| has_key(entries, other) implies #[trigger] value_of(after, other) == if other
        == entries[i].0 {
        value
    } else {
        value_of(entries, other)
    } by {
        let k = place_of(entries, other);
        assert(entries[k].0 == after[k].0);
        lemma_value_at(after, k);
        lemma_value_at(entries, k);
    }
}

/// Taking out the entry at place `i` removes its key and leaves the other
/// keys with their values.
proof fn lemma_remove<K, V>(entries: Seq<(K, V)>, i: int)
    requires
        keys_unique(entries),
        0 <= i < entries.len(),
    ensures
        keys_unique(entries.remove(i)),
        forall|other: K| #[trigger]
            has_key(entries.remove(i), other) == (other != entries[i].0 && has_key(entries, other)),
        forall|other: K|
            has_key(entries.remove(i), other) ==> #[trigger] value_of(entries.remove(i), other)
                == value_of(entries, other),
{
    let after = entries.remove(i);
    assert forall|k: int| 0 <= k < after.len() implies #[trigger] after[k] == entries[if k < i {
        k
    } else {
        k + 1
    }] by {}
    assert(keys_unique(after)) by {
        assert forall|a: int, b: int| 0 <= a < b < after.len() implies (#[trigger] after[a]).0 != (
        #[trigger] after[b]).0 by {
            let a0 = if a < i { a } else { a + 1 };
            let b0 = if b < i { b } else { b + 1 };
            assert(after[a] == entries[a0] && after[b] == entries[b0]);
        }
    }
    assert forall|other: K| #[trigger]
        has_key(after, other) == (other != entries[i].0 && has_key(entries, other)) by {
        if has_key(after, other) {
            let k = place_of(after, other);
            let k0 = if k < i { k } else { k + 1 };
            assert(after[k] == entries[k0]);
            if k0 < i {
                assert(entries[k0].0 != entries[i].0);
            } else {
                assert(entries[i].0 != entries[k0].0);
            }
        }
        if other != entries[i].0 && has_key(entries, other) {
            let k = place_of(entries, other);
            let k1 = if k < i { k } else { k - 1 };
            assert(after[k1] == entries[k]);
        }
    }
    assert forall|other: K| has_key(after, other) implies #[trigger] value_of(after, other)
        == value_of(entries, other) by {
        let k = place_of(after, other);
        let k0 = if k < i { k } else { k + 1 };
        assert(after[k] == entries[k0]);
        lemma_value_at(after, k);
        lemma_value_at(entries, k0);
    }
}

/// The entries made of the keys `keys` and, place by place, the values
/// `values`.
spec fn paired<K, V>(keys: Seq<K>, values: Seq<V>) -> Seq<(K, V)> {
    Seq::new(keys.len(), |i: int| (keys[i], values[i]))
}

/// Whether no key occurs twice in `keys`.
spec fn distinct<K>(keys: Seq<K>) -> bool {
    forall|i: int, j: int| 0 <= i < j < keys.len() ==> #[trigger] keys[i] != #[trigger] keys[j]
}

/// Distinct keys make entries in which no key occurs twice.
proof fn lemma_paired_unique<K, V>(keys: Seq<K>, values: Seq<V>)
    requires
        distinct(keys),
    ensures
        keys_unique(paired(keys, values)),
{
    let entries = paired(keys, values);
    assert forall|i: int, j: int| 0 <= i < j < entries.len() implies (#[trigger] entries[i]).0 != (
    #[trigger] entries[j]).0 by {
        assert(keys[i] != keys[j]);
    }
}

/// Entries in which no key occurs twice are made of distinct keys.
proof fn lemma_unique_distinct<K, V>(keys: Seq<K>, values: Seq<V>)
    requires
        keys_unique(paired(keys, values)),
    ensures
        distinct(keys),
{
    let entries = paired(keys, values);
    assert forall|i: int, j: int| 0 <= i < j < keys.len() implies #[trigger] keys[i]
        != #[trigger] keys[j] by {
        assert(entries[i].0 != entries[j].0);
    }
}

/// Whether some handle is bound to `port` in `bindings`.
spec fn port_is_bound(bindings: Seq<(Handle, u16)>, port: u16) -> bool {
    exists|i: int| 0 <= i < bindings.len() && (#[trigger] bindings[i]).1 == port
}

/// The bindings of a listener: which handle is bound to which port, and the
/// queue of pending connections of each port, for at most `N` handles and
/// `L` pending connections a port.
pub struct PortTable<const N: usize, const L: usize> {
    bindings: Vec<(Handle, u16)>,
    queue_ports: Vec<u16>,
    queues: Vec<ConnectionQueue<L>>,
}

impl<const N: usize, const L: usize> View for PortTable<N, L> {
    type V = ListenerView;

    closed spec fn view(&self) -> ListenerView {
        ListenerView {
            ports: Map::new(
                |handle: Handle| has_key(self.bindings@, handle),
                |handle: Handle| value_of(self.bindings@, handle),
            ),
            pending: Map::new(
                |port: u16| has_key(self.queue_entries(), port),
                |port: u16| value_of(self.queue_entries(), port)@,
            ),
        }
    }
}

impl<const N: usize, const L: usize> PortTable<N, L> {
    #[verifier::type_invariant]
    closed spec fn inv(&self) -> bool {
        &&& keys_unique(self.bindings@)
        &&& self.bindings@.len() <= N
        &&& distinct(self.queue_ports@)
        &&& self.queue_ports@.len() <= self.queues@.len()
        &&& forall|k: int|
            0 <= k < self.queue_ports@.len() ==> port_is_bound(
                self.bindings@,
                #[trigger] self.queue_ports@[k],
            )
    }

    /// The view of a table is a state that a listener for `N` handles can
    /// be in.
    proof fn lemma_view_well_formed(&self)
        requires
            self.inv(),
        ensures
            self@.well_formed(N as nat),
    {
        lemma_key_set_len(self.bindings@);
        assert(self@.ports.dom() =~= key_set(self.bindings@));
        lemma_paired_unique(self.queue_ports@, self.queues@);
        assert forall|port: u16| #[trigger] self@.pending.contains_key(port) implies exists|
            handle: Handle,
        |
            self@.ports.contains_key(handle) && #[trigger] self@.ports[handle] == port by {
            let k = place_of(self.queue_entries(), port);
            assert(self.queue_entries()[k].0 == port);
            assert(port_is_bound(self.bindings@, self.queue_ports@[k]));
            let i = choose|i: int|
                0 <= i < self.bindings@.len() && (#[trigger] self.bindings@[i]).1 == port;
            lemma_value_at(self.bindings@, i);
            let handle = self.bindings@[i].0;
            assert(self@.ports.contains_key(handle) && self@.ports[handle] == port);
        }
    }

    /// The ports that have a queue, each with its queue.
    closed spec fn queue_entries(&self) -> Seq<(u16, ConnectionQueue<L>)> {
        paired(self.queue_ports@, self.queues@)
    }

    /// Creates a table without bindings.
    pub fn new() -> (r: Self)
        ensures
            r@.ports == Map::<Handle, u16>::empty(),
            r@.pending == Map::<u16, Seq<Pending>>::empty(),
            r@.well_formed(N as nat),
    {
        let r = PortTable { bindings: Vec::new(), queue_ports: Vec::new(), queues: Vec::new() };
        proof {
            r.lemma_view_well_formed();
        }
        assert(r@.ports =~= Map::<Handle, u16>::empty());
        assert(r@.pending =~= Map::<u16, Seq<Pending>>::empty());
        r
    }

    /// The place of the binding of `handle`, if it is bound.
    #[verifier::loop_isolation(false)]
    fn find_binding(&self, handle: Handle) -> (r: Option<usize>)
        ensures
            self.inv(),
            self@.well_formed(N as nat),
            keys_unique(self.queue_entries()),
            self@.ports.dom() == key_set(self.bindings@),
            r is Some <==> self@.ports.contains_key(handle),
            r matches Some(i) ==> i < self.bindings@.len() && self.bindings@[i as int].0 == handle
                && self.bindings@[i as int].1 == self@.ports[handle],
    {
        proof {
            use_type_invariant(self);
            self.lemma_view_well_formed();
            assert(self@.ports.dom() =~= key_set(self.bindings@));
            lemma_paired_unique(self.queue_ports@, self.queues@);
        }
        let mut i: usize = 0;
        while i < self.bindings.len()
            invariant
                i <= self.bindings@.len(),
                forall|j: int| 0 <= j < i ==> (#[trigger] self.bindings@[j]).0 != handle,
            decreases self.bindings@.len() - i,
        {
            if self.bindings[i].0.0 == handle.0 {
                proof {
                    lemma_value_at(self.bindings@, i as int);
                }
                return Some(i);
            }
            i = i + 1;
        }
        None
    }

    /// The place of the queue of `port`, if it has one.
    #[verifier::loop_isolation(false)]
    fn find_queue(&self, port: u16) -> (r: Option<usize>)
        ensures
            self.inv(),
            self@.well_formed(N as nat),
            keys_unique(self.queue_entries()),
            r is Some <==> self@.pending.contains_key(port),
            r matches Some(k) ==> k < self.queue_ports@.len() && self.queue_ports@[k as int] == port
                && self.queues@[k as int]@ == self@.pending[port],
    {
        proof {
            use_type_invariant(self);
            self.lemma_view_well_formed();
            lemma_paired_unique(self.queue_ports@, self.queues@);
        }
        let mut k: usize = 0;
        while k < self.queue_ports.len()
            invariant
                k <= self.queue_ports@.len(),
                forall|j: int| 0 <= j < k ==> (#[trigger] self.queue_entries()[j]).0 != port,
            decreases self.queue_ports@.len() - k,
        {
            if self.queue_ports[k] == port {
                proof {
                    assert(self.queue_entries()[k as int].0 == port);
                    lemma_value_at(self.queue_entries(), k as int);
                }
                return Some(k);
            }
            k = k + 1;
        }
        None
    }

    /// Binds `handle` to `port` and gives the port an empty queue, dropping
    /// what waited on it. Fails, changing nothing, if the handle is bound
    /// already or `N` handles are bound.
    pub fn bind(&mut self, handle: Handle, port: u16) -> (r: Result<(), ()>)
        ensures
            r is Ok <==> old(self)@.can_bind(N as nat, handle),
            r is Ok ==> final(self)@ == old(self)@.bind(handle, port),
            r is Err ==> final(self)@ == old(self)@,
            final(self)@.well_formed(N as nat),
    {
        if self.find_binding(handle).is_some() {
            return Err(());
        }
        proof {
            lemma_key_set_len(self.bindings@);
        }
        if self.bindings.len() >= N {
            return Err(());
        }
        let found = self.find_queue(port);
        let fresh: ConnectionQueue<L> = ConnectionQueue::new();
        let ghost entries = self.queue_entries();
        let ghost bound = self.bindings@;
        // The tables are taken out of `self` while they grow.
        let mut queue_ports = Vec::new();
        let mut bindings = Vec::new();
        core::mem::swap(&mut self.queue_ports, &mut queue_ports);
        core::mem::swap(&mut self.bindings, &mut bindings);
        bindings.push((handle, port));
        self.bindings = bindings;
        match found {
            Some(k) => {
                self.queues[k] = fresh;
                proof {
                    lemma_update(entries, k as int, fresh);
                    assert(paired(queue_ports@, self.queues@) =~= entries.update(
                        k as int,
                        (port, fresh),
                    ));
                }
            },
            None => {
                let mut queues = Vec::new();
                core::mem::swap(&mut self.queues, &mut queues);
                queues.truncate(queue_ports.len());
                queue_ports.push(port);
                queues.push(fresh);
                proof {
                    lemma_push(entries, port, fresh);
                    assert(paired(queue_ports@, queues@) =~= entries.push((port, fresh)));
                    lemma_unique_distinct(queue_ports@, queues@);
                }
                self.queues = queues;
            },
        }
        proof {
            lemma_push(bound, handle, port);
            assert forall|k: int| 0 <= k < queue_ports@.len() implies port_is_bound(
                self.bindings@,
                #[trigger] queue_ports@[k],
            ) by {
                if queue_ports@[k] == port {
                    assert(self.bindings@[bound.len() as int].1 == port);
                } else {
                    assert(port_is_bound(bound, old(self).queue_ports@[k]));
                    let i = choose|i: int|
                        0 <= i < bound.len() && (#[trigger] bound[i]).1 == queue_ports@[k];
                    assert(self.bindings@[i] == bound[i]);
                }
            }
        }
        self.queue_ports = queue_ports;
        proof {
            assert(self@.ports =~= old(self)@.ports.insert(handle, port));
            assert(self@.pending =~= old(self)@.pending.insert(port, Seq::empty()));
            self.lemma_view_well_formed();
        }
        Ok(())
    }

    /// Unbinds `handle` and drops the queue of its port with what waits on
    /// it. Fails, changing nothing, if the handle is not bound.
    pub fn unbind(&mut self, handle: Handle) -> (r: Result<(), ()>)
        ensures
            r is Ok <==> old(self)@.ports.contains_key(handle),
            r is Ok ==> final(self)@ == old(self)@.unbind(handle),
            r is Err ==> final(self)@ == old(self)@,
            final(self)@.well_formed(N as nat),
    {
        let i = match self.find_binding(handle) {
            Some(i) => i,
            None => {
                return Err(());
            },
        };
        let port = self.bindings[i].1;
        let found = self.find_queue(port);
        let ghost entries = self.queue_entries();
        let ghost bound = self.bindings@;
        // The tables are taken out of `self` while they shrink.
        let mut queue_ports = Vec::new();
        let mut bindings = Vec::new();
        core::mem::swap(&mut self.queue_ports, &mut queue_ports);
        core::mem::swap(&mut self.bindings, &mut bindings);
        bindings.remove(i);
        self.bindings = bindings;
        if let Some(k) = found {
            let mut queues = Vec::new();
            core::mem::swap(&mut self.queues, &mut queues);
            queues.truncate(queue_ports.len());
            queue_ports.remove(k);
            queues.remove(k);
            proof {
                lemma_remove(entries, k as int);
                assert(paired(queue_ports@, queues@) =~= entries.remove(k as int));
                lemma_unique_distinct(queue_ports@, queues@);
            }
            self.queues = queues;
        }
        proof {
            lemma_remove(bound, i as int);
            assert forall|k: int| 0 <= k < queue_ports@.len() implies port_is_bound(
                self.bindings@,
                #[trigger] queue_ports@[k],
            ) by {
                let before = if found is Some && k >= found->0 {
                    k + 1
                } else {
                    k
                };
                assert(queue_ports@[k] == old(self).queue_ports@[before]);
                assert(entries[before].0 == queue_ports@[k]);
                assert(queue_ports@[k] != port) by {
                    if found is Some {
                        let at = found->0 as int;
                        assert(entries[at].0 == port);
                        if before < at {
                            assert(entries[before].0 != entries[at].0);
                        } else {
                            assert(entries[at].0 != entries[before].0);
                        }
                    } else {
                        assert(has_key(entries, entries[before].0));
                    }
                }
                assert(port_is_bound(bound, old(self).queue_ports@[before]));
                let j = choose|j: int|
                    0 <= j < bound.len() && (#[trigger] bound[j]).1 == queue_ports@[k];
                let after = if j < i {
                    j
                } else {
                    j - 1
                };
                assert(self.bindings@[after] == bound[j]);
            }
        }
        self.queue_ports = queue_ports;
        proof {
            assert(self@.ports =~= old(self)@.ports.remove(handle));
            assert(self@.pending =~= old(self)@.pending.remove(port));
            self.lemma_view_well_formed();
        }
        Ok(())
    }

    /// The queue of `port`, if it has one, for the driver to put arriving
    /// connections into. What is done through the reference is done to the
    /// queue of the port.
    pub fn incoming(&mut self, port: u16) -> (r: Option<&mut ConnectionQueue<L>>)
        ensures
            r is Some <==> old(self)@.pending.contains_key(port),
            r is None ==> final(self)@ == old(self)@,
            r matches Some(queue) ==> queue@ == old(self)@.pending[port] && final(self)@ == (
            ListenerView {
                pending: old(self)@.pending.insert(port, final(queue)@),
                ..old(self)@
            }),
            final(self)@.well_formed(N as nat),
    {
        match self.find_queue(port) {
            Some(k) => {
                proof {
                    self.lemma_replace_queue(k as int);
                }
                Some(&mut self.queues[k])
            },
            None => None,
        }
    }

    /// A table that differs from this one only in the queue at place `k`
    /// differs in its view only in what waits on the port of that queue.
    proof fn lemma_replace_queue(&self, k: int)
        requires
            self.inv(),
            0 <= k < self.queue_ports@.len(),
        ensures
            forall|other: Self, queue: ConnectionQueue<L>|
                #![trigger other@, queue@]
                other.bindings@ == self.bindings@ && other.queue_ports@ == self.queue_ports@
                    && other.queues@ == self.queues@.update(k, queue) ==> other@ == (ListenerView {
                    pending: self@.pending.insert(self.queue_ports@[k], queue@),
                    ..self@
                }),
    {
        let entries = self.queue_entries();
        let port = self.queue_ports@[k];
        lemma_paired_unique(self.queue_ports@, self.queues@);
        assert forall|other: Self, queue: ConnectionQueue<L>|
            #![trigger other@, queue@]
            other.bindings@ == self.bindings@ && other.queue_ports@ == self.queue_ports@
                && other.queues@ == self.queues@.update(k, queue) implies other@ == (ListenerView {
            pending: self@.pending.insert(port, queue@),
            ..self@
        }) by {
            lemma_update(entries, k, queue);
            assert(other.queue_entries() =~= entries.update(k, (port, queue)));
            assert(other@.ports =~= self@.ports);
            assert(other@.pending =~= self@.pending.insert(port, queue@));
        }
    }

    /// Whether `port` has a queue.
    pub fn is_port_bound(&self, port: u16) -> (r: bool)
        ensures
            r == self@.pending.contains_key(port),
            self@.well_formed(N as nat),
    {
        self.find_queue(port).is_some()
    }

    /// Whether `handle` is bound to a port.
    pub fn is_bound(&self, handle: Handle) -> (r: bool)
        ensures
            r == self@.ports.contains_key(handle),
            self@.well_formed(N as nat),
    {
        self.find_binding(handle).is_some()
    }

    /// The place of the queue of the port that `handle` is bound to, if it
    /// is bound and the port has a queue.
    fn find_queue_of(&self, handle: Handle) -> (r: Option<usize>)
        ensures
            self.inv(),
            self@.well_formed(N as nat),
            keys_unique(self.queue_entries()),
            r is Some <==> self@.queue_of(handle) is Some,
            r matches Some(k) ==> k < self.queue_ports@.len() && self.queue_ports@[k as int]
                == self@.ports[handle] && self@.queue_of(handle) == Some(self.queues@[k as int]@),
    {
        match self.find_binding(handle) {
            Some(i) => self.find_queue(self.bindings[i].1),
            None => None,
        }
    }

    /// Whether a connection waits for `handle`. Fails if the handle is not
    /// bound or its port has no queue.
    pub fn available(&self, handle: Handle) -> (r: Result<bool, ()>)
        ensures
            r == match self@.queue_of(handle) {
                Some(queue) => Ok::<bool, ()>(queue.len() > 0),
                None => Err::<bool, ()>(()),
            },
            self@.well_formed(N as nat),
    {
        match self.find_queue_of(handle) {
            Some(k) => Ok(!self.queues[k].is_empty()),
            None => Err(()),
        }
    }

    /// The oldest connection that waits for `handle`, which stays in its
    /// queue. Fails if there is none.
    pub fn peek_remote(&self, handle: Handle) -> (r: Result<&Pending, ()>)
        ensures
            r is Ok <==> self@.head(handle) is Some,
            r matches Ok(item) ==> Some(*item) == self@.head(handle),
            self@.well_formed(N as nat),
    {
        match self.find_queue_of(handle) {
            Some(k) => match self.queues[k].peek() {
                Some(item) => Ok(item),
                None => Err(()),
            },
            None => Err(()),
        }
    }

    /// Takes the oldest connection that waits for `handle` out of its
    /// queue. Fails, changing nothing, if there is none.
    pub fn get_remote(&mut self, handle: Handle) -> (r: Result<Pending, ()>)
        ensures
            r == match old(self)@.head(handle) {
                Some(item) => Ok::<Pending, ()>(item),
                None => Err::<Pending, ()>(()),
            },
            final(self)@ == old(self)@.drop_head(handle),
            final(self)@.well_formed(N as nat),
    {
        let k = match self.find_queue_of(handle) {
            Some(k) => k,
            None => {
                return Err(());
            },
        };
        proof {
            self.lemma_replace_queue(k as int);
        }
        let queue = &mut self.queues[k];
        let taken = queue.dequeue();
        match taken {
            Some(item) => {
                assert(self@.pending =~= old(self)@.drop_head(handle).pending);
                Ok(item)
            },
            None => {
                assert(self@.pending =~= old(self)@.pending);
                Err(())
            },
        }
    }

    /// The port that `handle` is bound to. Fails if it is not bound.
    pub fn get_port(&self, handle: Handle) -> (r: Result<u16, ()>)
        ensures
            r == if self@.ports.contains_key(handle) {
                Ok::<u16, ()>(self@.ports[handle])
            } else {
                Err::<u16, ()>(())
            },
            self@.well_formed(N as nat),
    {
        match self.find_binding(handle) {
            Some(i) => Ok(self.bindings[i].1),
            None => Err(()),
        }
    }

    /// Takes the oldest connection that waits for `handle` out of its queue
    /// and returns its handle, if the connection comes from `addr`. A
    /// connection from another address stays where it is.
    pub fn get_outgoing(&mut self, handle: &Handle, addr: SocketAddr) -> (r: Option<Handle>)
        ensures
            match old(self)@.head(*handle) {
                Some(item) => if item.1 == addr {
                    r == Some(item.0) && final(self)@ == old(self)@.drop_head(*handle)
                } else {
                    r is None && final(self)@ == old(self)@
                },
                None => r is None && final(self)@ == old(self)@,
            },
            final(self)@.well_formed(N as nat),
    {
        let matches_head = match self.peek_remote(*handle) {
            Ok(item) => same_address(&item.1, &addr),
            Err(_) => false,
        };
        if matches_head {
            match self.get_remote(*handle) {
                Ok(item) => Some(item.0),
                Err(_) => None,
            }
        } else {
            None
        }
    }
}

} // verus!
