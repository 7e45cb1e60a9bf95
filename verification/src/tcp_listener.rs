use crate::listener::{ConnectionQueue, ListenerView, PortTable};
use crate::SocketHandle;
use embedded_nal::SocketAddr;
use vstd::prelude::*;

verus! {

/// The ports on which TCP connections are awaited: each listening socket's
/// handle is bound to a port, and the connections that arrive on a port wait
/// in its queue until the application accepts them.
///
/// At most `N` handles can be bound, and at most `L` connections wait on
/// a port.
pub struct TcpListener<const N: usize, const L: usize> {
    table: PortTable<N, L>,
}

impl<const N: usize, const L: usize> View for TcpListener<N, L> {
    type V = ListenerView;

    closed spec fn view(&self) -> ListenerView {
        self.table@
    }
}

impl<const N: usize, const L: usize> TcpListener<N, L> {
    /// Creates a listener with nothing bound.
    pub fn new() -> (r: Self)
        ensures
            r@.ports == Map::<SocketHandle, u16>::empty(),
            r@.pending == Map::<u16, Seq<(SocketHandle, SocketAddr)>>::empty(),
            r@.well_formed(N as nat),
            r@.bound_have_queues(),
    {
        Self { table: PortTable::new() }
    }

    /// Binds `handle` to `port`, and starts an empty queue for the port.
    /// Fails, changing nothing, if the handle is bound already or `N`
    /// handles are bound.
    pub fn bind(&mut self, handle: SocketHandle, port: u16) -> (r: Result<(), ()>)
        ensures
            r is Ok <==> old(self)@.can_bind(N as nat, handle),
            r is Ok ==> final(self)@ == old(self)@.bind(handle, port),
            r is Err ==> final(self)@ == old(self)@,
            final(self)@.well_formed(N as nat),
            old(self)@.bound_have_queues() ==> final(self)@.bound_have_queues(),
    {
        self.table.bind(handle, port)
    }

    /// The queue of `port`, if a handle was bound to it, for the driver to
    /// put arriving connections into.
    pub fn incoming(&mut self, port: u16) -> (r: Option<&mut ConnectionQueue<L>>)
        ensures
            r is Some <==> old(self)@.pending.contains_key(port),
            r is None ==> final(self)@ == old(self)@,
            r matches Some(queue) ==> queue@ == old(self)@.pending[port] && final(self)@ == (
            ListenerView {
                pending: old(self)@.pending.insert(port, final(queue)@),
                ..old(self)@
            }),
            final(self)@.well_formed(N as nat),
            old(self)@.bound_have_queues() ==> final(self)@.bound_have_queues(),
    {
        self.table.incoming(port)
    }

    /// Whether a connection waits for `handle`. Fails if the handle is not
    /// bound.
    pub fn available(&mut self, handle: SocketHandle) -> (r: Result<bool, ()>)
        ensures
            final(self)@ == old(self)@,
            r == match old(self)@.queue_of(handle) {
                Some(queue) => Ok::<bool, ()>(queue.len() > 0),
                None => Err::<bool, ()>(()),
            },
            final(self)@.well_formed(N as nat),
    {
        self.table.available(handle)
    }

    /// Takes the oldest connection that waits for `handle` out of its
    /// queue. Fails, changing nothing, if the handle is not bound or no
    /// connection waits.
    pub fn accept(&mut self, handle: SocketHandle) -> (r: Result<(SocketHandle, SocketAddr), ()>)
        ensures
            r == match old(self)@.head(handle) {
                Some(item) => Ok::<(SocketHandle, SocketAddr), ()>(item),
                None => Err::<(SocketHandle, SocketAddr), ()>(()),
            },
            final(self)@ == old(self)@.drop_head(handle),
            final(self)@.well_formed(N as nat),
            old(self)@.bound_have_queues() ==> final(self)@.bound_have_queues(),
    {
        self.table.get_remote(handle)
    }
}

} // verus!
