use crate::listener::{ConnectionQueue, ListenerView, PortTable};
use crate::{Error, SocketHandle};
use no_std_net::SocketAddr;
use vstd::prelude::*;

verus! {

/// The ports on which UDP servers listen: each server socket's handle is
/// bound to a port, and the remote sides that send to a port wait in its
/// queue until the application takes them.
///
/// At most `N` handles can be bound, and at most `L` connections wait on
/// a port.
pub struct UdpListener<const N: usize, const L: usize> {
    table: PortTable<N, L>,
}

impl<const N: usize, const L: usize> View for UdpListener<N, L> {
    type V = ListenerView;

    closed spec fn view(&self) -> ListenerView {
        self.table@
    }
}

impl<const N: usize, const L: usize> UdpListener<N, L> {
    /// Creates a listener with nothing bound.
    pub fn new() -> (r: Self)
        ensures
            r@.ports == Map::<SocketHandle, u16>::empty(),
            r@.pending == Map::<u16, Seq<(SocketHandle, SocketAddr)>>::empty(),
            r@.well_formed(N as nat),
    {
        Self { table: PortTable::new() }
    }

    /// Bind sockethandle to port, and create queue for incomming sockets.
    /// Fails with `ListenerError`, changing nothing, if the handle is bound
    /// already or `N` handles are bound.
    pub fn bind(&mut self, handle: SocketHandle, port: u16) -> (r: Result<(), Error>)
        ensures
            r is Ok <==> old(self)@.can_bind(N as nat, handle),
            r is Ok ==> final(self)@ == old(self)@.bind(handle, port),
            r is Err ==> (r matches Err(Error::ListenerError)) && final(self)@ == old(self)@,
            final(self)@.well_formed(N as nat),
    {
        match self.table.bind(handle, port) {
            Ok(()) => Ok(()),
            Err(_) => Err(Error::ListenerError),
        }
    }

    /// Unbind sockethandle from its port, and drop the port's queue of
    /// incomming sockets. Fails with `ListenerError`, changing nothing, if
    /// the handle is not bound.
    pub fn unbind(&mut self, handle: SocketHandle) -> (r: Result<(), Error>)
        ensures
            r is Ok <==> old(self)@.ports.contains_key(handle),
            r is Ok ==> final(self)@ == old(self)@.unbind(handle),
            r is Err ==> (r matches Err(Error::ListenerError)) && final(self)@ == old(self)@,
            final(self)@.well_formed(N as nat),
    {
        match self.table.unbind(handle) {
            Ok(()) => Ok(()),
            Err(_) => Err(Error::ListenerError),
        }
    }

    /// Get incomming connection queue for port
    pub fn incoming(&mut self, port: u16) -> (r: Option<&mut ConnectionQueue<L>>)
        ensures
            r is Some <==> old(self)@.pending.contains_key(port),
            r is None ==> final(self)@ == old(self)@,
            r matches Some(queue) ==> queue@ == old(self)@.pending[port] && final(self)@ == (
            ListenerView {
                pending: old(self)@.pending.insert(port, final(queue)@),
                ..old(self)@
            }),
            final(self)@.well_formed(N as nat),
    {
        self.table.incoming(port)
    }

    /// Returns true if port is UDP server port
    pub fn is_port_bound(&self, port: u16) -> (r: bool)
        ensures
            r == self@.pending.contains_key(port),
            self@.well_formed(N as nat),
    {
        self.table.is_port_bound(port)
    }

    /// Returns true if socket is UDP server socket
    pub fn is_bound(&self, handle: SocketHandle) -> (r: bool)
        ensures
            r == self@.ports.contains_key(handle),
            self@.well_formed(N as nat),
    {
        self.table.is_bound(handle)
    }

    /// See if a connection is available for server. Fails with
    /// `ListenerError` if the handle is not bound or its port has no queue.
    pub fn available(&mut self, handle: SocketHandle) -> (r: Result<bool, Error>)
        ensures
            final(self)@ == old(self)@,
            r == match old(self)@.queue_of(handle) {
                Some(queue) => Ok::<bool, Error>(queue.len() > 0),
                None => Err::<bool, Error>(Error::ListenerError),
            },
            final(self)@.well_formed(N as nat),
    {
        match self.table.available(handle) {
            Ok(waiting) => Ok(waiting),
            Err(_) => Err(Error::ListenerError),
        }
    }

    /// Peek from queue of incomming connections for socket. Fails with
    /// `ListenerError` if none waits.
    pub fn peek_remote(&mut self, handle: SocketHandle) -> (r: Result<
        &(SocketHandle, SocketAddr),
        Error,
    >)
        ensures
            final(self)@ == old(self)@,
            r is Ok <==> old(self)@.head(handle) is Some,
            r matches Ok(item) ==> Some(*item) == old(self)@.head(handle),
            r is Err ==> r matches Err(Error::ListenerError),
            final(self)@.well_formed(N as nat),
    {
        match self.table.peek_remote(handle) {
            Ok(item) => Ok(item),
            Err(_) => Err(Error::ListenerError),
        }
    }

    /// Pop from queue of incomming connections for socket. Fails with
    /// `ListenerError`, changing nothing, if none waits.
    pub fn get_remote(&mut self, handle: SocketHandle) -> (r: Result<
        (SocketHandle, SocketAddr),
        Error,
    >)
        ensures
            r == match old(self)@.head(handle) {
                Some(item) => Ok::<(SocketHandle, SocketAddr), Error>(item),
                None => Err::<(SocketHandle, SocketAddr), Error>(Error::ListenerError),
            },
            final(self)@ == old(self)@.drop_head(handle),
            final(self)@.well_formed(N as nat),
    {
        match self.table.get_remote(handle) {
            Ok(item) => Ok(item),
            Err(_) => Err(Error::ListenerError),
        }
    }

    /// The port that the handle is bound to. Fails with `ListenerError` if
    /// it is not bound.
    pub fn get_port(&mut self, handle: SocketHandle) -> (r: Result<u16, Error>)
        ensures
            final(self)@ == old(self)@,
            r == if old(self)@.ports.contains_key(handle) {
                Ok::<u16, Error>(old(self)@.ports[handle])
            } else {
                Err::<u16, Error>(Error::ListenerError)
            },
            final(self)@.well_formed(N as nat),
    {
        match self.table.get_port(handle) {
            Ok(port) => Ok(port),
            Err(_) => Err(Error::ListenerError),
        }
    }

    /// Gives an outgoing connection, if first in queue matches socketaddr
    /// Removes it from stack.
    pub fn get_outgoing(&mut self, handle: &SocketHandle, addr: SocketAddr) -> (r: Option<
        SocketHandle,
    >)
        ensures
            match old(self)@.head(*handle) {
                Some(item) => if item.1 == addr {
                    r == Some(item.0) && final(self)@ == old(self)@.drop_head(*handle)
                } else {
                    r is None && final(self)@ == old(self)@
                },
                None => r is None && final(self)@ == old(self)@,
            },
            final(self)@.well_formed(N as nat),
    {
        self.table.get_outgoing(handle, addr)
    }
}

} // verus!
