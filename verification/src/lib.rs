//! Fixed-capacity bookkeeping for the logical sockets of a small networking
//! endpoint: a socket set addressed by handles, the receive ring buffer every
//! socket owns, the TCP and UDP socket state machines, and the listener
//! registries that queue inbound connections per bound port.
//!
//! Nothing here touches the wire. A driver pushes received bytes and link
//! events in, an application drains them, and time is always handed in by the
//! caller as an explicit timestamp.
use crate::ring_buffer::{accepted, enqueued, rebased};
use vstd::prelude::*;

mod addr;
pub mod listener;
pub mod meta;
pub mod ring_buffer;
pub mod set;
pub mod tcp;
pub mod tcp_listener;
pub mod time;
pub mod udp;
pub mod udp_listener;

pub use self::meta::Meta as SocketMeta;
pub use self::ring_buffer::RingBuffer;
pub use self::set::{Handle as SocketHandle, SocketSet};
pub use self::tcp::{State as TcpState, TcpSocket};
pub use self::time::Instant;
pub use self::udp::{State as UdpState, UdpSocket};

verus! {

/// The error type of the socket layer.
#[non_exhaustive]
#[derive(Debug, Clone, Copy, PartialEq, Eq, Structural)]
pub enum Error {
    /// An operation cannot proceed because a buffer is empty or full.
    Exhausted,
    /// An operation is not permitted in the current state.
    Illegal,
    /// An endpoint or address of a remote host could not be resolved to a
    /// lower level address.
    Unaddressable,
    /// The time source failed.
    Timer,
    /// An operation did not finish in time.
    Timeout,
    /// The socket has been closed.
    SocketClosed,
    /// A length did not fit.
    BadLength,
    /// The socket is not bound.
    NotBound,
    /// The socket set has no free slot.
    SocketSetFull,
    /// No socket in the set has the handle.
    InvalidSocket,
    /// A socket with the same handle is already in the set.
    DuplicateSocket,
    /// A listener could not bind, unbind, or serve a pending connection.
    ListenerError,
}

/// The protocol of a socket.
#[non_exhaustive]
#[derive(Debug, Clone, Copy, PartialEq, Eq, Structural)]
pub enum SocketType {
    Udp,
    Tcp,
}

/// A network socket.
///
/// This enumeration abstracts the various types of sockets based on the IP
/// protocol. To downcast a `Socket` value to a concrete socket, use the
/// [AnySocket] trait, e.g. to get `UdpSocket`, call
/// `UdpSocket::downcast(socket)`.
///
/// It is usually more convenient to use [SocketSet::get] instead.
#[non_exhaustive]
pub enum Socket<const TIMER_HZ: u32, const L: usize> {
    Udp(UdpSocket<TIMER_HZ, L>),
    Tcp(TcpSocket<TIMER_HZ, L>),
}

impl<const TIMER_HZ: u32, const L: usize> Socket<TIMER_HZ, L> {
    /// The handle of the socket.
    pub open spec fn handle_of(self) -> SocketHandle {
        match self {
            Socket::Udp(s) => s@.handle,
            Socket::Tcp(s) => s@.handle,
        }
    }

    /// The protocol of the socket.
    pub open spec fn type_of(self) -> SocketType {
        match self {
            Socket::Udp(_) => SocketType::Udp,
            Socket::Tcp(_) => SocketType::Tcp,
        }
    }

    /// The number of bytes that the driver reported as ready.
    pub open spec fn available(self) -> usize {
        match self {
            Socket::Udp(s) => s@.available_data,
            Socket::Tcp(s) => s@.available_data,
        }
    }

    /// The bytes of the receive buffer, oldest first.
    pub open spec fn rx(self) -> Seq<u8> {
        match self {
            Socket::Udp(s) => s@.rx,
            Socket::Tcp(s) => s@.rx,
        }
    }

    /// Whether, at `ts`, the socket may be reclaimed.
    pub open spec fn stale(self, ts: Instant<TIMER_HZ>) -> bool {
        match self {
            Socket::Udp(s) => s@.stale(ts),
            Socket::Tcp(s) => s@.stale(ts),
        }
    }

    /// Whether, at `ts`, the available data should be asked for again.
    pub open spec fn check_due(self, ts: Instant<TIMER_HZ>) -> bool {
        match self {
            Socket::Udp(s) => s@.check_due(ts),
            Socket::Tcp(s) => s@.check_due(ts),
        }
    }

    /// Return the socket handle.
    #[inline]
    pub fn handle(&self) -> (r: SocketHandle)
        ensures
            r == self.handle_of(),
    {
        self.meta().handle
    }

    pub(crate) fn meta(&self) -> (r: &SocketMeta)
        ensures
            r.handle == self.handle_of(),
    {
        match self {
            Socket::Udp(ref socket) => socket.meta(),
            Socket::Tcp(ref socket) => socket.meta(),
        }
    }

    /// Return the protocol of the socket.
    pub fn get_type(&self) -> (r: SocketType)
        ensures
            r == self.type_of(),
    {
        match self {
            Socket::Tcp(_) => SocketType::Tcp,
            Socket::Udp(_) => SocketType::Udp,
        }
    }

    /// Says whether, at `ts`, the available data should be asked for again,
    /// and notes the check as the stored socket does.
    pub fn should_update_available_data(&mut self, ts: Instant<TIMER_HZ>) -> (r: bool)
        ensures
            r == old(self).check_due(ts),
            match (*old(self), *final(self)) {
                (Socket::Tcp(before), Socket::Tcp(after)) => after@ == if r {
                    tcp::TcpView { last_check_time: Some(ts), ..before@ }
                } else {
                    before@
                },
                (Socket::Udp(before), Socket::Udp(after)) => after@ == (udp::UdpView {
                    last_check_time: Some(ts),
                    ..before@
                }),
                _ => false,
            },
    {
        match self {
            Socket::Tcp(s) => s.should_update_available_data(ts),
            Socket::Udp(s) => s.should_update_available_data(ts),
        }
    }

    /// Return the number of bytes that the driver reported as ready.
    pub fn available_data(&self) -> (r: usize)
        ensures
            r == self.available(),
    {
        match self {
            Socket::Tcp(s) => s.get_available_data(),
            Socket::Udp(s) => s.get_available_data(),
        }
    }

    /// Says whether, at `ts`, the socket may be reclaimed.
    pub fn recycle(&self, ts: Instant<TIMER_HZ>) -> (r: bool)
        ensures
            r == self.stale(ts),
    {
        match self {
            Socket::Tcp(s) => s.recycle(ts),
            Socket::Udp(s) => s.recycle(ts),
        }
    }

    /// Records that the remote side closed at `ts`.
    pub fn closed_by_remote(&mut self, ts: Instant<TIMER_HZ>)
        ensures
            match (*old(self), *final(self)) {
                (Socket::Tcp(before), Socket::Tcp(after)) => after@ == (tcp::TcpView {
                    state: TcpState::ShutdownForWrite(ts),
                    available_data: 0,
                    ..before@
                }),
                (Socket::Udp(before), Socket::Udp(after)) => after@ == (udp::UdpView {
                    closed_time: Some(ts),
                    ..before@
                }),
                _ => false,
            },
    {
        match self {
            Socket::Tcp(s) => s.closed_by_remote(ts),
            Socket::Udp(s) => s.closed_by_remote(ts),
        }
    }

    /// Set the number of bytes that the driver reported as ready.
    pub fn set_available_data(&mut self, available_data: usize)
        ensures
            match (*old(self), *final(self)) {
                (Socket::Tcp(before), Socket::Tcp(after)) => after@ == (tcp::TcpView {
                    available_data,
                    ..before@
                }),
                (Socket::Udp(before), Socket::Udp(after)) => after@ == (udp::UdpView {
                    available_data,
                    ..before@
                }),
                _ => false,
            },
    {
        match self {
            Socket::Tcp(s) => s.set_available_data(available_data),
            Socket::Udp(s) => s.set_available_data(available_data),
        }
    }

    /// Puts received bytes into the receive buffer, as many as fit, and
    /// returns how many were taken.
    pub fn rx_enqueue_slice(&mut self, data: &[u8]) -> (n: usize)
        ensures
            n == accepted(L as nat, old(self).rx().len(), data@.len()),
            match (*old(self), *final(self)) {
                (Socket::Tcp(before), Socket::Tcp(after)) => after@ == (tcp::TcpView {
                    rx: enqueued(L as nat, before@.rx, data@),
                    rx_read_at: rebased(before@.rx_read_at, before@.rx.len()),
                    ..before@
                }),
                (Socket::Udp(before), Socket::Udp(after)) => after@ == (udp::UdpView {
                    rx: enqueued(L as nat, before@.rx, data@),
                    rx_read_at: rebased(before@.rx_read_at, before@.rx.len()),
                    ..before@
                }),
                _ => false,
            },
    {
        match self {
            Socket::Tcp(s) => s.rx_enqueue_slice(data),
            Socket::Udp(s) => s.rx_enqueue_slice(data),
        }
    }

    /// The free space of the receive buffer.
    pub fn rx_window(&self) -> (r: usize)
        ensures
            r + self.rx().len() == L,
    {
        match self {
            Socket::Tcp(s) => s.rx_window(),
            Socket::Udp(s) => s.rx_window(),
        }
    }

    /// Whether the socket can take in received bytes: a TCP socket whose
    /// receive half is open, or any UDP socket, with room in its buffer.
    pub fn can_recv(&self) -> (r: bool)
        ensures
            r == match *self {
                Socket::Tcp(s) => s@.may_recv() && s@.rx.len() != L,
                Socket::Udp(s) => s@.rx.len() != L,
            },
    {
        match self {
            Socket::Tcp(s) => s.can_recv(),
            Socket::Udp(s) => s.can_recv(),
        }
    }
}

impl<const TIMER_HZ: u32, const L: usize> From<TcpSocket<TIMER_HZ, L>> for Socket<TIMER_HZ, L> {
    fn from(socket: TcpSocket<TIMER_HZ, L>) -> (r: Self) {
        Socket::Tcp(socket)
    }
}

impl<const TIMER_HZ: u32, const L: usize> vstd::std_specs::convert::FromSpecImpl<TcpSocket<TIMER_HZ, L>> for Socket<TIMER_HZ, L> {
    open spec fn obeys_from_spec() -> bool {
        true
    }

    open spec fn from_spec(socket: TcpSocket<TIMER_HZ, L>) -> Self {
        Socket::Tcp(socket)
    }
}

impl<const TIMER_HZ: u32, const L: usize> From<UdpSocket<TIMER_HZ, L>> for Socket<TIMER_HZ, L> {
    fn from(socket: UdpSocket<TIMER_HZ, L>) -> (r: Self) {
        Socket::Udp(socket)
    }
}

impl<const TIMER_HZ: u32, const L: usize> vstd::std_specs::convert::FromSpecImpl<UdpSocket<TIMER_HZ, L>> for Socket<TIMER_HZ, L> {
    open spec fn obeys_from_spec() -> bool {
        true
    }

    open spec fn from_spec(socket: UdpSocket<TIMER_HZ, L>) -> Self {
        Socket::Udp(socket)
    }
}

/// A conversion trait for network sockets: a concrete socket type that a
/// [`Socket`] may hold.
pub trait AnySocket<const TIMER_HZ: u32, const L: usize>: Sized {
    /// Whether `socket` holds a socket of this type.
    spec fn held_by(socket: Socket<TIMER_HZ, L>) -> bool;

    /// The socket of this type that `socket` holds.
    spec fn inside(socket: Socket<TIMER_HZ, L>) -> Self;

    /// The [`Socket`] that holds `self`.
    spec fn wrap(self) -> Socket<TIMER_HZ, L>;

    /// Gives access to the socket of this type that `socket` holds, or
    /// fails with `Illegal` if it holds a socket of another type. What is
    /// done through the reference is done to `socket`.
    fn downcast<'a>(socket: &'a mut Socket<TIMER_HZ, L>) -> (r: Result<&'a mut Self, Error>)
        ensures
            r is Ok <==> Self::held_by(*old(socket)),
            r matches Ok(s) ==> *s == Self::inside(*old(socket))
                && *final(socket) == (*final(s)).wrap(),
            r is Err ==> (r matches Err(Error::Illegal)) && *final(socket) == *old(socket),
    ;
}

impl<const TIMER_HZ: u32, const L: usize> AnySocket<TIMER_HZ, L> for TcpSocket<TIMER_HZ, L> {
    open spec fn held_by(socket: Socket<TIMER_HZ, L>) -> bool {
        socket is Tcp
    }

    open spec fn inside(socket: Socket<TIMER_HZ, L>) -> Self {
        socket->Tcp_0
    }

    open spec fn wrap(self) -> Socket<TIMER_HZ, L> {
        Socket::Tcp(self)
    }

    fn downcast<'a>(socket: &'a mut Socket<TIMER_HZ, L>) -> (r: Result<&'a mut Self, Error>) {
        match socket {
            Socket::Tcp(socket) => Ok(socket),
            _ => Err(Error::Illegal),
        }
    }
}

impl<const TIMER_HZ: u32, const L: usize> AnySocket<TIMER_HZ, L> for UdpSocket<TIMER_HZ, L> {
    open spec fn held_by(socket: Socket<TIMER_HZ, L>) -> bool {
        socket is Udp
    }

    open spec fn inside(socket: Socket<TIMER_HZ, L>) -> Self {
        socket->Udp_0
    }

    open spec fn wrap(self) -> Socket<TIMER_HZ, L> {
        Socket::Udp(self)
    }

    fn downcast<'a>(socket: &'a mut Socket<TIMER_HZ, L>) -> (r: Result<&'a mut Self, Error>) {
        match socket {
            Socket::Udp(socket) => Ok(socket),
            _ => Err(Error::Illegal),
        }
    }
}

/// A socket is held by exactly one of the two socket types, so a downcast to
/// the other one fails: a [`Socket`] that holds a UDP socket is not held by
/// `TcpSocket`, and one that holds a TCP socket is not held by `UdpSocket`.
pub proof fn lemma_downcast_types<const TIMER_HZ: u32, const L: usize>(socket: Socket<TIMER_HZ, L>)
    ensures
        socket is Udp ==> !<TcpSocket<TIMER_HZ, L> as AnySocket<TIMER_HZ, L>>::held_by(socket)
            && <UdpSocket<TIMER_HZ, L> as AnySocket<TIMER_HZ, L>>::held_by(socket),
        socket is Tcp ==> !<UdpSocket<TIMER_HZ, L> as AnySocket<TIMER_HZ, L>>::held_by(socket)
            && <TcpSocket<TIMER_HZ, L> as AnySocket<TIMER_HZ, L>>::held_by(socket),
        socket.type_of() == SocketType::Tcp <==> socket is Tcp,
        socket.type_of() == SocketType::Udp <==> socket is Udp,
{
}

} // verus!
