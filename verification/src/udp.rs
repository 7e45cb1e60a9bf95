use crate::meta::Meta;
use crate::ring_buffer::{
    accepted, allocated_run, dequeued, enqueued, least, rebased, remaining, wrapped, RingBuffer,
};
use crate::set::Handle;
use crate::time::{elapsed_at_least, has_elapsed, Instant};
use crate::Error;
pub use no_std_net::{Ipv4Addr, SocketAddr, SocketAddrV4};
use vstd::prelude::*;

verus! {

/// A UDP socket ring buffer.
pub type SocketBuffer<const N: usize> = RingBuffer<u8, N>;

/// A note of whether the socket is in use. UDP itself has no connections.
#[derive(Debug, PartialEq, Eq, Clone, Copy, Structural)]
pub enum State {
    Closed,
    Established,
}

impl Default for State {
    fn default() -> (r: Self)
        ensures
            r == State::Closed,
    {
        State::Closed
    }
}

/// The abstract state of a [`UdpSocket`].
pub struct UdpView<const TIMER_HZ: u32> {
    /// The handle of the socket.
    pub handle: Handle,
    /// The endpoint the socket is bound to, if it is open.
    pub endpoint: Option<SocketAddr>,
    /// The seconds after which the available data should be asked for again.
    pub check_interval: u32,
    /// The seconds for which unread data is kept after the remote side
    /// closed, if the socket is reclaimed at all.
    pub read_timeout: Option<u32>,
    /// The state that was last set.
    pub state: State,
    /// The number of bytes that the driver reported as ready.
    pub available_data: usize,
    /// The bytes of the receive buffer, oldest first.
    pub rx: Seq<u8>,
    /// Where the oldest byte lies in the receive buffer's storage.
    pub rx_read_at: nat,
    /// When the available data was last asked for.
    pub last_check_time: Option<Instant<TIMER_HZ>>,
    /// When the remote side closed, if it did.
    pub closed_time: Option<Instant<TIMER_HZ>>,
}

/// A User Datagram Protocol socket.
///
/// A UDP socket is bound to a specific endpoint, and owns a receive buffer of
/// `L` bytes.
pub struct UdpSocket<const TIMER_HZ: u32, const L: usize> {
    meta: Meta,
    endpoint: Option<SocketAddr>,
    check_interval: u32,
    read_timeout: Option<u32>,
    state: State,
    available_data: usize,
    rx_buffer: SocketBuffer<L>,
    last_check_time: Option<Instant<TIMER_HZ>>,
    closed_time: Option<Instant<TIMER_HZ>>,
}

impl<const TIMER_HZ: u32, const L: usize> View for UdpSocket<TIMER_HZ, L> {
    type V = UdpView<TIMER_HZ>;

    closed spec fn view(&self) -> UdpView<TIMER_HZ> {
        UdpView {
            handle: self.meta.handle,
            endpoint: self.endpoint,
            check_interval: self.check_interval,
            read_timeout: self.read_timeout,
            state: self.state,
            available_data: self.available_data,
            rx: self.rx_buffer@,
            rx_read_at: self.rx_buffer.read_at(),
            last_check_time: self.last_check_time,
            closed_time: self.closed_time,
        }
    }
}

impl<const TIMER_HZ: u32> UdpView<TIMER_HZ> {
    /// Whether the socket is bound to an endpoint.
    pub open spec fn is_open(self) -> bool {
        self.endpoint is Some
    }

    /// Whether, at `ts`, the available data should be asked for again: it
    /// was asked for before, and the check interval has passed since.
    pub open spec fn check_due(self, ts: Instant<TIMER_HZ>) -> bool {
        match self.last_check_time {
            Some(last) => has_elapsed(ts, last, self.check_interval),
            None => false,
        }
    }

    /// Whether, at `ts`, the socket may be reclaimed: the remote side closed
    /// and the read timeout, if there is one, has passed since.
    pub open spec fn stale(self, ts: Instant<TIMER_HZ>) -> bool {
        match (self.read_timeout, self.closed_time) {
            (Some(timeout), Some(closed_time)) => has_elapsed(ts, closed_time, timeout),
            _ => false,
        }
    }

    /// The first contiguous run of the buffered bytes in a buffer of
    /// `capacity` bytes.
    pub open spec fn rx_first_span(self, capacity: nat) -> Seq<u8> {
        self.rx.take(crate::ring_buffer::first_run(capacity, self.rx_read_at, self.rx.len()) as int)
    }
}

impl<const TIMER_HZ: u32, const L: usize> UdpSocket<TIMER_HZ, L> {
    /// Creates a socket with the given handle: closed, bound to nothing,
    /// with an empty receive buffer, a check interval of 15 seconds and a
    /// read timeout of 15 seconds.
    pub fn new(socket_id: u8) -> (r: UdpSocket<TIMER_HZ, L>)
        ensures
            r@ == (UdpView::<TIMER_HZ> {
                handle: Handle(socket_id),
                endpoint: None,
                check_interval: 15,
                read_timeout: Some(15u32),
                state: State::Closed,
                available_data: 0,
                rx: Seq::empty(),
                rx_read_at: 0,
                last_check_time: None,
                closed_time: None,
            }),
    {
        UdpSocket {
            meta: Meta { handle: Handle(socket_id) },
            check_interval: 15,
            state: State::Closed,
            read_timeout: Some(15),
            endpoint: None,
            available_data: 0,
            rx_buffer: RingBuffer::new(),
            last_check_time: None,
            closed_time: None,
        }
    }

    pub(crate) fn meta(&self) -> (r: &Meta)
        ensures
            r.handle == self@.handle,
    {
        &self.meta
    }

    /// Return the socket handle.
    pub fn handle(&self) -> (r: Handle)
        ensures
            r == self@.handle,
    {
        self.meta.handle
    }

    /// Gives the socket another handle.
    pub fn update_handle(&mut self, handle: Handle)
        ensures
            final(self)@ == (UdpView { handle, ..old(self)@ }),
    {
        self.meta.update(handle)
    }

    /// Return the bound endpoint.
    pub fn endpoint(&self) -> (r: Option<SocketAddr>)
        ensures
            r == self@.endpoint,
    {
        self.endpoint
    }

    /// Return the state that was last set.
    pub fn state(&self) -> (r: State)
        ensures
            r == self@.state,
    {
        self.state
    }

    /// Sets the state.
    pub fn set_state(&mut self, state: State)
        ensures
            final(self)@ == (UdpView { state, ..old(self)@ }),
    {
        self.state = state
    }

    /// Takes `ts` as the time of the last check, and says whether the check
    /// interval had passed since the check before it.
    pub fn should_update_available_data(&mut self, ts: Instant<TIMER_HZ>) -> (r: bool)
        ensures
            r == old(self)@.check_due(ts),
            final(self)@ == (UdpView { last_check_time: Some(ts), ..old(self)@ }),
    {
        let before = self.last_check_time;
        self.last_check_time = Some(ts);
        match before {
            Some(last_check_time) => elapsed_at_least(ts, last_check_time, self.check_interval),
            None => false,
        }
    }

    /// Says whether, at `ts`, the socket may be reclaimed.
    pub fn recycle(&self, ts: Instant<TIMER_HZ>) -> (r: bool)
        ensures
            r == self@.stale(ts),
    {
        if let Some(read_timeout) = self.read_timeout {
            match self.closed_time {
                Some(closed_time) => elapsed_at_least(ts, closed_time, read_timeout),
                None => false,
            }
        } else {
            false
        }
    }

    /// Records that the remote side closed at `ts`.
    pub fn closed_by_remote(&mut self, ts: Instant<TIMER_HZ>)
        ensures
            final(self)@ == (UdpView { closed_time: Some(ts), ..old(self)@ }),
    {
        self.closed_time = Some(ts);
    }

    /// Sets the seconds after which the available data should be asked for
    /// again.
    pub fn set_check_interval(&mut self, seconds: u32)
        ensures
            final(self)@ == (UdpView { check_interval: seconds, ..old(self)@ }),
    {
        self.check_interval = seconds;
    }

    /// Sets the seconds for which unread data is kept after the remote side
    /// closed. Without a timeout the socket is never reclaimed.
    pub fn set_read_timeout(&mut self, read_timeout: Option<u32>)
        ensures
            final(self)@ == (UdpView { read_timeout, ..old(self)@ }),
    {
        self.read_timeout = read_timeout;
    }

    /// Set available data.
    pub fn set_available_data(&mut self, available_data: usize)
        ensures
            final(self)@ == (UdpView { available_data, ..old(self)@ }),
    {
        self.available_data = available_data;
    }

    /// Get the number of bytes available to ingress.
    pub fn get_available_data(&self) -> (r: usize)
        ensures
            r == self@.available_data,
    {
        self.available_data
    }

    /// The free space of the receive buffer.
    pub fn rx_window(&self) -> (r: usize)
        ensures
            r + self@.rx.len() == L,
    {
        self.rx_buffer.window()
    }

    /// Bind the socket to the given endpoint.
    ///
    /// This function returns `Err(Error::Illegal)` if the socket was open
    /// (see [is_open](#method.is_open)).
    pub fn bind(&mut self, endpoint: SocketAddr) -> (r: Result<(), Error>)
        ensures
            r is Ok <==> !old(self)@.is_open(),
            r is Ok ==> final(self)@ == (UdpView { endpoint: Some(endpoint), ..old(self)@ }),
            r is Err ==> (r matches Err(Error::Illegal)) && final(self)@ == old(self)@,
    {
        if self.is_open() {
            return Err(Error::Illegal);
        }
        self.endpoint = Some(endpoint);
        Ok(())
    }

    /// Check whether the socket is open.
    pub fn is_open(&self) -> (r: bool)
        ensures
            r == self@.is_open(),
    {
        self.endpoint.is_some()
    }

    /// Check whether the receive buffer has room.
    pub fn can_recv(&self) -> (r: bool)
        ensures
            r == (self@.rx.len() != L),
    {
        !self.rx_buffer.is_full()
    }

    /// Puts received bytes into the receive buffer, as many as fit, and
    /// returns how many were taken.
    pub fn rx_enqueue_slice(&mut self, data: &[u8]) -> (n: usize)
        ensures
            n == accepted(L as nat, old(self)@.rx.len(), data@.len()),
            final(self)@ == (UdpView {
                rx: enqueued(L as nat, old(self)@.rx, data@),
                rx_read_at: rebased(old(self)@.rx_read_at, old(self)@.rx.len()),
                ..old(self)@
            }),
    {
        self.rx_buffer.enqueue_slice(data)
    }

    /// Unbinds the socket from its endpoint.
    pub fn close(&mut self)
        ensures
            final(self)@ == (UdpView { endpoint: None, ..old(self)@ }),
    {
        self.endpoint = None;
    }

    /// Call `f` with the largest contiguous slice of octets in the receive
    /// buffer, and dequeue the amount of elements returned by `f`, or the
    /// whole slice if `f` returns more.
    ///
    /// This function returns `Err(Error::Illegal)` if the socket is not
    /// open; see [is_open](#method.is_open).
    pub fn recv<'b, F, R>(&'b mut self, f: F) -> (r: Result<R, Error>) where
        F: FnOnce(&'b [u8]) -> (usize, R),

        requires
            old(self)@.is_open() ==> forall|span: &[u8]|
                span@ == old(self)@.rx_first_span(L as nat) ==> call_requires(f, (span,)),
        ensures
            r is Ok <==> old(self)@.is_open(),
            r is Err ==> (r matches Err(Error::Illegal)) && final(self)@ == old(self)@,
            r matches Ok(result) ==> exists|span: &[u8], claimed: usize|
                {
                    &&& span@ == old(self)@.rx_first_span(L as nat)
                    &&& #[trigger] call_ensures(f, (span,), (claimed, result))
                    &&& final(self)@ == (UdpView {
                        rx: old(self)@.rx.skip(least(claimed as nat, span@.len()) as int),
                        rx_read_at: wrapped(
                            L as nat,
                            old(self)@.rx_read_at + least(claimed as nat, span@.len()),
                        ),
                        ..old(self)@
                    })
                },
    {
        if !self.is_open() {
            return Err(Error::Illegal);
        }
        let (size, result) = self.rx_buffer.dequeue_many_with(f);
        let r = Ok(result);
        proof {
            let (span, claimed) = choose|span: &[u8], claimed: usize|
                span@ == old(self).rx_buffer.first_span() && #[trigger] call_ensures(
                    f,
                    (span,),
                    (claimed, r->Ok_0),
                ) && size == least(claimed as nat, span@.len());
            assert(call_ensures(f, (span,), (claimed, r->Ok_0)));
        }
        r
    }

    /// Dequeue received octets, copy them into the given slice, and return
    /// the amount of octets copied, which is limited by what is buffered and
    /// by the length of `data`; down to zero.
    ///
    /// See also [recv](#method.recv).
    pub fn recv_slice(&mut self, data: &mut [u8]) -> (r: Result<usize, Error>)
        ensures
            r is Ok <==> old(self)@.is_open(),
            r is Err ==> (r matches Err(Error::Illegal)) && final(self)@ == old(self)@
                && final(data)@ == old(data)@,
            r matches Ok(n) ==> {
                &&& n == least(old(data)@.len(), old(self)@.rx.len())
                &&& final(data)@ == dequeued(old(self)@.rx, old(data)@.len()) + old(data)@.skip(
                    n as int,
                )
                &&& final(self)@ == (UdpView {
                    rx: remaining(old(self)@.rx, old(data)@.len()),
                    rx_read_at: wrapped(L as nat, (old(self)@.rx_read_at + n) as nat),
                    ..old(self)@
                })
            },
    {
        if !self.is_open() {
            return Err(Error::Illegal);
        }
        let size = self.rx_buffer.dequeue_slice(data);
        Ok(size)
    }

    /// Peek at received octets without removing them from the receive
    /// buffer, and return a pointer to them: the contiguous run of up to
    /// `size` of the oldest octets.
    ///
    /// This function otherwise behaves identically to [recv](#method.recv).
    pub fn peek(&mut self, size: usize) -> (r: Result<&[u8], Error>)
        ensures
            final(self)@ == old(self)@,
            r is Ok <==> old(self)@.is_open(),
            r is Err ==> r matches Err(Error::Illegal),
            r matches Ok(octets) ==> octets@ == old(self)@.rx.take(
                allocated_run(
                    L as nat,
                    old(self)@.rx_read_at,
                    old(self)@.rx.len(),
                    0,
                    size as nat,
                ) as int,
            ),
    {
        if !self.is_open() {
            return Err(Error::Illegal);
        }
        let octets = self.rx_buffer.get_allocated(0, size);
        assert(octets@ =~= old(self)@.rx.take(octets@.len() as int));
        Ok(octets)
    }

    /// Peek at a sequence of received octets without removing them from
    /// the receive buffer, and fill the front of a slice from it. Returns the
    /// number of octets copied.
    ///
    /// This function otherwise behaves identically to
    /// [recv_slice](#method.recv_slice).
    pub fn peek_slice(&mut self, data: &mut [u8]) -> (r: Result<usize, Error>)
        ensures
            final(self)@ == old(self)@,
            r is Ok <==> old(self)@.is_open(),
            r is Err ==> (r matches Err(Error::Illegal)) && final(data)@ == old(data)@,
            r matches Ok(n) ==> {
                &&& n == allocated_run(
                    L as nat,
                    old(self)@.rx_read_at,
                    old(self)@.rx.len(),
                    0,
                    old(data)@.len(),
                )
                &&& final(data)@ == old(self)@.rx.take(n as int) + old(data)@.skip(n as int)
            },
    {
        let buffer = match self.peek(data.len()) {
            Ok(buffer) => buffer,
            Err(e) => {
                return Err(e);
            },
        };
        let n = buffer.len();
        let mut i: usize = 0;
        while i < n
            invariant
                i <= n,
                n == buffer@.len(),
                n <= data@.len(),
                data@.len() == old(data)@.len(),
                data@ =~= buffer@.take(i as int) + old(data)@.skip(i as int),
            decreases n - i,
        {
            data[i] = buffer[i];
            i = i + 1;
        }
        assert(buffer@.take(n as int) =~= buffer@);
        Ok(n)
    }
}

} // verus!
