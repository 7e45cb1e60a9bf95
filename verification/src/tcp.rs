use crate::meta::Meta;
use crate::ring_buffer::{
    accepted, allocated_run, dequeued, enqueued, least, rebased, remaining, wrapped, RingBuffer,
};
use crate::set::Handle;
use crate::time::{
    checked_duration_since, covers_seconds, duration_at_least, elapsed_at_least, has_elapsed,
    lemma_elapsed_threshold, shifted, ticks_between, Instant,
};
use crate::Error;
use embedded_nal::SocketAddr;
use vstd::prelude::*;

verus! {

/// A TCP socket ring buffer.
pub type SocketBuffer<const N: usize> = RingBuffer<u8, N>;

/// What the socket layer tracks of a TCP connection: enough to decide
/// whether data may be read and when the socket may be reclaimed.
#[derive(Debug, PartialEq, Eq, Clone, Copy)]
pub enum State<const TIMER_HZ: u32> {
    /// Freshly created, unsullied.
    Created,
    /// A connection to the address has been asked for.
    WaitingForConnect(SocketAddr),
    /// Connected to the address.
    Connected(SocketAddr),
    /// Closed by the remote side at the given time: nothing more arrives.
    ShutdownForWrite(Instant<TIMER_HZ>),
}

impl<const TIMER_HZ: u32> Default for State<TIMER_HZ> {
    fn default() -> (r: Self)
        ensures
            r == State::<TIMER_HZ>::Created,
    {
        State::Created
    }
}

/// The abstract state of a [`TcpSocket`].
pub struct TcpView<const TIMER_HZ: u32> {
    /// The handle of the socket.
    pub handle: Handle,
    /// The connection state.
    pub state: State<TIMER_HZ>,
    /// The seconds after which the available data should be asked for again.
    pub check_interval: u32,
    /// The seconds for which unread data is kept after the remote side
    /// closed, if the socket is reclaimed at all.
    pub read_timeout: Option<u32>,
    /// The number of bytes that the driver reported as ready.
    pub available_data: usize,
    /// The bytes of the receive buffer, oldest first.
    pub rx: Seq<u8>,
    /// Where the oldest byte lies in the receive buffer's storage.
    pub rx_read_at: nat,
    /// When the available data was last asked for.
    pub last_check_time: Option<Instant<TIMER_HZ>>,
}

/// A Transmission Control Protocol socket.
///
/// The socket buffers what the driver received and follows the connection
/// state that the driver reports. `L` is the size of the receive buffer.
pub struct TcpSocket<const TIMER_HZ: u32, const L: usize> {
    meta: Meta,
    state: State<TIMER_HZ>,
    check_interval: u32,
    read_timeout: Option<u32>,
    available_data: usize,
    rx_buffer: SocketBuffer<L>,
    last_check_time: Option<Instant<TIMER_HZ>>,
}

impl<const TIMER_HZ: u32, const L: usize> View for TcpSocket<TIMER_HZ, L> {
    type V = TcpView<TIMER_HZ>;

    closed spec fn view(&self) -> TcpView<TIMER_HZ> {
        TcpView {
            handle: self.meta.handle,
            state: self.state,
            check_interval: self.check_interval,
            read_timeout: self.read_timeout,
            available_data: self.available_data,
            rx: self.rx_buffer@,
            rx_read_at: self.rx_buffer.read_at(),
            last_check_time: self.last_check_time,
        }
    }
}

impl<const TIMER_HZ: u32> TcpView<TIMER_HZ> {
    /// Whether the socket is in the `Connected` state.
    pub open spec fn is_connected(self) -> bool {
        self.state is Connected
    }

    /// Whether data may be read: the connection is or was open, or bytes are
    /// still buffered.
    pub open spec fn may_recv(self) -> bool {
        self.state is Connected || self.state is ShutdownForWrite || self.rx.len() > 0
    }

    /// Whether, at `ts`, the available data should be asked for again: the
    /// socket is connected and either it was never asked, or the check
    /// interval has passed since, or `ts` does not lie after the last check.
    pub open spec fn check_due(self, ts: Instant<TIMER_HZ>) -> bool {
        self.is_connected() && match self.last_check_time {
            Some(last) => match ticks_between(ts.ticks, last.ticks) {
                Some(gap) => covers_seconds(TIMER_HZ, gap, self.check_interval),
                None => true,
            },
            None => true,
        }
    }

    /// Whether, at `ts`, the socket may be reclaimed: the remote side closed
    /// it and the read timeout, if there is one, has passed since.
    pub open spec fn stale(self, ts: Instant<TIMER_HZ>) -> bool {
        match (self.read_timeout, self.state) {
            (Some(timeout), State::ShutdownForWrite(closed_time)) => has_elapsed(
                ts,
                closed_time,
                timeout,
            ),
            _ => false,
        }
    }

    /// What reading into a slice of `room` bytes returns: the number of
    /// bytes copied, or `Illegal` where data may not be read.
    pub open spec fn recv_slice_result(self, room: nat) -> Result<usize, Error> {
        if self.may_recv() {
            Ok(least(room, self.rx.len()) as usize)
        } else {
            Err(Error::Illegal)
        }
    }

    /// What peeking at up to `size` bytes in a buffer of `capacity` bytes
    /// returns: the contiguous run of the oldest bytes, or `Illegal` where
    /// data may not be read.
    pub open spec fn peek_result(self, capacity: nat, size: nat) -> Result<Seq<u8>, Error> {
        if self.may_recv() {
            Ok(self.rx.take(allocated_run(capacity, self.rx_read_at, self.rx.len(), 0, size) as int))
        } else {
            Err(Error::Illegal)
        }
    }

    /// The first contiguous run of the buffered bytes in a buffer of
    /// `capacity` bytes.
    pub open spec fn rx_first_span(self, capacity: nat) -> Seq<u8> {
        self.rx.take(crate::ring_buffer::first_run(capacity, self.rx_read_at, self.rx.len()) as int)
    }

    /// The buffered bytes that lie past the physical end of a buffer of
    /// `capacity` bytes.
    pub open spec fn rx_second_span(self, capacity: nat) -> Seq<u8> {
        self.rx.skip(crate::ring_buffer::first_run(capacity, self.rx_read_at, self.rx.len()) as int)
    }
}

/// Reading is gated by the connection: a socket that is `Created` or
/// `WaitingForConnect` and has nothing buffered may not be read, so that
/// reading and peeking fail with `Illegal`; a socket that is `Connected` may
/// be read, and where nothing is buffered the read returns zero bytes and
/// the peek an empty run.
pub proof fn lemma_recv_gating<const TIMER_HZ: u32>(
    view: TcpView<TIMER_HZ>,
    capacity: nat,
    room: nat,
)
    ensures
        (view.state is Created || view.state is WaitingForConnect) && view.rx.len() == 0 ==> {
            &&& !view.may_recv()
            &&& view.recv_slice_result(room) == Err::<usize, Error>(Error::Illegal)
            &&& view.peek_result(capacity, room) == Err::<Seq<u8>, Error>(Error::Illegal)
        },
        view.state is Connected ==> {
            &&& view.may_recv()
            &&& view.recv_slice_result(room) is Ok
            &&& view.peek_result(capacity, room) is Ok
        },
        view.state is Connected && view.rx.len() == 0 ==> {
            &&& view.recv_slice_result(room) == Ok::<usize, Error>(0)
            &&& view.peek_result(capacity, room) == Ok::<Seq<u8>, Error>(Seq::empty())
        },
{
    if view.state is Connected && view.rx.len() == 0 {
        assert(view.rx.take(0) =~= Seq::<u8>::empty());
    }
}

/// A socket that the remote side closed at `closed` and that has a read
/// timeout of `seconds` seconds, a time that can be counted in half the
/// timer's range, may not be reclaimed one tick before the timeout has
/// passed and may be reclaimed when it has passed.
pub proof fn lemma_recycle_threshold<const TIMER_HZ: u32>(
    view: TcpView<TIMER_HZ>,
    closed: Instant<TIMER_HZ>,
    seconds: u32,
)
    requires
        view.state == State::ShutdownForWrite(closed),
        view.read_timeout == Some(seconds),
        seconds * TIMER_HZ <= u32::MAX / 2,
    ensures
        !view.stale(shifted(closed, seconds * TIMER_HZ - 1)),
        view.stale(shifted(closed, seconds * TIMER_HZ)),
{
    lemma_elapsed_threshold(closed, seconds);
}

/// A socket without a read timeout may never be reclaimed, and neither may
/// a socket that the remote side has not closed.
pub proof fn lemma_never_recycled<const TIMER_HZ: u32>(
    view: TcpView<TIMER_HZ>,
    ts: Instant<TIMER_HZ>,
)
    requires
        view.read_timeout is None || !(view.state is ShutdownForWrite),
    ensures
        !view.stale(ts),
{
}

impl<const TIMER_HZ: u32, const L: usize> TcpSocket<TIMER_HZ, L> {
    /// Creates a socket with the given handle: not connected, with an empty
    /// receive buffer, a check interval of 15 seconds and a read timeout of
    /// 15 seconds.
    pub fn new(socket_id: u8) -> (r: TcpSocket<TIMER_HZ, L>)
        ensures
            r@ == (TcpView::<TIMER_HZ> {
                handle: Handle(socket_id),
                state: State::Created,
                check_interval: 15,
                read_timeout: Some(15u32),
                available_data: 0,
                rx: Seq::empty(),
                rx_read_at: 0,
                last_check_time: None,
            }),
    {
        TcpSocket {
            meta: Meta { handle: Handle(socket_id) },
            state: State::Created,
            rx_buffer: RingBuffer::new(),
            available_data: 0,
            check_interval: 15,
            read_timeout: Some(15),
            last_check_time: None,
        }
    }

    pub(crate) fn meta(&self) -> (r: &Meta)
        ensures
            r.handle == self@.handle,
    {
        &self.meta
    }

    /// Return the socket handle.
    pub fn handle(&self) -> (r: Handle)
        ensures
            r == self@.handle,
    {
        self.meta.handle
    }

    /// Return the remote endpoint, once a connection was asked for and until
    /// the remote side closes it.
    pub fn endpoint(&self) -> (r: Option<SocketAddr>)
        ensures
            r == match self@.state {
                State::WaitingForConnect(s) | State::Connected(s) => Some(s),
                _ => None,
            },
    {
        match self.state {
            State::WaitingForConnect(s) | State::Connected(s) => Some(s),
            _ => None,
        }
    }

    /// Return the connection state.
    pub fn state(&self) -> (r: &State<TIMER_HZ>)
        ensures
            *r == self@.state,
    {
        &self.state
    }

    /// Says whether, at `ts`, the available data should be asked for again,
    /// and if so takes `ts` as the time of the last check.
    pub fn should_update_available_data(&mut self, ts: Instant<TIMER_HZ>) -> (r: bool)
        ensures
            r == old(self)@.check_due(ts),
            final(self)@ == if r {
                TcpView { last_check_time: Some(ts), ..old(self)@ }
            } else {
                old(self)@
            },
    {
        // Cannot request available data on a socket that is closed by the
        // module
        if !self.is_connected() {
            return false;
        }
        let should_update = match self.last_check_time {
            Some(last_check_time) => match checked_duration_since(ts, last_check_time) {
                Some(gap) => duration_at_least::<TIMER_HZ>(gap, self.check_interval),
                None => true,
            },
            None => true,
        };
        if should_update {
            self.last_check_time = Some(ts);
        }
        should_update
    }

    /// Says whether, at `ts`, the socket may be reclaimed.
    pub fn recycle(&self, ts: Instant<TIMER_HZ>) -> (r: bool)
        ensures
            r == self@.stale(ts),
    {
        if let Some(read_timeout) = self.read_timeout {
            match self.state {
                State::Created | State::WaitingForConnect(_) | State::Connected(_) => false,
                State::ShutdownForWrite(closed_time) => elapsed_at_least(
                    ts,
                    closed_time,
                    read_timeout,
                ),
            }
        } else {
            false
        }
    }

    /// Records that the remote side closed the connection at `ts`, whatever
    /// the state was: nothing is available any more.
    pub fn closed_by_remote(&mut self, ts: Instant<TIMER_HZ>)
        ensures
            final(self)@ == (TcpView {
                state: State::ShutdownForWrite(ts),
                available_data: 0,
                ..old(self)@
            }),
    {
        self.set_state(State::ShutdownForWrite(ts));
        self.set_available_data(0);
    }

    /// Sets the seconds after which the available data should be asked for
    /// again.
    pub fn set_check_interval(&mut self, seconds: u32)
        ensures
            final(self)@ == (TcpView { check_interval: seconds, ..old(self)@ }),
    {
        self.check_interval = seconds;
    }

    /// Sets the seconds for which unread data is kept after the remote side
    /// closed. Without a timeout the socket is never reclaimed.
    pub fn set_read_timeout(&mut self, read_timeout: Option<u32>)
        ensures
            final(self)@ == (TcpView { read_timeout, ..old(self)@ }),
    {
        self.read_timeout = read_timeout;
    }

    /// Set available data.
    pub fn set_available_data(&mut self, available_data: usize)
        ensures
            final(self)@ == (TcpView { available_data, ..old(self)@ }),
    {
        self.available_data = available_data;
    }

    /// Get the number of bytes available to ingress.
    pub fn get_available_data(&self) -> (r: usize)
        ensures
            r == self@.available_data,
    {
        self.available_data
    }

    /// Return whether a connection is active.
    ///
    /// This does not mean that it is possible to receive data through the
    /// socket; for that, use [can_recv](#method.can_recv).
    pub fn is_connected(&self) -> (r: bool)
        ensures
            r == self@.is_connected(),
    {
        matches!(self.state, State::Connected(_))
    }

    /// Return whether the receive half of the connection is open.
    ///
    /// This is true while there is data in the receive buffer, and if there
    /// isn't, as long as the connection was opened.
    pub fn may_recv(&self) -> (r: bool)
        ensures
            r == self@.may_recv(),
    {
        match self.state {
            State::Connected(_) | State::ShutdownForWrite(_) => true,
            // If we have something in the receive buffer, we can receive that.
            _ => !self.rx_buffer.is_empty(),
        }
    }

    /// Check whether the receive half of the connection is open
    /// (see [may_recv](#method.may_recv)), and the receive buffer is not full.
    pub fn can_recv(&self) -> (r: bool)
        ensures
            r == (self@.may_recv() && self@.rx.len() != L),
    {
        if !self.may_recv() {
            return false;
        }
        !self.rx_buffer.is_full()
    }

    /// The free space of the receive buffer.
    pub fn rx_window(&self) -> (r: usize)
        ensures
            r + self@.rx.len() == L,
    {
        self.rx_buffer.window()
    }

    /// Puts received bytes into the receive buffer, as many as fit, and
    /// returns how many were taken.
    pub fn rx_enqueue_slice(&mut self, data: &[u8]) -> (n: usize)
        ensures
            n == accepted(L as nat, old(self)@.rx.len(), data@.len()),
            final(self)@ == (TcpView {
                rx: enqueued(L as nat, old(self)@.rx, data@),
                rx_read_at: rebased(old(self)@.rx_read_at, old(self)@.rx.len()),
                ..old(self)@
            }),
    {
        self.rx_buffer.enqueue_slice(data)
    }

    /// Return the amount of octets queued in the receive buffer.
    pub fn recv_queue(&self) -> (r: usize)
        ensures
            r == self@.rx.len(),
            r <= L,
    {
        self.rx_buffer.len()
    }

    /// Sets the connection state, as the driver reports it.
    pub fn set_state(&mut self, state: State<TIMER_HZ>)
        ensures
            final(self)@ == (TcpView { state, ..old(self)@ }),
    {
        self.state = state
    }

    /// Call `f` with the largest contiguous slice of octets in the receive
    /// buffer, and dequeue the amount of elements returned by `f`, or the
    /// whole slice if `f` returns more.
    ///
    /// This function returns `Err(Error::Illegal)` if the receive half of
    /// the connection is not open; see [may_recv](#method.may_recv).
    pub fn recv<'b, F, R>(&'b mut self, f: F) -> (r: Result<R, Error>) where
        F: FnOnce(&'b [u8]) -> (usize, R),

        requires
            old(self)@.may_recv() ==> forall|span: &[u8]|
                span@ == old(self)@.rx_first_span(L as nat) ==> call_requires(f, (span,)),
        ensures
            r is Ok <==> old(self)@.may_recv(),
            r is Err ==> (r matches Err(Error::Illegal)) && final(self)@ == old(self)@,
            r matches Ok(result) ==> exists|span: &[u8], claimed: usize|
                {
                    &&& span@ == old(self)@.rx_first_span(L as nat)
                    &&& #[trigger] call_ensures(f, (span,), (claimed, result))
                    &&& final(self)@ == (TcpView {
                        rx: old(self)@.rx.skip(least(claimed as nat, span@.len()) as int),
                        rx_read_at: wrapped(
                            L as nat,
                            old(self)@.rx_read_at + least(claimed as nat, span@.len()),
                        ),
                        ..old(self)@
                    })
                },
    {
        // We may have received some data inside the initial SYN, but until the connection
        // is fully open we must not dequeue any data, as it may be overwritten by e.g.
        // another (stale) SYN. (We do not support TCP Fast Open.)
        if !self.may_recv() {
            return Err(Error::Illegal);
        }
        let (size, result) = self.rx_buffer.dequeue_many_with(f);
        let r = Ok(result);
        proof {
            let (span, claimed) = choose|span: &[u8], claimed: usize|
                span@ == old(self).rx_buffer.first_span() && #[trigger] call_ensures(
                    f,
                    (span,),
                    (claimed, r->Ok_0),
                ) && size == least(claimed as nat, span@.len());
            assert(call_ensures(f, (span,), (claimed, r->Ok_0)));
        }
        r
    }

    /// Call `f` with the octets of the receive buffer, and dequeue the amount
    /// of elements returned by `f`, or all of them if `f` returns more. What
    /// `f` returned is handed back.
    ///
    /// If the buffer read wraps around, the second argument of `f` will be
    /// `Some()` with the remainder of the buffer, such that the combined
    /// slice of the two arguments makes up the full buffer.
    ///
    /// This function returns `Err(Error::Illegal)` if the receive half of the
    /// connection is not open; see [may_recv](#method.may_recv).
    pub fn recv_wrapping<'b, F>(&'b mut self, f: F) -> (r: Result<usize, Error>) where
        F: FnOnce(&'b [u8], Option<&'b [u8]>) -> usize,

        requires
            old(self)@.may_recv() ==> forall|first: &[u8], second: Option<&[u8]>|
                first@ == old(self)@.rx_first_span(L as nat) && (second matches Some(rest)
                    ==> rest@ == old(self)@.rx_second_span(L as nat)) && (second is Some <==> old(
                    self,
                )@.rx_second_span(L as nat).len() > 0) ==> call_requires(f, (first, second)),
        ensures
            r is Ok <==> old(self)@.may_recv(),
            r is Err ==> (r matches Err(Error::Illegal)) && final(self)@ == old(self)@,
            r matches Ok(claimed) ==> {
                &&& exists|first: &[u8], second: Option<&[u8]>|
                    first@ == old(self)@.rx_first_span(L as nat) && (second matches Some(rest)
                        ==> rest@ == old(self)@.rx_second_span(L as nat)) && (second is Some
                        <==> old(self)@.rx_second_span(L as nat).len() > 0)
                        && #[trigger] call_ensures(f, (first, second), claimed)
                &&& final(self)@ == (TcpView {
                    rx: old(self)@.rx.skip(least(claimed as nat, old(self)@.rx.len()) as int),
                    rx_read_at: wrapped(
                        L as nat,
                        old(self)@.rx_read_at + least(claimed as nat, old(self)@.rx.len()),
                    ),
                    ..old(self)@
                })
            },
    {
        if !self.may_recv() {
            return Err(Error::Illegal);
        }
        let both = |first: &'b [u8], second: Option<&'b [u8]>| -> (reported: (usize, usize))
            requires
                call_requires(f, (first, second)),
            ensures
                call_ensures(f, (first, second), reported.0),
                reported.1 == reported.0,
            {
                let len = f(first, second);
                (len, len)
            };
        let (size, claimed) = self.rx_buffer.dequeue_many_with_wrapping(both);
        proof {
            let (first, second, reported) = choose|
                first: &[u8],
                second: Option<&[u8]>,
                reported: usize,
            |
                first@ == old(self).rx_buffer.first_span() && (second matches Some(rest)
                    ==> rest@ == old(self).rx_buffer.second_span()) && (second is Some <==> old(
                    self,
                ).rx_buffer.second_span().len() > 0) && #[trigger] call_ensures(
                    both,
                    (first, second),
                    (reported, claimed),
                ) && size == least(reported as nat, old(self).rx_buffer@.len());
            assert(call_ensures(f, (first, second), claimed));
        }
        Ok(claimed)
    }

    /// Dequeue a sequence of received octets, and fill a slice from it.
    ///
    /// This function returns the amount of bytes actually dequeued, which is
    /// limited by what is buffered and by the length of `data`; down to zero.
    ///
    /// See also [recv](#method.recv).
    pub fn recv_slice(&mut self, data: &mut [u8]) -> (r: Result<usize, Error>)
        ensures
            r == old(self)@.recv_slice_result(old(data)@.len()),
            r is Err ==> final(self)@ == old(self)@ && final(data)@ == old(data)@,
            r matches Ok(n) ==> {
                &&& final(data)@ == dequeued(old(self)@.rx, old(data)@.len()) + old(data)@.skip(
                    n as int,
                )
                &&& final(self)@ == (TcpView {
                    rx: remaining(old(self)@.rx, old(data)@.len()),
                    rx_read_at: wrapped(L as nat, (old(self)@.rx_read_at + n) as nat),
                    ..old(self)@
                })
            },
    {
        if !self.may_recv() {
            return Err(Error::Illegal);
        }
        let size = self.rx_buffer.dequeue_slice(data);
        Ok(size)
    }

    /// Peek at a sequence of received octets without removing them from
    /// the receive buffer, and return a pointer to it: the contiguous run of
    /// up to `size` of the oldest octets.
    ///
    /// This function otherwise behaves identically to [recv](#method.recv).
    pub fn peek(&mut self, size: usize) -> (r: Result<&[u8], Error>)
        ensures
            final(self)@ == old(self)@,
            match old(self)@.peek_result(L as nat, size as nat) {
                Ok(run) => r matches Ok(octets) && octets@ == run,
                Err(e) => r matches Err(f) && f == e,
            },
    {
        // See recv() above.
        if !self.may_recv() {
            return Err(Error::Illegal);
        }
        let octets = self.rx_buffer.get_allocated(0, size);
        assert(octets@ =~= old(self)@.rx.take(octets@.len() as int));
        Ok(octets)
    }

    /// Peek at a sequence of received octets without removing them from
    /// the receive buffer, and fill the front of a slice from it. Returns the
    /// number of octets copied.
    ///
    /// This function otherwise behaves identically to
    /// [recv_slice](#method.recv_slice).
    pub fn peek_slice(&mut self, data: &mut [u8]) -> (r: Result<usize, Error>)
        ensures
            final(self)@ == old(self)@,
            r is Ok <==> old(self)@.may_recv(),
            r is Err ==> (r matches Err(Error::Illegal)) && final(data)@ == old(data)@,
            r matches Ok(n) ==> {
                &&& n == allocated_run(
                    L as nat,
                    old(self)@.rx_read_at,
                    old(self)@.rx.len(),
                    0,
                    old(data)@.len(),
                )
                &&& final(data)@ == old(self)@.rx.take(n as int) + old(data)@.skip(n as int)
            },
    {
        let buffer = match self.peek(data.len()) {
            Ok(buffer) => buffer,
            Err(e) => {
                return Err(e);
            },
        };
        let n = buffer.len();
        let mut i: usize = 0;
        while i < n
            invariant
                i <= n,
                n == buffer@.len(),
                n <= data@.len(),
                data@.len() == old(data)@.len(),
                data@ =~= buffer@.take(i as int) + old(data)@.skip(i as int),
            decreases n - i,
        {
            data[i] = buffer[i];
            i = i + 1;
        }
        assert(buffer@.take(n as int) =~= buffer@);
        Ok(n)
    }
}

} // verus!
