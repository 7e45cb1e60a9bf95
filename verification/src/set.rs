use crate::{AnySocket, Error, Instant, Socket, SocketType};
use vstd::prelude::*;
use vstd::std_specs::convert::IntoSpec;

verus! {

/// A handle, identifying a socket in a set.
///
/// Zero is a handle like any other.
#[derive(Debug, Clone, Copy, PartialEq, Eq, Structural, PartialOrd, Ord, Hash, Default)]
pub struct Handle(pub u8);

/// Whether `slot` stores a socket with the handle `handle`.
pub open spec fn holds<const TIMER_HZ: u32, const L: usize>(
    slot: Option<Socket<TIMER_HZ, L>>,
    handle: Handle,
) -> bool {
    slot matches Some(socket) && socket.handle_of() == handle
}

/// Whether `i` is the first slot that stores a socket with the handle
/// `handle`.
pub open spec fn is_first_holding<const TIMER_HZ: u32, const L: usize>(
    slots: Seq<Option<Socket<TIMER_HZ, L>>>,
    handle: Handle,
    i: int,
) -> bool {
    &&& 0 <= i < slots.len()
    &&& holds(slots[i], handle)
    &&& forall|j: int| 0 <= j < i ==> !holds(#[trigger] slots[j], handle)
}

/// The first slot that stores a socket with the handle `handle`, if there is
/// one.
pub open spec fn index_of_handle<const TIMER_HZ: u32, const L: usize>(
    slots: Seq<Option<Socket<TIMER_HZ, L>>>,
    handle: Handle,
) -> Option<int> {
    if exists|i: int| is_first_holding(slots, handle, i) {
        Some(choose|i: int| is_first_holding(slots, handle, i))
    } else {
        None
    }
}

/// Whether `i` is the first empty slot.
pub open spec fn is_first_free<const TIMER_HZ: u32, const L: usize>(
    slots: Seq<Option<Socket<TIMER_HZ, L>>>,
    i: int,
) -> bool {
    &&& 0 <= i < slots.len()
    &&& slots[i] is None
    &&& forall|j: int| 0 <= j < i ==> (#[trigger] slots[j]) is Some
}

/// The first empty slot, if there is one.
pub open spec fn first_free<const TIMER_HZ: u32, const L: usize>(
    slots: Seq<Option<Socket<TIMER_HZ, L>>>,
) -> Option<int> {
    if exists|i: int| is_first_free(slots, i) {
        Some(choose|i: int| is_first_free(slots, i))
    } else {
        None
    }
}

/// Whether `slot` stores a socket that may be reclaimed at `ts`.
pub open spec fn holds_stale<const TIMER_HZ: u32, const L: usize>(
    slot: Option<Socket<TIMER_HZ, L>>,
    ts: Instant<TIMER_HZ>,
) -> bool {
    slot matches Some(socket) && socket.stale(ts)
}

/// Whether `i` is the first slot that stores a socket that may be reclaimed
/// at `ts`.
pub open spec fn is_first_stale<const TIMER_HZ: u32, const L: usize>(
    slots: Seq<Option<Socket<TIMER_HZ, L>>>,
    ts: Instant<TIMER_HZ>,
    i: int,
) -> bool {
    &&& 0 <= i < slots.len()
    &&& holds_stale(slots[i], ts)
    &&& forall|j: int| 0 <= j < i ==> !holds_stale(#[trigger] slots[j], ts)
}

/// The first slot that stores a socket that may be reclaimed at `ts`, if
/// there is one.
pub open spec fn first_stale<const TIMER_HZ: u32, const L: usize>(
    slots: Seq<Option<Socket<TIMER_HZ, L>>>,
    ts: Instant<TIMER_HZ>,
) -> Option<int> {
    if exists|i: int| is_first_stale(slots, ts, i) {
        Some(choose|i: int| is_first_stale(slots, ts, i))
    } else {
        None
    }
}

/// `n` slots that store nothing.
pub open spec fn empty_slots<const TIMER_HZ: u32, const L: usize>(n: nat) -> Seq<
    Option<Socket<TIMER_HZ, L>>,
> {
    Seq::new(n, |i: int| None)
}

/// The sockets stored in `slots`, in slot order.
pub open spec fn live<const TIMER_HZ: u32, const L: usize>(
    slots: Seq<Option<Socket<TIMER_HZ, L>>>,
) -> Seq<Socket<TIMER_HZ, L>>
    decreases slots.len(),
{
    if slots.len() == 0 {
        Seq::empty()
    } else {
        match slots.last() {
            Some(socket) => live(slots.drop_last()).push(socket),
            None => live(slots.drop_last()),
        }
    }
}

/// What adding `socket` to `slots` returns: its handle, unless a stored
/// socket has that handle already or no slot is empty.
pub open spec fn add_result<const TIMER_HZ: u32, const L: usize>(
    slots: Seq<Option<Socket<TIMER_HZ, L>>>,
    socket: Socket<TIMER_HZ, L>,
) -> Result<Handle, Error> {
    if index_of_handle(slots, socket.handle_of()) is Some {
        Err(Error::DuplicateSocket)
    } else if first_free(slots) is None {
        Err(Error::SocketSetFull)
    } else {
        Ok(socket.handle_of())
    }
}

/// The slots after `socket` was added to `slots`: the first empty slot takes
/// it, unless adding fails.
pub open spec fn after_add<const TIMER_HZ: u32, const L: usize>(
    slots: Seq<Option<Socket<TIMER_HZ, L>>>,
    socket: Socket<TIMER_HZ, L>,
) -> Seq<Option<Socket<TIMER_HZ, L>>> {
    if add_result(slots, socket) is Ok {
        slots.update(first_free(slots)->0, Some(socket))
    } else {
        slots
    }
}

/// The slots after the socket with the handle `handle` was removed from
/// `slots`: the first slot that stores such a socket is emptied.
pub open spec fn after_remove<const TIMER_HZ: u32, const L: usize>(
    slots: Seq<Option<Socket<TIMER_HZ, L>>>,
    handle: Handle,
) -> Seq<Option<Socket<TIMER_HZ, L>>> {
    match index_of_handle(slots, handle) {
        Some(i) => slots.update(i, None),
        None => slots,
    }
}

/// The slots after one round of reclaiming at `ts`: the handle of the first
/// socket that may be reclaimed is removed.
pub open spec fn after_recycle<const TIMER_HZ: u32, const L: usize>(
    slots: Seq<Option<Socket<TIMER_HZ, L>>>,
    ts: Instant<TIMER_HZ>,
) -> Seq<Option<Socket<TIMER_HZ, L>>> {
    match first_stale(slots, ts) {
        Some(i) => after_remove(slots, slots[i]->0.handle_of()),
        None => slots,
    }
}

/// Whether no two sockets stored in `slots` have the same handle.
pub open spec fn handles_unique<const TIMER_HZ: u32, const L: usize>(
    slots: Seq<Option<Socket<TIMER_HZ, L>>>,
) -> bool {
    forall|i: int, j: int|
        0 <= i < slots.len() && 0 <= j < slots.len() && i != j && (#[trigger] slots[i]) is Some
            && (#[trigger] slots[j]) is Some ==> slots[i]->0.handle_of() != slots[j]->0.handle_of()
}

/// An extensible set of sockets: `N` slots, each empty or storing one
/// socket.
///
/// The view is the slots in order.
pub struct SocketSet<const TIMER_HZ: u32, const N: usize, const L: usize> {
    sockets: Vec<Option<Socket<TIMER_HZ, L>>>,
}

impl<const TIMER_HZ: u32, const N: usize, const L: usize> View for SocketSet<TIMER_HZ, N, L> {
    type V = Seq<Option<Socket<TIMER_HZ, L>>>;

    closed spec fn view(&self) -> Seq<Option<Socket<TIMER_HZ, L>>> {
        self.sockets@
    }
}

impl<const TIMER_HZ: u32, const N: usize, const L: usize> SocketSet<TIMER_HZ, N, L> {
    #[verifier::type_invariant]
    closed spec fn inv(&self) -> bool {
        self.sockets@.len() == N
    }

    /// Create a socket set with `N` empty slots.
    pub fn new() -> (r: SocketSet<TIMER_HZ, N, L>)
        ensures
            r@ == empty_slots::<TIMER_HZ, L>(N as nat),
    {
        let mut sockets: Vec<Option<Socket<TIMER_HZ, L>>> = Vec::new();
        while sockets.len() < N
            invariant
                sockets@.len() <= N,
                forall|i: int| 0 <= i < sockets@.len() ==> (#[trigger] sockets@[i]) is None,
            decreases N - sockets@.len(),
        {
            sockets.push(None);
        }
        let r = SocketSet { sockets };
        assert(r@ =~= empty_slots::<TIMER_HZ, L>(N as nat));
        r
    }

    /// Get the maximum number of sockets the set can hold
    pub fn capacity(&self) -> (r: usize)
        ensures
            r == N,
            self@.len() == N,
    {
        proof {
            use_type_invariant(self);
        }
        N
    }

    /// Get the index of a given socket in the set.
    fn index_of(&self, handle: Handle) -> (r: Result<usize, Error>)
        ensures
            self@.len() == N,
            match index_of_handle(self@, handle) {
                Some(i) => r == Ok::<usize, Error>(i as usize) && is_first_holding(self@, handle, i),
                None => r == Err::<usize, Error>(Error::InvalidSocket),
            },
    {
        proof {
            use_type_invariant(self);
        }
        let mut i: usize = 0;
        while i < N
            invariant
                i <= N,
                self.sockets@.len() == N,
                forall|j: int| 0 <= j < i ==> !holds(#[trigger] self@[j], handle),
            decreases N - i,
        {
            let found = match &self.sockets[i] {
                Some(socket) => socket.handle().0 == handle.0,
                None => false,
            };
            if found {
                proof {
                    lemma_index_of_handle(self@, handle, i as int);
                }
                return Ok(i);
            }
            i = i + 1;
        }
        assert(index_of_handle(self@, handle) is None) by {
            if exists|k: int| is_first_holding(self@, handle, k) {
                let k = choose|k: int| is_first_holding(self@, handle, k);
                assert(!holds(self@[k], handle));
            }
        }
        Err(Error::InvalidSocket)
    }

    /// Get the current number of initialized sockets, the set is holding
    pub fn len(&self) -> (r: usize)
        ensures
            r == live(self@).len(),
            r <= N,
    {
        proof {
            use_type_invariant(self);
        }
        let mut count: usize = 0;
        let mut i: usize = 0;
        while i < N
            invariant
                i <= N,
                count <= i,
                self.sockets@.len() == N,
                count == live(self@.take(i as int)).len(),
            decreases N - i,
        {
            proof {
                lemma_live_step(self@, i as int);
            }
            if self.sockets[i].is_some() {
                count = count + 1;
            }
            i = i + 1;
        }
        assert(self@.take(N as int) =~= self@);
        count
    }

    /// Check if the set is currently holding no active sockets
    pub fn is_empty(&self) -> (r: bool)
        ensures
            r == (live(self@).len() == 0),
    {
        self.len() == 0
    }

    /// Get the type of a specific socket in the set: that of the first
    /// socket with the handle, if there is one.
    ///
    /// Returned as a [`SocketType`]
    pub fn socket_type(&self, handle: Handle) -> (r: Option<SocketType>)
        ensures
            r == match index_of_handle(self@, handle) {
                Some(i) => Some(self@[i]->0.type_of()),
                None => None,
            },
    {
        if let Ok(index) = self.index_of(handle) {
            if let Some(socket) = &self.sockets[index] {
                return Some(socket.get_type());
            }
        }
        None
    }

    /// The first empty slot, if there is one.
    fn free_slot(&self) -> (r: Option<usize>)
        ensures
            self@.len() == N,
            match first_free(self@) {
                Some(i) => r == Some(i as usize) && is_first_free(self@, i),
                None => r is None,
            },
    {
        proof {
            use_type_invariant(self);
        }
        let mut i: usize = 0;
        while i < N
            invariant
                i <= N,
                self.sockets@.len() == N,
                forall|j: int| 0 <= j < i ==> (#[trigger] self@[j]) is Some,
            decreases N - i,
        {
            if self.sockets[i].is_none() {
                proof {
                    lemma_first_free(self@, i as int);
                }
                return Some(i);
            }
            i = i + 1;
        }
        assert(first_free(self@) is None) by {
            if exists|k: int| is_first_free(self@, k) {
                let k = choose|k: int| is_first_free(self@, k);
                assert(self@[k] is Some);
            }
        }
        None
    }

    /// Add a socket to the set, and return its handle.
    ///
    /// Fails with `DuplicateSocket` if a socket with the same handle is in
    /// the set, and otherwise with `SocketSetFull` if no slot is empty. The
    /// first empty slot takes the socket.
    pub fn add_socket(&mut self, socket: Socket<TIMER_HZ, L>) -> (r: Result<Handle, Error>)
        ensures
            r == add_result(old(self)@, socket),
            final(self)@ == after_add(old(self)@, socket),
            handles_unique(old(self)@) ==> handles_unique(final(self)@),
    {
        let handle = socket.handle();
        if self.index_of(handle).is_ok() {
            return Err(Error::DuplicateSocket);
        }
        match self.free_slot() {
            Some(index) => {
                proof {
                    if handles_unique(old(self)@) {
                        lemma_add_keeps_handles_unique(old(self)@, socket);
                    }
                }
                self.sockets[index] = Some(socket);
                Ok(handle)
            },
            None => Err(Error::SocketSetFull),
        }
    }

    /// Add a socket to the set, and return its handle.
    ///
    /// The socket is converted to a [`Socket`] and added as
    /// [`add_socket`](#method.add_socket) does.
    pub fn add<T>(&mut self, socket: T) -> (r: Result<Handle, Error>) where
        T: Into<Socket<TIMER_HZ, L>>,

        ensures
            exists|converted: Socket<TIMER_HZ, L>|
                {
                    &&& <T as IntoSpec<Socket<TIMER_HZ, L>>>::obeys_into_spec() ==> converted == socket.into_spec()
                    &&& r == #[trigger] add_result(old(self)@, converted)
                    &&& final(self)@ == after_add(old(self)@, converted)
                },
            handles_unique(old(self)@) ==> handles_unique(final(self)@),
    {
        let converted = socket.into();
        let r = self.add_socket(converted);
        assert(r == add_result(old(self)@, converted));
        r
    }

    /// Get a socket from the set by its handle, as mutable.
    ///
    /// Fails with `InvalidSocket` if no socket in the set has the handle, and
    /// with `Illegal` if the first socket with the handle is not of type `T`.
    /// What is done through the reference is done to the stored socket.
    pub fn get<T: AnySocket<TIMER_HZ, L>>(&mut self, handle: Handle) -> (r: Result<&mut T, Error>)
        ensures
            match index_of_handle(old(self)@, handle) {
                Some(i) => if T::held_by(old(self)@[i]->0) {
                    &&& r matches Ok(socket)
                    &&& *socket == T::inside(old(self)@[i]->0)
                    &&& final(self)@ == old(self)@.update(i, Some((*final(socket)).wrap()))
                } else {
                    &&& r matches Err(Error::Illegal)
                    &&& final(self)@ == old(self)@
                },
                None => {
                    &&& r matches Err(Error::InvalidSocket)
                    &&& final(self)@ == old(self)@
                },
            },
    {
        let index = match self.index_of(handle) {
            Ok(index) => index,
            Err(e) => {
                return Err(e);
            },
        };
        match &mut self.sockets[index] {
            Some(socket) => T::downcast(socket),
            None => Err(Error::InvalidSocket),
        }
    }

    /// Remove a socket from the set: the first one with the handle. Fails
    /// with `InvalidSocket` if no socket in the set has the handle.
    pub fn remove(&mut self, handle: Handle) -> (r: Result<(), Error>)
        ensures
            r == match index_of_handle(old(self)@, handle) {
                Some(_) => Ok::<(), Error>(()),
                None => Err::<(), Error>(Error::InvalidSocket),
            },
            final(self)@ == after_remove(old(self)@, handle),
            handles_unique(old(self)@) ==> handles_unique(final(self)@),
    {
        let index = match self.index_of(handle) {
            Ok(index) => index,
            Err(e) => {
                return Err(e);
            },
        };
        self.sockets[index] = None;
        Ok(())
    }

    /// Prune the sockets in this set.
    ///
    /// All sockets are removed and dropped.
    pub fn prune(&mut self)
        ensures
            final(self)@ == empty_slots::<TIMER_HZ, L>(N as nat),
    {
        proof {
            use_type_invariant(&*self);
        }
        let mut i: usize = 0;
        while i < N
            invariant
                i <= N,
                self.sockets@.len() == N,
                forall|j: int| 0 <= j < i ==> (#[trigger] self@[j]) is None,
            decreases N - i,
        {
            let ghost before = self@;
            self.sockets[i] = None;
            assert forall|j: int| 0 <= j < i + 1 implies (#[trigger] self@[j]) is None by {
                if j < i {
                    assert(before[j] is None);
                }
            }
            i = i + 1;
        }
        assert(self@ =~= empty_slots::<TIMER_HZ, L>(N as nat));
    }

    /// The handle of the first socket that may be reclaimed at `ts`, if
    /// there is one.
    fn stale_handle(&self, ts: Instant<TIMER_HZ>) -> (r: Option<Handle>)
        ensures
            self@.len() == N,
            match first_stale(self@, ts) {
                Some(i) => r == Some(self@[i]->0.handle_of()) && is_first_stale(self@, ts, i),
                None => r is None,
            },
    {
        proof {
            use_type_invariant(self);
        }
        let mut i: usize = 0;
        while i < N
            invariant
                i <= N,
                self.sockets@.len() == N,
                forall|j: int| 0 <= j < i ==> !holds_stale(#[trigger] self@[j], ts),
            decreases N - i,
        {
            if let Some(socket) = &self.sockets[i] {
                if socket.recycle(ts) {
                    proof {
                        lemma_first_stale(self@, ts, i as int);
                    }
                    return Some(socket.handle());
                }
            }
            i = i + 1;
        }
        assert(first_stale(self@, ts) is None) by {
            if exists|k: int| is_first_stale(self@, ts, k) {
                let k = choose|k: int| is_first_stale(self@, ts, k);
                assert(!holds_stale(self@[k], ts));
            }
        }
        None
    }

    /// Removes the first socket, in slot order, that may be reclaimed at
    /// `ts`, and says whether there was one. At most one socket leaves per
    /// call.
    pub fn recycle(&mut self, ts: Instant<TIMER_HZ>) -> (r: bool)
        ensures
            r == (first_stale(old(self)@, ts) is Some),
            final(self)@ == after_recycle(old(self)@, ts),
            handles_unique(old(self)@) ==> handles_unique(final(self)@),
    {
        let h = self.stale_handle(ts);
        match h {
            Some(handle) => {
                proof {
                    lemma_held_handle_is_found(self@, first_stale(self@, ts)->0);
                }
                self.remove(handle).is_ok()
            },
            None => false,
        }
    }

    /// Every socket in this set with its handle, in slot order.
    pub fn iter(&self) -> (r: Vec<(Handle, &Socket<TIMER_HZ, L>)>)
        ensures
            r@.len() == live(self@).len(),
            forall|k: int|
                0 <= k < r@.len() ==> *(#[trigger] r@[k]).1 == live(self@)[k] && r@[k].0 == live(
                    self@,
                )[k].handle_of(),
    {
        proof {
            use_type_invariant(self);
        }
        let mut found: Vec<(Handle, &Socket<TIMER_HZ, L>)> = Vec::new();
        let mut i: usize = 0;
        while i < N
            invariant
                i <= N,
                self.sockets@.len() == N,
                found@.len() == live(self@.take(i as int)).len(),
                forall|k: int|
                    0 <= k < found@.len() ==> *(#[trigger] found@[k]).1 == live(
                        self@.take(i as int),
                    )[k] && found@[k].0 == live(self@.take(i as int))[k].handle_of(),
            decreases N - i,
        {
            proof {
                lemma_live_step(self@, i as int);
            }
            if let Some(socket) = &self.sockets[i] {
                found.push((Handle(socket.handle().0), socket));
            }
            i = i + 1;
        }
        assert(self@.take(N as int) =~= self@);
        found
    }

    /// The socket at place `position` among the sockets in this set, counted
    /// from zero in slot order, with its handle, as mutable; nothing if the
    /// set holds no more than `position` sockets. What is done through the
    /// reference is done to the stored socket.
    pub fn iter_mut(&mut self, position: usize) -> (r: Option<(Handle, &mut Socket<TIMER_HZ, L>)>)
        ensures
            r is Some <==> position < live(old(self)@).len(),
            r is None ==> final(self)@ == old(self)@,
            r matches Some((handle, socket)) ==> {
                &&& *socket == live(old(self)@)[position as int]
                &&& handle == socket.handle_of()
                &&& exists|i: int|
                    {
                        &&& 0 <= i < N
                        &&& (#[trigger] old(self)@[i]) is Some
                        &&& live(old(self)@.take(i)).len() == position
                        &&& final(self)@ == old(self)@.update(i, Some(*final(socket)))
                    }
            },
    {
        proof {
            use_type_invariant(&*self);
        }
        let mut count: usize = 0;
        let mut i: usize = 0;
        while i < N
            invariant
                i <= N,
                count <= i,
                count <= position,
                *self == *old(self),
                self.sockets@.len() == N,
                count == live(self@.take(i as int)).len(),
            ensures
                i < N ==> self@[i as int] is Some && count == position,
            decreases N - i,
        {
            proof {
                lemma_live_step(self@, i as int);
                lemma_live_prefix(self@, i as int);
                lemma_live_prefix(self@, i as int + 1);
            }
            if self.sockets[i].is_some() {
                if count == position {
                    break ;
                }
                count = count + 1;
            }
            i = i + 1;
        }
        if i >= N {
            assert(self@.take(N as int) =~= self@);
            return None;
        }
        proof {
            lemma_live_step(self@, i as int);
            lemma_live_prefix(self@, i as int);
            lemma_live_prefix(self@, i as int + 1);
            lemma_live_at(self@, i as int);
        }
        match &mut self.sockets[i] {
            Some(socket) => Some((Handle(socket.handle().0), socket)),
            None => None,
        }
    }
}

/// The first slot that holds a handle is the only answer to where the handle
/// is first held.
pub proof fn lemma_index_of_handle<const TIMER_HZ: u32, const L: usize>(
    slots: Seq<Option<Socket<TIMER_HZ, L>>>,
    handle: Handle,
    i: int,
)
    requires
        is_first_holding(slots, handle, i),
    ensures
        index_of_handle(slots, handle) == Some(i),
{
    let c = choose|c: int| is_first_holding(slots, handle, c);
    assert(is_first_holding(slots, handle, c));
    if c < i {
        assert(!holds(slots[c], handle));
    }
    if i < c {
        assert(!holds(slots[i], handle));
    }
}

/// The first empty slot is the only answer to where the first empty slot is.
pub proof fn lemma_first_free<const TIMER_HZ: u32, const L: usize>(
    slots: Seq<Option<Socket<TIMER_HZ, L>>>,
    i: int,
)
    requires
        is_first_free(slots, i),
    ensures
        first_free(slots) == Some(i),
{
    let c = choose|c: int| is_first_free(slots, c);
    assert(is_first_free(slots, c));
    if c < i {
        assert(slots[c] is Some);
    }
    if i < c {
        assert(slots[i] is Some);
    }
}

/// The first slot with a socket that may be reclaimed is the only answer to
/// where the first such slot is.
pub proof fn lemma_first_stale<const TIMER_HZ: u32, const L: usize>(
    slots: Seq<Option<Socket<TIMER_HZ, L>>>,
    ts: Instant<TIMER_HZ>,
    i: int,
)
    requires
        is_first_stale(slots, ts, i),
    ensures
        first_stale(slots, ts) == Some(i),
{
    let c = choose|c: int| is_first_stale(slots, ts, c);
    assert(is_first_stale(slots, ts, c));
    if c < i {
        assert(!holds_stale(slots[c], ts));
    }
    if i < c {
        assert(!holds_stale(slots[i], ts));
    }
}

/// The sockets stored in the first `i + 1` slots are those stored in the
/// first `i` slots, followed by the socket in slot `i` if there is one.
pub proof fn lemma_live_step<const TIMER_HZ: u32, const L: usize>(
    slots: Seq<Option<Socket<TIMER_HZ, L>>>,
    i: int,
)
    requires
        0 <= i < slots.len(),
    ensures
        live(slots.take(i + 1)) == match slots[i] {
            Some(socket) => live(slots.take(i)).push(socket),
            None => live(slots.take(i)),
        },
{
    assert(slots.take(i + 1).drop_last() =~= slots.take(i));
}

/// Fewer sockets are stored in the first `i` slots than in the first
/// `i + 1` slots and in all slots, if slot `i` stores one.
pub proof fn lemma_live_prefix<const TIMER_HZ: u32, const L: usize>(
    slots: Seq<Option<Socket<TIMER_HZ, L>>>,
    i: int,
)
    requires
        0 <= i <= slots.len(),
    ensures
        live(slots.take(i)).len() <= live(slots).len(),
        i < slots.len() && slots[i] is Some ==> live(slots.take(i)).len() < live(slots).len(),
    decreases slots.len() - i,
{
    if i == slots.len() {
        assert(slots.take(i) =~= slots);
    } else {
        lemma_live_step(slots, i);
        lemma_live_prefix(slots, i + 1);
    }
}

/// The socket in an occupied slot `i` stands, among the stored sockets, at
/// the place given by the number of sockets stored before slot `i`.
pub proof fn lemma_live_at<const TIMER_HZ: u32, const L: usize>(
    slots: Seq<Option<Socket<TIMER_HZ, L>>>,
    i: int,
)
    requires
        0 <= i < slots.len(),
        slots[i] is Some,
    ensures
        live(slots.take(i)).len() < live(slots).len(),
        live(slots)[live(slots.take(i)).len() as int] == slots[i]->0,
    decreases slots.len(),
{
    let rest = slots.drop_last();
    if i == slots.len() - 1 {
        assert(slots.take(i) =~= rest);
    } else {
        lemma_live_at(rest, i);
        assert(rest.take(i) =~= slots.take(i));
    }
}

/// A slot that stores a socket shows that the socket's handle is found in
/// the slots.
pub proof fn lemma_held_handle_is_found<const TIMER_HZ: u32, const L: usize>(
    slots: Seq<Option<Socket<TIMER_HZ, L>>>,
    i: int,
)
    requires
        0 <= i < slots.len(),
        slots[i] is Some,
    ensures
        index_of_handle(slots, slots[i]->0.handle_of()) is Some,
        index_of_handle(slots, slots[i]->0.handle_of())->0 <= i,
        handles_unique(slots) ==> index_of_handle(slots, slots[i]->0.handle_of()) == Some(i),
    decreases i,
{
    let handle = slots[i]->0.handle_of();
    if exists|j: int| 0 <= j < i && holds(slots[j], handle) {
        let j = choose|j: int| 0 <= j < i && holds(slots[j], handle);
        lemma_held_handle_is_found(slots, j);
    } else {
        assert(is_first_holding(slots, handle, i));
        lemma_index_of_handle(slots, handle, i);
    }
}

/// Adding a socket to slots in which no handle occurs twice leaves slots in
/// which no handle occurs twice.
pub proof fn lemma_add_keeps_handles_unique<const TIMER_HZ: u32, const L: usize>(
    slots: Seq<Option<Socket<TIMER_HZ, L>>>,
    socket: Socket<TIMER_HZ, L>,
)
    requires
        handles_unique(slots),
    ensures
        handles_unique(after_add(slots, socket)),
{
    if add_result(slots, socket) is Ok {
        let at = first_free(slots)->0;
        let after = after_add(slots, socket);
        assert(is_first_free(slots, at));
        assert forall|i: int, j: int|
            0 <= i < after.len() && 0 <= j < after.len() && i != j && (#[trigger] after[i]) is Some
                && (#[trigger] after[j]) is Some implies after[i]->0.handle_of()
            != after[j]->0.handle_of() by {
            if i == at {
                assert(slots[j] is Some);
                if slots[j]->0.handle_of() == socket.handle_of() {
                    lemma_held_handle_is_found(slots, j);
                }
            } else if j == at {
                assert(slots[i] is Some);
                if slots[i]->0.handle_of() == socket.handle_of() {
                    lemma_held_handle_is_found(slots, i);
                }
            } else {
                assert(slots[i] is Some && slots[j] is Some);
            }
        }
    }
}

/// Removing a handle from slots in which no handle occurs twice leaves
/// slots in which no handle occurs twice, and in which the handle is no
/// longer found.
pub proof fn lemma_remove_keeps_handles_unique<const TIMER_HZ: u32, const L: usize>(
    slots: Seq<Option<Socket<TIMER_HZ, L>>>,
    handle: Handle,
)
    requires
        handles_unique(slots),
    ensures
        handles_unique(after_remove(slots, handle)),
        index_of_handle(after_remove(slots, handle), handle) is None,
{
    let after = after_remove(slots, handle);
    assert forall|i: int, j: int|
        0 <= i < after.len() && 0 <= j < after.len() && i != j && (#[trigger] after[i]) is Some
            && (#[trigger] after[j]) is Some implies after[i]->0.handle_of()
        != after[j]->0.handle_of() by {
        assert(slots[i] is Some && slots[j] is Some);
    }
    if exists|k: int| is_first_holding(after, handle, k) {
        let k = choose|k: int| is_first_holding(after, handle, k);
        assert(holds(slots[k], handle));
        lemma_held_handle_is_found(slots, k);
        assert(index_of_handle(slots, handle) == Some(k));
        assert(after[k] is None);
    }
}

/// One change to a set of sockets: a socket offered to it, or a handle to
/// be removed from it.
pub enum SetStep<const TIMER_HZ: u32, const L: usize> {
    Add(Socket<TIMER_HZ, L>),
    Remove(Handle),
}

/// The slots of a set of `n` slots that started empty, after `steps`.
pub open spec fn slots_after<const TIMER_HZ: u32, const L: usize>(
    n: nat,
    steps: Seq<SetStep<TIMER_HZ, L>>,
) -> Seq<Option<Socket<TIMER_HZ, L>>>
    decreases steps.len(),
{
    if steps.len() == 0 {
        empty_slots(n)
    } else {
        match steps.last() {
            SetStep::Add(socket) => after_add(slots_after(n, steps.drop_last()), socket),
            SetStep::Remove(handle) => after_remove(slots_after(n, steps.drop_last()), handle),
        }
    }
}

/// Whatever sockets are added to and whatever handles are removed from a
/// set that started empty, in whatever order, no two sockets in the set
/// have the same handle, and the set keeps its number of slots.
pub proof fn lemma_handles_stay_unique<const TIMER_HZ: u32, const L: usize>(
    n: nat,
    steps: Seq<SetStep<TIMER_HZ, L>>,
)
    ensures
        handles_unique(slots_after(n, steps)),
        slots_after(n, steps).len() == n,
    decreases steps.len(),
{
    if steps.len() > 0 {
        let before = slots_after(n, steps.drop_last());
        lemma_handles_stay_unique(n, steps.drop_last());
        match steps.last() {
            SetStep::Add(socket) => {
                lemma_add_keeps_handles_unique(before, socket);
            },
            SetStep::Remove(handle) => {
                lemma_remove_keeps_handles_unique(before, handle);
            },
        }
    }
}

/// Adding a socket whose handle is in the set already fails with
/// `DuplicateSocket` and leaves the set as it was.
pub proof fn lemma_duplicate_is_refused<const TIMER_HZ: u32, const L: usize>(
    slots: Seq<Option<Socket<TIMER_HZ, L>>>,
    socket: Socket<TIMER_HZ, L>,
    i: int,
)
    requires
        0 <= i < slots.len(),
        holds(slots[i], socket.handle_of()),
    ensures
        add_result(slots, socket) == Err::<Handle, Error>(Error::DuplicateSocket),
        after_add(slots, socket) == slots,
{
    lemma_held_handle_is_found(slots, i);
}

/// Where as many sockets are stored as there are slots, every slot stores
/// one.
pub proof fn lemma_full_has_no_free_slot<const TIMER_HZ: u32, const L: usize>(
    slots: Seq<Option<Socket<TIMER_HZ, L>>>,
)
    requires
        live(slots).len() == slots.len(),
    ensures
        forall|i: int| 0 <= i < slots.len() ==> (#[trigger] slots[i]) is Some,
        first_free(slots) is None,
    decreases slots.len(),
{
    if slots.len() > 0 {
        let rest = slots.drop_last();
        lemma_live_bounded(rest);
        lemma_full_has_no_free_slot(rest);
        assert forall|i: int| 0 <= i < slots.len() implies (#[trigger] slots[i]) is Some by {
            if i < rest.len() {
                assert(rest[i] is Some);
            }
        }
    }
    if exists|k: int| is_first_free(slots, k) {
        let k = choose|k: int| is_first_free(slots, k);
        assert(slots[k] is Some);
    }
}

/// No more sockets are stored than there are slots.
pub proof fn lemma_live_bounded<const TIMER_HZ: u32, const L: usize>(
    slots: Seq<Option<Socket<TIMER_HZ, L>>>,
)
    ensures
        live(slots).len() <= slots.len(),
    decreases slots.len(),
{
    if slots.len() > 0 {
        lemma_live_bounded(slots.drop_last());
    }
}

/// Adding to a set that holds as many sockets as it has slots a socket
/// whose handle is not in the set fails with `SocketSetFull` and leaves the
/// set as it was.
pub proof fn lemma_full_set_refuses<const TIMER_HZ: u32, const L: usize>(
    slots: Seq<Option<Socket<TIMER_HZ, L>>>,
    socket: Socket<TIMER_HZ, L>,
)
    requires
        live(slots).len() == slots.len(),
        index_of_handle(slots, socket.handle_of()) is None,
    ensures
        add_result(slots, socket) == Err::<Handle, Error>(Error::SocketSetFull),
        after_add(slots, socket) == slots,
{
    lemma_full_has_no_free_slot(slots);
}

/// After a socket was removed from a set that held as many sockets as it
/// has slots, adding a socket whose handle is not in what remains succeeds
/// and puts it into the slot that was freed.
pub proof fn lemma_freed_slot_is_reused<const TIMER_HZ: u32, const L: usize>(
    slots: Seq<Option<Socket<TIMER_HZ, L>>>,
    handle: Handle,
    socket: Socket<TIMER_HZ, L>,
)
    requires
        live(slots).len() == slots.len(),
        index_of_handle(slots, handle) is Some,
        index_of_handle(after_remove(slots, handle), socket.handle_of()) is None,
    ensures
        add_result(after_remove(slots, handle), socket) == Ok::<Handle, Error>(socket.handle_of()),
        after_add(after_remove(slots, handle), socket) == slots.update(
            index_of_handle(slots, handle)->0,
            Some(socket),
        ),
{
    lemma_full_has_no_free_slot(slots);
    let at = index_of_handle(slots, handle)->0;
    assert(is_first_holding(slots, handle, at));
    let freed = after_remove(slots, handle);
    assert(is_first_free(freed, at)) by {
        assert forall|j: int| 0 <= j < at implies (#[trigger] freed[j]) is Some by {
            assert(slots[j] is Some);
        }
    }
    lemma_first_free(freed, at);
    assert(freed.update(at, Some(socket)) =~= slots.update(at, Some(socket)));
}

} // verus!
