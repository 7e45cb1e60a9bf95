use crate::Error;
use vstd::prelude::*;

verus! {

/// A fixed-capacity circular buffer of `N` elements.
///
/// The view is the queued elements, oldest first. Where the oldest element
/// lies in the storage decides how much can be read in one contiguous piece;
/// [`RingBuffer::read_at`] gives that position.
pub struct RingBuffer<T, const N: usize> {
    storage: Vec<T>,
    read_at: usize,
    length: usize,
}

impl<T, const N: usize> View for RingBuffer<T, N> {
    type V = Seq<T>;

    closed spec fn view(&self) -> Seq<T> {
        Seq::new(
            self.length as nat,
            |i: int| self.storage@[wrapped(N as nat, (self.read_at + i) as nat) as int],
        )
    }
}

/// The number of elements accepted when `offered` elements are enqueued into a
/// buffer of capacity `capacity` that holds `len`.
pub open spec fn accepted(capacity: nat, len: nat, offered: nat) -> nat {
    if offered <= capacity - len {
        offered
    } else {
        (capacity - len) as nat
    }
}

/// The smaller of two numbers.
pub open spec fn least(a: nat, b: nat) -> nat {
    if a <= b {
        a
    } else {
        b
    }
}

/// The length of the first contiguous run of queued elements in a buffer of
/// capacity `capacity` that holds `len` elements starting at `read_at`.
pub open spec fn first_run(capacity: nat, read_at: nat, len: nat) -> nat {
    least(len, (capacity - read_at) as nat)
}

/// What a buffer of capacity `capacity` holds after `data` was offered to it
/// while it held `queued`: the elements that fit are appended in order.
pub open spec fn enqueued<T>(capacity: nat, queued: Seq<T>, data: Seq<T>) -> Seq<T> {
    queued + data.take(accepted(capacity, queued.len(), data.len()) as int)
}

/// What leaves a buffer that holds `queued` when room for `room` elements is
/// offered: the oldest elements, in order.
pub open spec fn dequeued<T>(queued: Seq<T>, room: nat) -> Seq<T> {
    queued.take(least(room, queued.len()) as int)
}

/// What stays in a buffer that holds `queued` when room for `room` elements
/// is offered.
pub open spec fn remaining<T>(queued: Seq<T>, room: nat) -> Seq<T> {
    queued.skip(least(room, queued.len()) as int)
}

/// A storage position brought back into a storage of `capacity` elements,
/// for a position that has passed the end at most once.
pub open spec fn wrapped(capacity: nat, position: nat) -> nat {
    if position >= capacity {
        (position - capacity) as nat
    } else {
        position
    }
}

/// The read position once the next element enters a buffer that holds `len`
/// elements: an empty buffer starts again at the front of its storage.
pub open spec fn rebased(read_at: nat, len: nat) -> nat {
    if len == 0 {
        0
    } else {
        read_at
    }
}

/// The length of the contiguous run that a peek of `size` elements at
/// `offset` can return.
pub open spec fn allocated_run(capacity: nat, read_at: nat, len: nat, offset: nat, size: nat) -> nat {
    if offset > len {
        0
    } else {
        least(
            least(size, (len - offset) as nat),
            (capacity - wrapped(capacity, read_at + offset)) as nat,
        )
    }
}

impl<T, const N: usize> RingBuffer<T, N> {
    #[verifier::type_invariant]
    closed spec fn inv(&self) -> bool {
        &&& self.storage@.len() == N
        &&& self.length <= N
        &&& (self.read_at < N || (N == 0 && self.read_at == 0))
    }

    /// The storage index of the oldest queued element.
    pub closed spec fn read_at(&self) -> nat {
        self.read_at as nat
    }

    /// Creates an empty buffer.
    pub fn new() -> (r: Self) where T: Default
        ensures
            r@ == Seq::<T>::empty(),
            r.read_at() == 0,
    {
        let mut storage: Vec<T> = Vec::new();
        while storage.len() < N
            invariant
                storage@.len() <= N,
            decreases N - storage@.len(),
        {
            storage.push(T::default());
        }
        let r = RingBuffer { storage, read_at: 0, length: 0 };
        assert(r@ =~= Seq::<T>::empty());
        r
    }

    /// Discards every queued element.
    pub fn clear(&mut self)
        ensures
            final(self)@ == Seq::<T>::empty(),
            final(self).read_at() == 0,
    {
        proof {
            use_type_invariant(&*self);
        }
        self.read_at = 0;
        self.length = 0;
        assert(self@ =~= Seq::<T>::empty());
    }

    /// The maximum number of elements the buffer can hold.
    pub fn capacity(&self) -> (r: usize)
        ensures
            r == N,
    {
        N
    }

    /// The number of queued elements.
    pub fn len(&self) -> (r: usize)
        ensures
            r == self@.len(),
            r <= N,
            self.read_at() < N || (N == 0 && self.read_at() == 0),
    {
        proof {
            use_type_invariant(self);
        }
        self.length
    }

    /// The number of elements that can still be enqueued.
    pub fn window(&self) -> (r: usize)
        ensures
            r + self@.len() == N,
    {
        proof {
            use_type_invariant(self);
        }
        N - self.length
    }

    /// Whether nothing is queued.
    pub fn is_empty(&self) -> (r: bool)
        ensures
            r == (self@.len() == 0),
    {
        self.length == 0
    }

    /// Whether nothing more can be enqueued.
    pub fn is_full(&self) -> (r: bool)
        ensures
            r == (self@.len() == N),
    {
        proof {
            use_type_invariant(self);
        }
        self.length == N
    }

    /// The first contiguous run of queued elements.
    pub open spec fn first_span(&self) -> Seq<T> {
        self@.take(first_run(N as nat, self.read_at(), self@.len()) as int)
    }

    /// The queued elements that lie past the physical end of the storage.
    pub open spec fn second_span(&self) -> Seq<T> {
        self@.skip(first_run(N as nat, self.read_at(), self@.len()) as int)
    }

    /// The storage index of the queued element at `offset`.
    fn index_at(&self, offset: usize) -> (r: usize)
        requires
            offset <= N,
        ensures
            r == wrapped(N as nat, (self.read_at + offset) as nat),
            self.storage@.len() == N,
            self.length <= N,
            offset < N ==> r < N,
    {
        proof {
            use_type_invariant(self);
        }
        if offset >= N - self.read_at {
            offset - (N - self.read_at)
        } else {
            self.read_at + offset
        }
    }

    /// Calls `f` with the first contiguous run of queued elements and removes
    /// as many elements as `f` reports in the first part of its result, or the
    /// whole run if `f` reports more than it was shown. Returns the number
    /// removed and the second part of what `f` returned.
    pub fn dequeue_many_with<'b, R, F>(&'b mut self, f: F) -> (r: (usize, R)) where
        F: FnOnce(&'b [T]) -> (usize, R),

        requires
            forall|span: &[T]| span@ == old(self).first_span() ==> call_requires(f, (span,)),
        ensures
            exists|span: &[T], claimed: usize|
                span@ == old(self).first_span() && #[trigger] call_ensures(
                    f,
                    (span,),
                    (claimed, r.1),
                ) && r.0 == least(claimed as nat, span@.len()),
            final(self)@ == old(self)@.skip(r.0 as int),
            final(self).read_at() == wrapped(N as nat, (old(self).read_at() + r.0) as nat),
    {
        proof {
            use_type_invariant(&*self);
        }
        let until_end = N - self.read_at;
        let run = if self.length <= until_end {
            self.length
        } else {
            until_end
        };
        let span = vstd::slice::slice_subrange(
            self.storage.as_slice(),
            self.read_at,
            self.read_at + run,
        );
        assert(span@ =~= old(self).first_span());
        let (claimed, result) = f(span);
        let size = if claimed <= run {
            claimed
        } else {
            run
        };
        let next = if size >= until_end {
            size - until_end
        } else {
            self.read_at + size
        };
        self.read_at = next;
        self.length = self.length - size;
        assert(self@ =~= old(self)@.skip(size as int));
        let r = (size, result);
        assert(call_ensures(f, (span,), (claimed, r.1)));
        r
    }

    /// Calls `f` with the first contiguous run of queued elements and, where
    /// the queued elements pass the physical end of the storage, with the rest
    /// of them, so that both together are everything queued. Removes as many
    /// elements as `f` reports in the first part of its result, or all of
    /// them if `f` reports more than it was shown. Returns the number removed
    /// and the second part of what `f` returned.
    pub fn dequeue_many_with_wrapping<'b, R, F>(&'b mut self, f: F) -> (r: (usize, R)) where
        F: FnOnce(&'b [T], Option<&'b [T]>) -> (usize, R),

        requires
            forall|first: &[T], second: Option<&[T]>|
                first@ == old(self).first_span() && (second matches Some(rest) ==> rest@ == old(
                    self,
                ).second_span()) && (second is Some <==> old(self).second_span().len() > 0)
                    ==> call_requires(f, (first, second)),
        ensures
            exists|first: &[T], second: Option<&[T]>, claimed: usize|
                first@ == old(self).first_span() && (second matches Some(rest) ==> rest@ == old(
                    self,
                ).second_span()) && (second is Some <==> old(self).second_span().len() > 0)
                    && #[trigger] call_ensures(f, (first, second), (claimed, r.1)) && r.0 == least(
                    claimed as nat,
                    old(self)@.len(),
                ),
            final(self)@ == old(self)@.skip(r.0 as int),
            final(self).read_at() == wrapped(N as nat, (old(self).read_at() + r.0) as nat),
    {
        proof {
            use_type_invariant(&*self);
        }
        let until_end = N - self.read_at;
        let run = if self.length <= until_end {
            self.length
        } else {
            until_end
        };
        let rest = self.length - run;
        let storage = self.storage.as_slice();
        let first = vstd::slice::slice_subrange(storage, self.read_at, self.read_at + run);
        assert(first@ =~= old(self).first_span());
        let second = if rest != 0 {
            let wrapped_part = vstd::slice::slice_subrange(storage, 0, rest);
            assert(wrapped_part@ =~= old(self).second_span());
            Some(wrapped_part)
        } else {
            None
        };
        let (claimed, result) = f(first, second);
        let size = if claimed <= self.length {
            claimed
        } else {
            self.length
        };
        let next = if size >= until_end {
            size - until_end
        } else {
            self.read_at + size
        };
        self.read_at = next;
        self.length = self.length - size;
        assert(self@ =~= old(self)@.skip(size as int));
        let r = (size, result);
        assert(call_ensures(f, (first, second), (claimed, r.1)));
        r
    }

    /// Returns, without removing anything, the contiguous run of up to `size`
    /// queued elements that starts `offset` elements after the oldest one. The
    /// run ends where the queued elements end and where the storage ends,
    /// whichever comes first; it is empty if `offset` is past what is queued.
    pub fn get_allocated(&self, offset: usize, size: usize) -> (r: &[T])
        ensures
            r@.len() == allocated_run(
                N as nat,
                self.read_at(),
                self@.len(),
                offset as nat,
                size as nat,
            ),
            offset <= self@.len() ==> r@ == self@.subrange(offset as int, offset + r@.len()),
    {
        proof {
            use_type_invariant(self);
        }
        let storage = self.storage.as_slice();
        if offset > self.length {
            return vstd::slice::slice_subrange(storage, 0, 0);
        }
        let start_at = self.index_at(offset);
        let mut size = size;
        let clamped = self.length - offset;
        if clamped < size {
            size = clamped;
        }
        let until_end = N - start_at;
        if until_end < size {
            size = until_end;
        }
        let r = vstd::slice::slice_subrange(storage, start_at, start_at + size);
        assert(r@ =~= self@.subrange(offset as int, offset + size));
        r
    }
}

impl<T: Copy, const N: usize> RingBuffer<T, N> {
    /// Enqueues one element, or fails with `Exhausted` if the buffer is full.
    pub fn enqueue_one(&mut self, value: T) -> (r: Result<(), Error>)
        ensures
            r is Ok <==> old(self)@.len() < N,
            r is Ok ==> final(self)@ == old(self)@.push(value) && final(self).read_at() == rebased(
                old(self).read_at(),
                old(self)@.len(),
            ),
            r is Err ==> r == Err::<(), Error>(Error::Exhausted) && final(self)@ == old(self)@
                && final(self).read_at() == old(self).read_at(),
    {
        proof {
            use_type_invariant(&*self);
        }
        if self.length == N {
            return Err(Error::Exhausted);
        }
        if self.length == 0 {
            self.read_at = 0;
        }
        let at = self.index_at(self.length);
        self.storage[at] = value;
        self.length = self.length + 1;
        assert(self@ =~= old(self)@.push(value));
        Ok(())
    }

    /// Dequeues the oldest element, or fails with `Exhausted` if the buffer is
    /// empty.
    pub fn dequeue_one(&mut self) -> (r: Result<T, Error>)
        ensures
            r is Ok <==> old(self)@.len() > 0,
            r matches Ok(value) ==> value == old(self)@[0] && final(self)@ == old(self)@.skip(1)
                && final(self).read_at() == wrapped(N as nat, old(self).read_at() + 1),
            r is Err ==> r == Err::<T, Error>(Error::Exhausted) && final(self)@ == old(self)@
                && final(self).read_at() == old(self).read_at(),
    {
        proof {
            use_type_invariant(&*self);
        }
        if self.length == 0 {
            return Err(Error::Exhausted);
        }
        let value = self.storage[self.read_at];
        let next = self.index_at(1);
        self.read_at = next;
        self.length = self.length - 1;
        assert(self@ =~= old(self)@.skip(1));
        Ok(value)
    }

    /// Enqueues as many elements of `data` as fit, in order, and returns how
    /// many were taken. What does not fit is left out.
    pub fn enqueue_slice(&mut self, data: &[T]) -> (n: usize)
        ensures
            n == accepted(N as nat, old(self)@.len(), data@.len()),
            final(self)@ == enqueued(N as nat, old(self)@, data@),
            final(self).read_at() == rebased(old(self).read_at(), old(self)@.len()),
    {
        proof {
            use_type_invariant(&*self);
        }
        if self.length == 0 {
            self.read_at = 0;
        }
        let window = N - self.length;
        let n = if data.len() <= window {
            data.len()
        } else {
            window
        };
        let ghost before = self@;
        let ghost start = self.length;
        let ghost read = self.read_at;
        assert(before =~= old(self)@);
        let mut i: usize = 0;
        while i < n
            invariant
                i <= n,
                n <= data@.len(),
                start + n <= N,
                self.read_at == read,
                self.length == start + i,
                self.storage@.len() == N,
                read < N || (N == 0 && read == 0),
                self@ =~= before + data@.take(i as int),
            decreases n - i,
        {
            let at = self.index_at(self.length);
            let ghost prior = self@;
            self.storage[at] = data[i];
            self.length = self.length + 1;
            i = i + 1;
            assert(self@ =~= prior.push(data@[i - 1]));
            assert(data@.take(i as int) =~= data@.take(i - 1).push(data@[i - 1]));
        }
        n
    }

    /// Dequeues up to `out.len()` elements into the front of `out`, oldest
    /// first, and returns how many were copied.
    pub fn dequeue_slice(&mut self, out: &mut [T]) -> (n: usize)
        ensures
            n == least(old(out)@.len(), old(self)@.len()),
            final(out)@ == dequeued(old(self)@, old(out)@.len()) + old(out)@.skip(n as int),
            final(self)@ == remaining(old(self)@, old(out)@.len()),
            final(self).read_at() == wrapped(N as nat, (old(self).read_at() + n) as nat),
    {
        proof {
            use_type_invariant(&*self);
        }
        let n = if out.len() <= self.length {
            out.len()
        } else {
            self.length
        };
        let mut i: usize = 0;
        while i < n
            invariant
                i <= n,
                n <= self.length,
                n <= out@.len(),
                out@.len() == old(out)@.len(),
                *self == *old(self),
                self.storage@.len() == N,
                self.length <= N,
                out@ =~= old(self)@.take(i as int) + old(out)@.skip(i as int),
            decreases n - i,
        {
            let at = self.index_at(i);
            out[i] = self.storage[at];
            i = i + 1;
        }
        let next = self.index_at(n);
        self.read_at = next;
        self.length = self.length - n;
        assert(self@ =~= old(self)@.skip(n as int));
        n
    }
}

/// One use of a buffer: a slice offered to it, or room offered to read into.
pub enum Step<T> {
    Enqueue(Seq<T>),
    Dequeue(nat),
}

/// Everything offered by the enqueue steps of `steps`, in order.
pub open spec fn all_offered<T>(steps: Seq<Step<T>>) -> Seq<T>
    decreases steps.len(),
{
    if steps.len() == 0 {
        Seq::empty()
    } else {
        match steps.last() {
            Step::Enqueue(data) => all_offered(steps.drop_last()) + data,
            Step::Dequeue(_) => all_offered(steps.drop_last()),
        }
    }
}

/// What a buffer of capacity `capacity` that started empty holds after `steps`.
pub open spec fn held_after<T>(capacity: nat, steps: Seq<Step<T>>) -> Seq<T>
    decreases steps.len(),
{
    if steps.len() == 0 {
        Seq::empty()
    } else {
        match steps.last() {
            Step::Enqueue(data) => enqueued(capacity, held_after(capacity, steps.drop_last()), data),
            Step::Dequeue(room) => remaining(held_after(capacity, steps.drop_last()), room),
        }
    }
}

/// Everything that the dequeue steps of `steps` took out of a buffer of
/// capacity `capacity` that started empty, in order.
pub open spec fn all_dequeued<T>(capacity: nat, steps: Seq<Step<T>>) -> Seq<T>
    decreases steps.len(),
{
    if steps.len() == 0 {
        Seq::empty()
    } else {
        match steps.last() {
            Step::Enqueue(_) => all_dequeued(capacity, steps.drop_last()),
            Step::Dequeue(room) => all_dequeued(capacity, steps.drop_last()) + dequeued(
                held_after(capacity, steps.drop_last()),
                room,
            ),
        }
    }
}

/// Whatever way enqueues and dequeues are interleaved, as long as all that is
/// offered fits the capacity, nothing is lost or reordered: what has been
/// dequeued, followed by what is still held, is what was offered. Once the
/// buffer is empty again, the elements dequeued are the elements enqueued.
pub proof fn lemma_round_trip<T>(capacity: nat, steps: Seq<Step<T>>)
    requires
        all_offered(steps).len() <= capacity,
    ensures
        all_dequeued(capacity, steps) + held_after(capacity, steps) == all_offered(steps),
        held_after(capacity, steps).len() == 0 ==> all_dequeued(capacity, steps) == all_offered(
            steps,
        ),
    decreases steps.len(),
{
    if steps.len() == 0 {
        assert(all_dequeued(capacity, steps) + held_after(capacity, steps) =~= all_offered(steps));
    } else {
        let before = steps.drop_last();
        match steps.last() {
            Step::Enqueue(data) => {
                assert(all_offered(before).len() <= all_offered(steps).len());
                lemma_round_trip(capacity, before);
                let held = held_after(capacity, before);
                assert(all_offered(before).len() == all_dequeued(capacity, before).len()
                    + held.len());
                assert(data.take(data.len() as int) =~= data);
                assert(all_dequeued(capacity, steps) + held_after(capacity, steps) =~= all_offered(
                    steps,
                ));
            },
            Step::Dequeue(room) => {
                lemma_round_trip(capacity, before);
                assert(all_dequeued(capacity, steps) + held_after(capacity, steps) =~= all_offered(
                    steps,
                ));
            },
        }
    }
    assert(held_after(capacity, steps).len() == 0 ==> all_dequeued(capacity, steps) =~= all_offered(
        steps,
    ));
}

} // verus!
