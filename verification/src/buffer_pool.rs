//! A pool of reusable buffers.

use crossbeam_queue::ArrayQueue;
use vstd::prelude::*;

verus! {

/// Bytes in a pooled buffer.
pub const BUFFER_SIZE: usize = 32 * 1024;

/// The bounded queue of `crossbeam_queue`.
#[verifier::external_type_specification]
#[verifier::external_body]
#[verifier::reject_recursive_types(T)]
pub struct ExArrayQueue<T>(crossbeam_queue::ArrayQueue<T>);

/// The buffers that a queue holds, the one that leaves first in front.
pub uninterp spec fn queued(queue: ArrayQueue<Vec<u8>>) -> Seq<Seq<u8>>;

/// The number of buffers that a queue can hold.
pub uninterp spec fn queue_capacity(queue: ArrayQueue<Vec<u8>>) -> nat;

/// `ArrayQueue::new`: an empty queue of this capacity.  It panics for a
/// capacity of zero, and where the slots do not fit into the address space.
#[verifier::external_body]
fn queue_new(capacity: usize) -> (queue: ArrayQueue<Vec<u8>>)
    requires
        0 < capacity,
        capacity * BUFFER_SIZE <= isize::MAX,
    ensures
        queued(queue) == Seq::<Seq<u8>>::empty(),
        queue_capacity(queue) == capacity,
{
    ArrayQueue::new(capacity)
}

/// `ArrayQueue::push`, by an owner that nobody else shares the queue with: a
/// queue with room takes the buffer in behind all others, a full queue hands it
/// back.
#[verifier::external_body]
fn queue_push(queue: &mut ArrayQueue<Vec<u8>>, buffer: Vec<u8>) -> (r: Result<(), Vec<u8>>)
    ensures
        queue_capacity(*final(queue)) == queue_capacity(*old(queue)),
        r is Ok <==> queued(*old(queue)).len() < queue_capacity(*old(queue)),
        r is Ok ==> queued(*final(queue)) == queued(*old(queue)).push(buffer@),
        r is Err ==> queued(*final(queue)) == queued(*old(queue)),
        r matches Err(back) ==> back@ == buffer@,
{
    queue.push(buffer)
}

/// `ArrayQueue::pop`, by an owner that nobody else shares the queue with: the
/// buffer that has been in the queue for longest, or nothing if it is empty.
#[verifier::external_body]
fn queue_pop(queue: &mut ArrayQueue<Vec<u8>>) -> (r: Option<Vec<u8>>)
    ensures
        queue_capacity(*final(queue)) == queue_capacity(*old(queue)),
        r is Some <==> queued(*old(queue)).len() > 0,
        r matches Some(buffer) ==> {
            &&& buffer@ == queued(*old(queue))[0]
            &&& queued(*final(queue)) == queued(*old(queue)).drop_first()
        },
        r is None ==> queued(*final(queue)) == queued(*old(queue)),
{
    queue.pop()
}

/// `Vec::capacity`: how many bytes the buffer can hold without allocating
/// again, which are at least those that it holds.  How many more is up to the
/// allocator.
#[verifier::external_body]
fn vec_capacity(buffer: &Vec<u8>) -> (n: usize)
    ensures
        n >= buffer@.len(),
{
    buffer.capacity()
}

/// A buffer of zero bytes.
pub open spec fn zeros(n: nat) -> Seq<u8> {
    Seq::new(n, |i: int| 0u8)
}

/// A buffer as the pool hands it out: [`BUFFER_SIZE`] zero bytes.
fn fresh_buffer() -> (buffer: Vec<u8>)
    ensures
        buffer@ == zeros(BUFFER_SIZE as nat),
{
    let mut buffer: Vec<u8> = Vec::new();
    buffer.resize(BUFFER_SIZE, 0);
    proof {
        assert(buffer@ =~= zeros(BUFFER_SIZE as nat));
    }
    buffer
}

/// The pool: buffers that are free to be used again.
pub struct BufferPool {
    inner: ArrayQueue<Vec<u8>>,
}

/// A [`BufferPool`] in mathematical terms.
#[verifier::ext_equal]
pub struct PoolView {
    /// The number of free buffers.
    pub free: nat,
    /// The number of free buffers that the pool can hold.
    pub capacity: nat,
}

impl View for BufferPool {
    type V = PoolView;

    closed spec fn view(&self) -> PoolView {
        PoolView { free: queued(self.inner).len(), capacity: queue_capacity(self.inner) }
    }
}

impl PoolView {
    /// The pool after a buffer was handed out: one free buffer less, if there
    /// was one.
    pub open spec fn acquired(self) -> PoolView {
        PoolView {
            free: if self.free > 0 {
                (self.free - 1) as nat
            } else {
                0
            },
            ..self
        }
    }

    /// The pool after a buffer came back: one free buffer more, if there was
    /// room.
    pub open spec fn released(self) -> PoolView {
        PoolView {
            free: if self.free < self.capacity {
                self.free + 1
            } else {
                self.free
            },
            ..self
        }
    }
}

impl BufferPool {
    /// Every free buffer is blank, and there is room for all of them.
    pub closed spec fn wf(self) -> bool {
        &&& queued(self.inner).len() <= queue_capacity(self.inner)
        &&& forall|i: int|
            0 <= i < queued(self.inner).len() ==> #[trigger] queued(self.inner)[i] == zeros(
                BUFFER_SIZE as nat,
            )
    }

    /// A pool of `num_buffers` free buffers.
    pub fn new(num_buffers: usize) -> (r: Self)
        requires
            0 < num_buffers,
            num_buffers * BUFFER_SIZE <= isize::MAX,
        ensures
            r@ == (PoolView { free: num_buffers as nat, capacity: num_buffers as nat }),
            r.wf(),
    {
        let mut queue = queue_new(num_buffers);
        let mut i: usize = 0;
        while i < num_buffers
            invariant
                i <= num_buffers,
                queue_capacity(queue) == num_buffers,
                queued(queue).len() == i,
                forall|k: int|
                    0 <= k < i ==> #[trigger] queued(queue)[k] == zeros(BUFFER_SIZE as nat),
            decreases num_buffers - i,
        {
            let _ = queue_push(&mut queue, fresh_buffer());
            i = i + 1;
        }
        BufferPool { inner: queue }
    }

    /// A blank buffer: a free one, or a new one if none is free.
    pub fn acquire(&mut self) -> (r: PooledBuffer)
        requires
            old(self).wf(),
        ensures
            r@ == zeros(BUFFER_SIZE as nat),
            final(self)@ == old(self)@.acquired(),
            final(self).wf(),
    {
        let buffer = match queue_pop(&mut self.inner) {
            Some(buffer) => buffer,
            None => fresh_buffer(),
        };
        PooledBuffer { buffer }
    }

    /// Blanks a buffer and makes it free again; a full pool lets go of it.
    pub fn release(&mut self, buffer: PooledBuffer)
        requires
            old(self).wf(),
        ensures
            final(self)@ == old(self)@.released(),
            final(self).wf(),
    {
        let mut buffer: Vec<u8> = buffer.buffer;
        buffer.clear();
        let capacity: usize = vec_capacity(&buffer);
        if capacity < BUFFER_SIZE {
            buffer.reserve(BUFFER_SIZE - capacity);
        }
        buffer.resize(BUFFER_SIZE, 0);
        proof {
            assert(buffer@ =~= zeros(BUFFER_SIZE as nat));
        }
        let _ = queue_push(&mut self.inner, buffer);
    }
}

/// A buffer that belongs to a pool until it is given back.
pub struct PooledBuffer {
    buffer: Vec<u8>,
}

impl View for PooledBuffer {
    type V = Seq<u8>;

    closed spec fn view(&self) -> Seq<u8> {
        self.buffer@
    }
}

impl PooledBuffer {
    /// Keeps the bytes; the pool does not get the buffer back.
    pub fn into_vec(self) -> (r: Vec<u8>)
        ensures
            r@ == self@,
    {
        self.buffer
    }

    /// The number of bytes in the buffer.
    pub fn len(&self) -> (n: usize)
        ensures
            n == self@.len(),
    {
        self.buffer.len()
    }

    /// The number of bytes that fit without allocating again, at least those
    /// in the buffer; the allocator may have given more.
    pub fn capacity(&self) -> (n: usize)
        ensures
            n >= self@.len(),
    {
        vec_capacity(&self.buffer)
    }

    /// Cuts the buffer off, or fills it up with zero bytes, to this size.
    pub fn resize(&mut self, size: usize)
        ensures
            final(self)@ == if size <= old(self)@.len() {
                old(self)@.take(size as int)
            } else {
                old(self)@ + zeros((size - old(self)@.len()) as nat)
            },
    {
        self.buffer.resize(size, 0);
        proof {
            let before = old(self)@;
            if size <= before.len() {
                assert(self@ =~= before.take(size as int));
            } else {
                assert(self@ =~= before + zeros((size - before.len()) as nat));
            }
        }
    }

    /// Empties the buffer.
    pub fn clear(&mut self)
        ensures
            final(self)@ == Seq::<u8>::empty(),
    {
        self.buffer.clear();
    }

    /// The bytes.
    pub fn deref(&self) -> (r: &Vec<u8>)
        ensures
            r@ == self@,
    {
        &self.buffer
    }

    /// The bytes, to be changed.
    pub fn deref_mut(&mut self) -> (r: &mut Vec<u8>)
        ensures
            (*r)@ == old(self)@,
            final(self)@ == (*final(r))@,
    {
        &mut self.buffer
    }
}

/// A buffer that is handed out and given back leaves a pool with a free buffer
/// as it was, and no pool ever holds more than it has room for.
pub proof fn law_buffers_come_back(pool: PoolView)
    requires
        pool.free <= pool.capacity,
    ensures
        pool.free > 0 ==> pool.acquired().released() == pool,
        pool.acquired().free <= pool.capacity,
        pool.released().free <= pool.capacity,
{
}

/// A buffer that is handed out is one free buffer less, unless none was free;
/// one that comes back is one more, unless the pool is full; and the room of the
/// pool never changes.
pub proof fn law_free_buffers_are_counted(pool: PoolView)
    ensures
        pool.free > 0 ==> pool.acquired().free + 1 == pool.free,
        pool.free == 0 ==> pool.acquired().free == 0,
        pool.free < pool.capacity ==> pool.released().free == pool.free + 1,
        pool.free >= pool.capacity ==> pool.released().free == pool.free,
        pool.acquired().capacity == pool.capacity,
        pool.released().capacity == pool.capacity,
{
}

/// A blank buffer holds nothing but zero bytes, as many as it should.
pub proof fn law_blank_buffers_are_zero(n: nat)
    ensures
        zeros(n).len() == n,
        forall|i: int| 0 <= i < n ==> #[trigger] zeros(n)[i] == 0,
{
}

} // verus!
