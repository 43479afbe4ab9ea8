//! A fixed-capacity ring buffer.
use vstd::prelude::*;

verus! {

#[derive(Debug, PartialEq, Eq, Structural)]
pub enum BufferError {
    /// The buffer holds as many items as its capacity.
    Full,
}

/// A first-in, first-out buffer of fixed capacity whose slots are reused
/// in a ring.
#[derive(Clone)]
pub struct CircularBuffer<T> {
    buffer: Vec<Option<T>>,
    head: usize,
    tail: usize,
    size: usize,
    capacity: usize,
}

impl<T> View for CircularBuffer<T> {
    type V = Seq<T>;

    /// The items held, oldest first.
    closed spec fn view(&self) -> Seq<T> {
        Seq::new(
            self.size as nat,
            |i: int| self.buffer@[slot(self.head as int, i, self.capacity as int)]->Some_0,
        )
    }
}

/// The slot that holds the `i`-th oldest item when the oldest is at `head`.
pub open spec fn slot(head: int, i: int, cap: int) -> int {
    (head + i) % cap
}

impl<T> CircularBuffer<T> {
    pub closed spec fn cap(&self) -> nat {
        self.capacity as nat
    }

    /// The slot that holds the oldest item.
    pub closed spec fn head_slot(&self) -> nat {
        self.head as nat
    }

    /// The slots, in storage order.
    pub closed spec fn slots(&self) -> Seq<Option<T>> {
        self.buffer@
    }

    pub closed spec fn wf(&self) -> bool {
        &&& self.buffer@.len() == self.capacity
        &&& self.size <= self.capacity
        &&& self.capacity > 0 ==> self.head < self.capacity && self.tail < self.capacity
            && self.tail == slot(self.head as int, self.size as int, self.capacity as int)
        &&& self.capacity == 0 ==> self.head == 0 && self.tail == 0
        &&& forall|i: int|
            0 <= i < self.size ==> (#[trigger] self.buffer@[slot(
                self.head as int,
                i,
                self.capacity as int,
            )]) is Some
    }

    /// An empty buffer with room for `capacity` items.
    pub fn new(capacity: usize) -> (r: CircularBuffer<T>)
        ensures
            r.wf(),
            r@ == Seq::<T>::empty(),
            r@.len() <= r.cap(),
            r.cap() == capacity,
    {
        let buffer = empty_slots(capacity);
        proof {
            if capacity > 0 {
                lemma_slot_zero(0, capacity as int);
            }
        }
        CircularBuffer { buffer, head: 0, tail: 0, size: 0, capacity }
    }

    /// Appends an item, or reports `Full` and changes nothing.
    pub fn write(&mut self, item: T) -> (r: Result<(), BufferError>)
        requires
            old(self).wf(),
        ensures
            final(self).wf(),
            final(self)@.len() <= final(self).cap(),
            final(self).cap() == old(self).cap(),
            old(self)@.len() <= old(self).cap(),
            r is Ok <==> old(self)@.len() < old(self).cap(),
            r is Err <==> old(self)@.len() == old(self).cap(),
            r is Ok ==> final(self)@ == old(self)@.push(item),
            r is Err ==> r->Err_0 == BufferError::Full && final(self)@ == old(self)@,
    {
        if self.size == self.capacity {
            return Err(BufferError::Full);
        }
        let ghost pre = self@;
        self.buffer.set(self.tail, Some(item));
        self.tail = (self.tail + 1) % self.capacity;
        self.size = self.size + 1;
        proof {
            let cap = self.capacity as int;
            let h = self.head as int;
            assert(self.tail as int == slot(h, self.size as int, cap)) by {
                lemma_slot_next(h, old(self).size as int, cap);
            }
            assert forall|i: int| 0 <= i < self.size implies (#[trigger] self.buffer@[slot(
                h,
                i,
                cap,
            )]) is Some by {
                if i < old(self).size {
                    lemma_slot_distinct(h, i, old(self).size as int, cap);
                }
            }
            assert(self@ =~= pre.push(item)) by {
                assert forall|i: int| 0 <= i < old(self).size implies self@[i] == pre[i] by {
                    lemma_slot_distinct(h, i, old(self).size as int, cap);
                }
            }
        }
        Ok(())
    }

    /// Removes and returns the oldest item, or `None` when empty.
    pub fn read(&mut self) -> (r: Option<T>)
        requires
            old(self).wf(),
        ensures
            final(self).wf(),
            final(self)@.len() <= final(self).cap(),
            final(self).cap() == old(self).cap(),
            old(self)@.len() == 0 ==> r is None && final(self)@ == old(self)@,
            old(self)@.len() > 0 ==> r == Some(old(self)@[0]) && final(self)@
                == old(self)@.drop_first(),
    {
        if self.size == 0 {
            return None;
        }
        let ghost pre = self@;
        let mut value: Option<T> = None;
        self.buffer.set_and_swap(self.head, &mut value);
        self.head = (self.head + 1) % self.capacity;
        self.size = self.size - 1;
        proof {
            let cap = self.capacity as int;
            let h = old(self).head as int;
            assert(value == Some(pre[0])) by {
                assert(slot(h, 0, cap) == h) by {
                    lemma_slot_zero(h, cap);
                }
            }
            assert forall|i: int| 0 <= i < self.size implies #[trigger] slot(
                self.head as int,
                i,
                cap,
            ) == slot(h, i + 1, cap) && slot(h, i + 1, cap) != h by {
                lemma_slot_shift(h, i, cap);
                lemma_slot_distinct(h, i + 1, 0, cap);
                lemma_slot_zero(h, cap);
            }
            assert(self.tail as int == slot(self.head as int, self.size as int, cap)) by {
                lemma_slot_shift(h, self.size as int, cap);
            }
            assert forall|i: int| 0 <= i < self.size implies (#[trigger] self.buffer@[slot(
                self.head as int,
                i,
                cap,
            )]) is Some by {
                assert(slot(self.head as int, i, cap) == slot(h, i + 1, cap));
            }
            assert(self@ =~= pre.drop_first()) by {
                assert forall|i: int| 0 <= i < self.size implies self@[i] == pre[i + 1] by {
                    assert(slot(self.head as int, i, cap) == slot(h, i + 1, cap));
                }
            }
        }
        value
    }

    /// Empties the buffer; the capacity stays.
    pub fn clear(&mut self)
        requires
            old(self).wf(),
        ensures
            final(self).wf(),
            final(self)@.len() <= final(self).cap(),
            final(self).cap() == old(self).cap(),
            final(self)@ == Seq::<T>::empty(),
    {
        self.buffer = empty_slots(self.capacity);
        self.head = 0;
        self.tail = 0;
        self.size = 0;
        proof {
            if self.capacity > 0 {
                lemma_slot_zero(0, self.capacity as int);
            }
        }
        assert(self@ =~= Seq::<T>::empty());
    }

    /// Number of items held.
    pub fn size(&self) -> (r: usize)
        requires
            self.wf(),
        ensures
            r == self@.len(),
            r <= self.cap(),
    {
        self.size
    }

    /// Appends an item; when full, the oldest item is dropped to make room.
    pub fn overwrite(&mut self, item: T)
        requires
            old(self).wf(),
            old(self).cap() > 0,
        ensures
            final(self).wf(),
            final(self)@.len() <= final(self).cap(),
            final(self).cap() == old(self).cap(),
            old(self)@.len() < old(self).cap() ==> final(self)@ == old(self)@.push(item),
            old(self)@.len() == old(self).cap() ==> final(self)@ == old(self)@.drop_first().push(
                item,
            ),
    {
        if self.size == self.capacity {
            let ghost mid = self@.drop_first();
            let _oldest = self.read();
            assert(self@ == mid);
            let r = self.write(item);
            assert(r is Ok);
        } else {
            let r = self.write(item);
            assert(r is Ok);
        }
    }

    /// Moves the items so that the oldest sits in the first slot; the items
    /// and their order stay.
    pub fn make_contiguous(&mut self)
        requires
            old(self).wf(),
        ensures
            final(self).wf(),
            final(self)@.len() <= final(self).cap(),
            final(self).cap() == old(self).cap(),
            final(self)@ == old(self)@,
            old(self)@.len() > 0 ==> final(self).head_slot() == 0,
            old(self)@.len() > 0 ==> forall|i: int|
                0 <= i < old(self)@.len() ==> #[trigger] final(self).slots()[i] == Some(old(self)@[i]),
    {
        if self.head == 0 || self.size == 0 {
            proof {
                if self.size > 0 {
                    assert forall|i: int| 0 <= i < self.size implies #[trigger] self.buffer@[i]
                        == Some(self@[i]) by {
                        lemma_slot_small(i, self.capacity as int);
                        assert(self.buffer@[slot(0, i, self.capacity as int)] is Some);
                    }
                }
            }
            return;
        }
        let ghost pre = self@;
        let cap = self.capacity;
        let head = self.head;
        let size = self.size;
        proof {
            assert forall|i: int| 0 <= i < size implies (#[trigger] self.buffer@[slot(
                head as int,
                i,
                cap as int,
            )]) == Some(pre[i]) by {
                assert(self.buffer@[slot(head as int, i, cap as int)] is Some);
            }
        }
        let mut old_buf: Vec<Option<T>> = Vec::new();
        std::mem::swap(&mut self.buffer, &mut old_buf);
        let mut new_buffer = empty_slots(cap);
        let mut k: usize = 0;
        let mut current = head;
        proof {
            lemma_slot_zero(head as int, cap as int);
        }
        while k < size
            invariant
                0 < head < cap,
                size <= cap,
                k <= size,
                new_buffer@.len() == cap,
                old_buf@.len() == cap,
                current as int == slot(head as int, k as int, cap as int),
                forall|i: int| 0 <= i < k ==> #[trigger] new_buffer@[i] == Some(pre[i]),
                forall|i: int| k <= i < cap ==> (#[trigger] new_buffer@[i]) is None,
                forall|i: int|
                    k <= i < size ==> (#[trigger] old_buf@[slot(head as int, i, cap as int)])
                        == Some(pre[i]),
            decreases size - k,
        {
            let mut value: Option<T> = None;
            proof {
                lemma_slot_next(head as int, k as int, cap as int);
            }
            old_buf.set_and_swap(current, &mut value);
            new_buffer.set(k, value);
            proof {
                assert forall|i: int| k < i < size implies (#[trigger] old_buf@[slot(
                    head as int,
                    i,
                    cap as int,
                )]) == Some(pre[i]) by {
                    lemma_slot_distinct(head as int, i, k as int, cap as int);
                }
            }
            current = (current + 1) % cap;
            k = k + 1;
        }
        self.buffer = new_buffer;
        self.head = 0;
        self.tail = self.size % cap;
        proof {
            lemma_slot_zero(0, cap as int);
            assert forall|i: int| 0 <= i < self.size implies #[trigger] slot(0, i, cap as int)
                == i by {
                lemma_slot_small(i, cap as int);
            }
            assert forall|i: int| 0 <= i < self.size implies (#[trigger] self.buffer@[slot(
                0,
                i,
                cap as int,
            )]) is Some by {
                assert(slot(0, i, cap as int) == i);
            }
            assert(self@ =~= pre) by {
                assert forall|i: int| 0 <= i < self.size implies self@[i] == pre[i] by {
                    assert(slot(0, i, cap as int) == i);
                }
            }
        }
    }
}

/// `n` empty slots.
fn empty_slots<T>(n: usize) -> (r: Vec<Option<T>>)
    ensures
        r@.len() == n,
        forall|i: int| 0 <= i < n ==> (#[trigger] r@[i]) is None,
{
    let mut v: Vec<Option<T>> = Vec::new();
    let mut i: usize = 0;
    while i < n
        invariant
            i <= n,
            v@.len() == i,
            forall|j: int| 0 <= j < i ==> (#[trigger] v@[j]) is None,
        decreases n - i,
    {
        v.push(None);
        i = i + 1;
    }
    v
}

proof fn lemma_slot_zero(h: int, cap: int)
    requires
        0 <= h < cap,
    ensures
        slot(h, 0, cap) == h,
{
    lemma_mod_once(h, cap);
}

proof fn lemma_slot_small(i: int, cap: int)
    requires
        0 <= i < cap,
    ensures
        slot(0, i, cap) == i,
{
    lemma_mod_once(i, cap);
}

/// Within two turns of the ring, `%` subtracts at most one turn.
proof fn lemma_mod_once(x: int, cap: int)
    requires
        0 <= x < 2 * cap,
    ensures
        x % cap == if x < cap {
            x
        } else {
            x - cap
        },
{
    if x < cap {
        vstd::arithmetic::div_mod::lemma_small_mod(x as nat, cap as nat);
    } else {
        vstd::arithmetic::div_mod::lemma_mod_add_multiples_vanish(x - cap, cap);
        vstd::arithmetic::div_mod::lemma_small_mod((x - cap) as nat, cap as nat);
    }
}

/// One step forward from slot `k` is slot `k + 1`.
proof fn lemma_slot_next(h: int, k: int, cap: int)
    requires
        0 <= h < cap,
        0 <= k < cap,
    ensures
        (slot(h, k, cap) + 1) % cap == slot(h, k + 1, cap),
        0 <= slot(h, k, cap) < cap,
{
    lemma_mod_once(h + k, cap);
    lemma_mod_once(h + k + 1, cap);
    lemma_mod_once(slot(h, k, cap) + 1, cap);
}

/// Starting one slot later shifts every position by one.
proof fn lemma_slot_shift(h: int, i: int, cap: int)
    requires
        0 <= h < cap,
        0 <= i < cap,
    ensures
        slot((h + 1) % cap, i, cap) == slot(h, i + 1, cap),
{
    lemma_mod_once(h + 1, cap);
    lemma_mod_once((h + 1) % cap + i, cap);
    lemma_mod_once(h + i + 1, cap);
}

/// Distinct positions within one turn of the ring sit in distinct slots.
proof fn lemma_slot_distinct(h: int, i: int, j: int, cap: int)
    requires
        0 <= h < cap,
        0 <= i < cap,
        0 <= j < cap,
        i != j,
    ensures
        slot(h, i, cap) != slot(h, j, cap),
{
    lemma_mod_once(h + i, cap);
    lemma_mod_once(h + j, cap);
}

} // verus!
