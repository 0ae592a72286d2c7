use vstd::prelude::*;

verus! {

/// A fixed-capacity circular window with a moving head cursor.
///
/// The buffer always holds a contiguous window of logically ordered values:
/// logical offset 0 is the oldest slot (about to be quantized) and the last
/// offset is the newest lookahead slot, the horizon. All indexing is modulo
/// the capacity relative to the head, so reads, writes and pushes are O(1)
/// and never reallocate.
pub struct RingBuffer<T> {
    slots: Vec<T>,
    head: usize,
}

impl<T: Copy> RingBuffer<T> {
    /// The number of live slots.
    pub closed spec fn capacity(self) -> int {
        self.slots@.len() as int
    }

    pub closed spec fn wf(self) -> bool {
        self.slots@.len() >= 1 && (self.head as int) < self.slots@.len()
    }

    /// The window in logical order, oldest slot first.
    pub closed spec fn window(self) -> Seq<T> {
        self.slots@.subrange(self.head as int, self.slots@.len() as int) + self.slots@.subrange(
            0,
            self.head as int,
        )
    }

    /// The window spans every live slot exactly once.
    pub proof fn lemma_window_len(self)
        requires
            self.wf(),
        ensures
            self.window().len() == self.capacity(),
    {
    }

    /// Primes a window of `n + 1` slots from the front of `source`; if the
    /// source holds fewer values, the missing slots are filled with `fill`.
    pub fn new(n: usize, source: &Vec<T>, fill: T) -> (r: RingBuffer<T>)
        requires
            n < usize::MAX,
        ensures
            r.wf(),
            r.capacity() == n + 1,
            r.window() == Seq::new(
                (n + 1) as nat,
                |i: int|
                    if i < source@.len() {
                        source@[i]
                    } else {
                        fill
                    },
            ),
    {
        let mut slots: Vec<T> = Vec::new();
        let mut i: usize = 0;
        while i < n + 1
            invariant
                i <= n + 1,
                n < usize::MAX,
                slots@.len() == i,
                forall|j: int|
                    0 <= j < i ==> slots@[j] == if j < source@.len() {
                        source@[j]
                    } else {
                        fill
                    },
            decreases n + 1 - i,
        {
            if i < source.len() {
                slots.push(source[i]);
            } else {
                slots.push(fill);
            }
            i = i + 1;
        }
        let r = RingBuffer { slots, head: 0 };
        proof {
            assert(r.window() =~= Seq::new(
                (n + 1) as nat,
                |i: int|
                    if i < source@.len() {
                        source@[i]
                    } else {
                        fill
                    },
            ));
        }
        r
    }

    /// The value at a logical offset from the head.
    pub fn read(&self, offset: usize) -> (r: T)
        requires
            self.wf(),
            offset < self.capacity(),
        ensures
            r == self.window()[offset as int],
    {
        let wrap = self.slots.len() - self.head;
        if offset < wrap {
            self.slots[self.head + offset]
        } else {
            self.slots[offset - wrap]
        }
    }

    /// Replaces the value at a logical offset from the head.
    pub fn write(&mut self, offset: usize, value: T)
        requires
            old(self).wf(),
            offset < old(self).capacity(),
        ensures
            final(self).wf(),
            final(self).capacity() == old(self).capacity(),
            final(self).window() == old(self).window().update(offset as int, value),
    {
        let wrap = self.slots.len() - self.head;
        let i = if offset < wrap {
            self.head + offset
        } else {
            offset - wrap
        };
        self.slots.set(i, value);
        proof {
            assert(self.window() =~= old(self).window().update(offset as int, value));
        }
    }

    /// Stores `item` as the new horizon slot, evicting the oldest slot and
    /// advancing the head by one: the old offset-1 slot becomes the new
    /// offset-0 slot.
    pub fn push(&mut self, item: T)
        requires
            old(self).wf(),
        ensures
            final(self).wf(),
            final(self).capacity() == old(self).capacity(),
            final(self).window() == old(self).window().subrange(
                1,
                old(self).capacity(),
            ).push(item),
    {
        let h = self.head;
        let cap = self.slots.len();
        self.slots.set(h, item);
        self.head = if h + 1 == cap {
            0
        } else {
            h + 1
        };
        proof {
            assert(self.window() =~= old(self).window().subrange(1, old(self).capacity()).push(
                item,
            ));
        }
    }
}

} // verus!
