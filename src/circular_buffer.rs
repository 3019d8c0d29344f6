use vstd::prelude::*;

verus! {

/// A buffer of fixed capacity that keeps its elements in the order they were written.
pub struct CircularBuffer<T> {
    buffer: Vec<Option<T>>,
    capacity: usize,
    head: usize,
    len: usize,
}

#[derive(Debug, PartialEq, Eq, Structural)]
pub enum Error {
    FullBuffer,
    EmptyBuffer,
}

impl<T> CircularBuffer<T> {
    /// The slot of the oldest element.
    closed spec fn start(&self) -> int {
        if self.head >= self.len {
            self.head - self.len
        } else {
            self.head + self.capacity - self.len
        }
    }

    /// The slot of the `j`-th oldest element.
    closed spec fn slot(&self, j: int) -> int {
        if self.start() + j < self.capacity {
            self.start() + j
        } else {
            self.start() + j - self.capacity
        }
    }

    /// The elements, oldest first.
    pub closed spec fn contents(&self) -> Seq<T> {
        Seq::new(self.len as nat, |j: int| self.buffer@[self.slot(j)].unwrap())
    }

    /// How many elements the buffer can hold.
    pub closed spec fn capacity(&self) -> nat {
        self.capacity as nat
    }

    pub closed spec fn wf(&self) -> bool {
        &&& self.buffer@.len() == self.capacity
        &&& self.len <= self.capacity
        &&& (self.capacity > 0 ==> self.head < self.capacity)
        &&& (self.capacity == 0 ==> self.head == 0)
        &&& forall|j: int| 0 <= j < self.len ==> (#[trigger] self.buffer@[self.slot(j)]) is Some
    }

    /// An empty buffer that can hold `capacity` elements.
    pub fn new(capacity: usize) -> (r: Self)
        ensures
            r.wf(),
            r.capacity() == capacity,
            r.contents() == Seq::<T>::empty(),
    {
        let mut buffer: Vec<Option<T>> = Vec::new();
        let mut i: usize = 0;
        while i < capacity
            invariant
                i <= capacity,
                buffer@.len() == i,
            decreases capacity - i,
        {
            buffer.push(None);
            i = i + 1;
        }
        let r = Self { buffer, capacity, head: 0, len: 0 };
        assert(r.contents() =~= Seq::<T>::empty());
        r
    }

    /// Adds `element` after the newest one; fails if the buffer is full.
    pub fn write(&mut self, element: T) -> (r: Result<(), Error>)
        requires
            old(self).wf(),
        ensures
            final(self).wf(),
            final(self).capacity() == old(self).capacity(),
            old(self).contents().len() == old(self).capacity() ==> r == Err::<(), Error>(
                Error::FullBuffer,
            ) && final(self).contents() == old(self).contents(),
            old(self).contents().len() < old(self).capacity() ==> r == Ok::<(), Error>(())
                && final(self).contents() == old(self).contents().push(element),
    {
        if self.len == self.capacity {
            return Err(Error::FullBuffer);
        }
        let ghost before = *self;
        let ghost e = element;
        self.buffer.set(self.head, Some(element));
        self.head = if self.head + 1 == self.capacity {
            0
        } else {
            self.head + 1
        };
        self.len = self.len + 1;
        assert(forall|j: int| 0 <= j < before.len ==> self.slot(j) == before.slot(j));
        assert(self.slot(before.len as int) == before.head);
        assert forall|j: int| 0 <= j < self.len implies (#[trigger] self.buffer@[self.slot(j)]) is Some by {
            if j < before.len {
                assert(before.buffer@[before.slot(j)] is Some);
            }
        }
        assert(self.contents() =~= before.contents().push(e));
        Ok(())
    }

    /// Takes out the oldest element; fails if the buffer is empty.
    pub fn read(&mut self) -> (r: Result<T, Error>)
        requires
            old(self).wf(),
        ensures
            final(self).wf(),
            final(self).capacity() == old(self).capacity(),
            old(self).contents().len() == 0 ==> r == Err::<T, Error>(Error::EmptyBuffer)
                && final(self).contents() == old(self).contents(),
            old(self).contents().len() > 0 ==> r == Ok::<T, Error>(old(self).contents()[0])
                && final(self).contents() == old(self).contents().drop_first(),
    {
        if self.len == 0 {
            return Err(Error::EmptyBuffer);
        }
        let ghost before = *self;
        let ind = if self.head >= self.len {
            self.head - self.len
        } else {
            self.head + (self.capacity - self.len)
        };
        assert(ind == before.slot(0));
        assert(before.buffer@[before.slot(0)] is Some);
        let mut taken: Option<T> = None;
        self.buffer.set_and_swap(ind, &mut taken);
        self.len = self.len - 1;
        assert(forall|j: int| 0 <= j < self.len ==> self.slot(j) == before.slot(j + 1));
        assert forall|j: int| 0 <= j < self.len implies (#[trigger] self.buffer@[self.slot(j)]) is Some by {
            assert(before.buffer@[before.slot(j + 1)] is Some);
        }
        assert(self.contents() =~= before.contents().drop_first());
        Ok(taken.unwrap())
    }

    /// Removes every element.
    pub fn clear(&mut self)
        requires
            old(self).wf(),
        ensures
            final(self).wf(),
            final(self).capacity() == old(self).capacity(),
            final(self).contents() == Seq::<T>::empty(),
    {
        while self.len > 0
            invariant
                self.wf(),
                self.capacity() == old(self).capacity(),
            decreases self.contents().len(),
        {
            let _ = self.read();
        }
        assert(self.contents() =~= Seq::<T>::empty());
    }

    /// Adds `element` after the newest one; in a full buffer it takes the place
    /// of the oldest one.
    pub fn overwrite(&mut self, element: T)
        requires
            old(self).wf(),
            old(self).capacity() > 0,
        ensures
            final(self).wf(),
            final(self).capacity() == old(self).capacity(),
            old(self).contents().len() == old(self).capacity() ==> final(self).contents()
                == old(self).contents().drop_first().push(element),
            old(self).contents().len() < old(self).capacity() ==> final(self).contents()
                == old(self).contents().push(element),
    {
        if self.len == self.capacity {
            let ghost before = *self;
            let ghost e = element;
            self.buffer.set(self.head, Some(element));
            self.head = if self.head + 1 == self.capacity {
                0
            } else {
                self.head + 1
            };
            assert(forall|j: int| 0 <= j < self.len - 1 ==> self.slot(j) == before.slot(j + 1));
            assert(self.slot(self.len - 1) == before.head);
            assert(before.slot(0) == before.head);
            assert forall|j: int| 0 <= j < self.len implies (#[trigger] self.buffer@[self.slot(j)]) is Some by {
                if j < self.len - 1 {
                    assert(before.buffer@[before.slot(j + 1)] is Some);
                }
            }
            assert(self.contents() =~= before.contents().drop_first().push(e));
        } else {
            let _ = self.write(element);
        }
    }
}

} // verus!
