//! Two instances of a state, one read and one written, that trade places.

use vstd::prelude::*;

verus! {

/// Two instances of `T`: the current state, which is read, and the next
/// state, which is written. `swap` trades their roles.
pub struct DoubleBuffer<T> {
    read: T,
    write: T,
}

impl<T> DoubleBuffer<T> {
    /// The instance that is read.
    pub closed spec fn read_side(&self) -> T {
        self.read
    }

    /// The instance that is written.
    pub closed spec fn write_side(&self) -> T {
        self.write
    }

    /// The buffer with the roles of its two sides traded.
    pub closed spec fn swapped(&self) -> Self {
        DoubleBuffer { read: self.write, write: self.read }
    }

    /// Trading roles makes the written side the read one and the read side
    /// the written one, and trading twice gives the buffer back.
    pub proof fn lemma_swapped(&self)
        ensures
            self.swapped().read_side() == self.write_side(),
            self.swapped().write_side() == self.read_side(),
            self.swapped().swapped() == *self,
    {
    }

    /// A buffer is determined by its two sides.
    pub proof fn lemma_sides_determine(a: Self, b: Self)
        requires
            a.read_side() == b.read_side(),
            a.write_side() == b.write_side(),
        ensures
            a == b,
    {
    }

    /// A buffer that reads `read` and writes `write`.
    pub fn new(read: T, write: T) -> (buf: Self)
        ensures
            buf.read_side() == read,
            buf.write_side() == write,
    {
        Self { read, write }
    }

    /// A buffer that writes `value` and reads a clone of it.
    pub fn from_value(value: T) -> (buf: DoubleBuffer<T>) where T: Clone
        ensures
            cloned(value, buf.read_side()),
            buf.write_side() == value,
    {
        Self::new(value.clone(), value)
    }

    /// The read side, shared, together with the write side, exclusive.
    /// The read side stays as it is; the write side becomes what is
    /// written through the second reference.
    pub fn split(&mut self) -> (sides: (&T, &mut T))
        ensures
            *sides.0 == old(self).read_side(),
            *sides.1 == old(self).write_side(),
            final(self).read_side() == old(self).read_side(),
            final(self).write_side() == *final(sides.1),
    {
        (&self.read, &mut self.write)
    }

    /// Trades the roles of the two sides.
    pub fn swap(&mut self)
        ensures
            *final(self) == old(self).swapped(),
            final(self).read_side() == old(self).write_side(),
            final(self).write_side() == old(self).read_side(),
    {
        std::mem::swap(&mut self.read, &mut self.write)
    }

    /// The write side, exclusive. The read side stays as it is.
    pub fn writer(&mut self) -> (side: &mut T)
        ensures
            *side == old(self).write_side(),
            final(self).read_side() == old(self).read_side(),
            final(self).write_side() == *final(side),
    {
        &mut self.write
    }

    /// The read side.
    pub fn reader(&self) -> (side: &T)
        ensures
            *side == self.read_side(),
    {
        &self.read
    }
}

} // verus!
