//! The dual-buffer container that holds the items of a running stream.

use vstd::prelude::*;

verus! {

/// Which of the two buffers of a [`SaphStream`] is the current one.
pub enum SaphCurrentBin {
    First,
    Second,
}

/// Two buffers of items, one of which is current.
pub struct SaphStream<T> {
    bin_1: Vec<T>,
    bin_2: Vec<T>,
    state: SaphCurrentBin,
}

impl<T> SaphStream<T> {
    /// The buffer that is current.
    pub closed spec fn current(&self) -> SaphCurrentBin {
        self.state
    }

    /// The items of the first buffer.
    pub closed spec fn first(&self) -> Seq<T> {
        self.bin_1@
    }

    /// The items of the second buffer.
    pub closed spec fn second(&self) -> Seq<T> {
        self.bin_2@
    }

    /// The items of the current buffer.
    pub open spec fn items(&self) -> Seq<T> {
        match self.current() {
            SaphCurrentBin::First => self.first(),
            SaphCurrentBin::Second => self.second(),
        }
    }

    /// An empty stream with room for `size` items in each buffer; the first
    /// buffer is current.
    pub fn new(size: usize) -> (stream: Self)
        ensures
            stream.current() is First,
            stream.first() == Seq::<T>::empty(),
            stream.second() == Seq::<T>::empty(),
    {
        SaphStream {
            bin_1: Vec::with_capacity(size),
            bin_2: Vec::with_capacity(size),
            state: SaphCurrentBin::First,
        }
    }

    /// The current buffer.
    pub fn get_items(&self) -> (items: &Vec<T>)
        ensures
            items@ == self.items(),
    {
        match self.state {
            SaphCurrentBin::First => &self.bin_1,
            SaphCurrentBin::Second => &self.bin_2,
        }
    }
}

} // verus!
