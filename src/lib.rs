//! Storage for lock-free queues built on a circular buffer, and the outcome of
//! a non-blocking receive on such a queue.
use vstd::prelude::*;

pub mod buffer;

pub use buffer::{Buffer, Slot};

verus! {

/// The return type for `try_recv` methods.
#[derive(Debug, Clone, Copy, PartialEq, Eq)]
pub enum TryRecv<T> {
    /// Received a value.
    Data(T),
    /// Not received a value because the buffer is empty.
    Empty,
    /// Lost the race to a concurrent operation. Try again.
    Retry,
}

impl<T> TryRecv<T> {
    /// Applies a function to the content of `TryRecv::Data`.
    ///
    /// `f` is called only on a received value; `Empty` and `Retry` pass through.
    pub fn map<U, F: FnOnce(T) -> U>(self, f: F) -> (r: TryRecv<U>)
        requires
            self matches TryRecv::Data(v) ==> f.requires((v,)),
        ensures
            match self {
                TryRecv::Data(v) => r matches TryRecv::Data(u) && f.ensures((v,), u),
                TryRecv::Empty => r is Empty,
                TryRecv::Retry => r is Retry,
            },
    {
        match self {
            TryRecv::Data(v) => TryRecv::Data(f(v)),
            TryRecv::Empty => TryRecv::Empty,
            TryRecv::Retry => TryRecv::Retry,
        }
    }
}

} // verus!
