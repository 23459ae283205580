use vstd::prelude::*;
use core::marker::PhantomData;
use crate::types::OperationError;

verus! {

/// Stands in for the reader that fetches stored vectors through the
/// asynchronous interface of the kernel, on platforms that have no such
/// interface. It reads nothing.
#[derive(Debug)]
pub struct UringReader<T> {
    _phantom: PhantomData<T>,
}

impl<T> UringReader<T> {
    /// A reader for a file of the given size with a header of the given
    /// size. It never fails.
    pub fn new(_raw_size: usize, _header_size: usize) -> (r: Result<Self, OperationError>)
        ensures
            r is Ok,
    {
        Ok(UringReader { _phantom: PhantomData })
    }
}

} // verus!
