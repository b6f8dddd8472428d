use vstd::prelude::*;

verus! {

/// One immutable unit of payload data exchanged between stages.
///
/// `size` is the logical length of the payload; the backing `data` vector may
/// be larger (a source typically allocates a full chunk and fills only part
/// of it).
#[derive(Debug)]
pub struct Buffer {
    pub size: usize,
    pub data: Vec<u8>,
}

impl Buffer {
    pub fn new(data: Vec<u8>, size: usize) -> (r: Buffer)
        requires
            size <= data@.len(),
        ensures
            r.data == data,
            r.size == size,
    {
        Buffer { data, size }
    }
}

} // verus!
