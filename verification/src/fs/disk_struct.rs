use core::marker::PhantomData;
use vstd::prelude::*;

verus! {

/// The bytes of a structure as it lies on disk: a zero-filled buffer at
/// least as long as the structure, read and written as bytes.
pub struct DiskStruct<T> {
    bytes: Vec<u8>,
    _phantom: PhantomData<T>,
}

impl<T> DiskStruct<T> {
    /// The bytes.
    pub closed spec fn view(&self) -> Seq<u8> {
        self.bytes@
    }

    /// `len` zero bytes, or as many as the structure takes if that is more.
    /// The structure is packed: its alignment is 1.
    pub fn new(len: usize) -> (d: Self)
        requires
            vstd::layout::align_of::<T>() == 1,
        ensures
            d@ == Seq::new(
                if len >= vstd::layout::size_of::<T>() {
                    len as nat
                } else {
                    vstd::layout::size_of::<T>()
                },
                |i: int| 0u8,
            ),
    {
        let size = core::mem::size_of::<T>();
        let n = if len >= size {
            len
        } else {
            size
        };
        let bytes: Vec<u8> = vec![0u8; n];
        let d = DiskStruct { bytes, _phantom: PhantomData };
        proof {
            assert(d@ =~= Seq::new(n as nat, |i: int| 0u8));
        }
        d
    }

    /// The bytes.
    pub fn as_slice(&self) -> (r: &[u8])
        ensures
            r@ == self@,
    {
        self.bytes.as_slice()
    }

    /// The bytes, to change in place; the length stays.
    pub fn as_slice_mut(&mut self) -> (r: &mut [u8])
        ensures
            r@ == old(self)@,
            final(r)@ == final(self)@,
    {
        self.bytes.as_mut_slice()
    }
}

} // verus!
