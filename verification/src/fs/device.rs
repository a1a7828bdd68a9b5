use vstd::prelude::*;
use vstd::slice::slice_subrange;

verus! {

/// Why a block device access failed.
#[derive(Debug, Clone, Copy, PartialEq, Eq, Structural)]
pub enum BlockDeviceError {
    /// A block index or a buffer out of range.
    OutOfBounds,
    /// The medium failed.
    IoError,
}

/// `bytes` written over `data` at `pos`.
pub open spec fn write_at(data: Seq<u8>, pos: int, bytes: Seq<u8>) -> Seq<u8> {
    data.take(pos) + bytes + data.skip(pos + bytes.len())
}

/// Block `i` of `data`, blocks being `bs` bytes.
pub open spec fn block_of(data: Seq<u8>, bs: int, i: int) -> Seq<u8> {
    data.subrange(i * bs, i * bs + bs)
}

/// A device of fixed-size blocks, each read and written whole.
///
/// Its contents are `spec_data()`: `spec_block_count()` blocks of
/// `spec_block_size()` bytes.
pub trait BlockDevice {
    spec fn spec_block_size(&self) -> u64;

    /// Reads and writes of whole blocks inside the device always succeed.
    spec fn spec_reliable(&self) -> bool;

    spec fn spec_block_count(&self) -> u64;

    spec fn spec_data(&self) -> Seq<u8>;

    /// The bytes of one block; the same value on every call.
    fn block_size(&self) -> (r: u64)
        ensures
            r == self.spec_block_size(),
            self.spec_data().len() == self.spec_block_count() * self.spec_block_size(),
    ;

    /// The number of blocks; the same value on every call.
    fn block_count(&self) -> (r: u64)
        ensures
            r == self.spec_block_count(),
            self.spec_data().len() == self.spec_block_count() * self.spec_block_size(),
    ;

    /// Writes the first block-size bytes of `buf` as block `block_index`.
    fn write_block(&mut self, block_index: u64, buf: &[u8]) -> (r: Result<(), BlockDeviceError>)
        ensures
            final(self).spec_block_size() == old(self).spec_block_size(),
            final(self).spec_block_count() == old(self).spec_block_count(),
            r is Ok ==> block_index < old(self).spec_block_count() && buf@.len()
                >= old(self).spec_block_size() && final(self).spec_data() == write_at(
                old(self).spec_data(),
                block_index * old(self).spec_block_size(),
                buf@.take(old(self).spec_block_size() as int),
            ),
            r is Err ==> final(self).spec_data() == old(self).spec_data(),
            final(self).spec_reliable() == old(self).spec_reliable(),
            old(self).spec_reliable() && block_index < old(self).spec_block_count() && buf@.len() >= old(
                self,
            ).spec_block_size() ==> r is Ok,
    ;

    /// Reads block `block_index`.
    fn read_block(&self, block_index: u64) -> (r: Result<Vec<u8>, BlockDeviceError>)
        ensures
            self.spec_reliable() && block_index < self.spec_block_count() ==> r is Ok,
            r matches Ok(v) ==> block_index < self.spec_block_count() && v@ == block_of(
                self.spec_data(),
                self.spec_block_size() as int,
                block_index as int,
            ) && v@.len() == self.spec_block_size(),
    ;

    /// Writes `count` blocks from `buf` from block `block_index` on, one block
    /// after another; a failed block stops the writing.
    fn write_blocks(&mut self, block_index: u64, count: u64, buf: &[u8]) -> (r: Result<
        (),
        BlockDeviceError,
    >)
        requires
            buf@.len() >= count * old(self).spec_block_size(),
        ensures
            final(self).spec_block_size() == old(self).spec_block_size(),
            final(self).spec_block_count() == old(self).spec_block_count(),
            r is Ok ==> final(self).spec_data() == blocks_written(
                old(self).spec_data(),
                old(self).spec_block_size() as int,
                block_index as int,
                buf@,
                count as nat,
            ),
            r is Ok && count > 0 ==> block_index + count <= old(self).spec_block_count(),
        default_ensures
            count == 0 ==> r is Ok,
    {
        let bs = self.block_size();
        let _len = buf.len();
        let ghost d0 = self.spec_data();
        let mut i: u64 = 0;
        while i < count
            invariant
                i <= count,
                self.spec_block_size() == bs,
                bs == old(self).spec_block_size(),
                self.spec_block_count() == old(self).spec_block_count(),
                d0 == old(self).spec_data(),
                buf@.len() >= count * bs,
                buf@.len() <= usize::MAX,
                self.spec_data() == blocks_written(d0, bs as int, block_index as int, buf@, i as nat),
                i > 0 ==> block_index + i <= self.spec_block_count(),
            decreases count - i,
        {
            if block_index > u64::MAX - i {
                return Err(BlockDeviceError::OutOfBounds);
            }
            proof {
                lemma_blocks_bound(i as int, count as int, bs as int);
                lemma_block_offsets(i as int, bs as int);
            }
            let offset = (i * bs) as usize;
            let part = slice_subrange(buf, offset, offset + bs as usize);
            match self.write_block(block_index + i, part) {
                Ok(_) => {},
                Err(e) => return Err(e),
            }
            proof {
                assert(part@.take(bs as int) =~= buf@.subrange(i * bs, (i + 1) * bs));
            }
            i = i + 1;
        }
        Ok(())
    }

    /// Reads `count` blocks from block `block_index` on, one block after
    /// another; a failed block stops the reading.
    fn read_blocks(&self, block_index: u64, count: u64) -> (r: Result<Vec<u8>, BlockDeviceError>)
        ensures
            r matches Ok(v) ==> (count == 0 ==> v@.len() == 0) && (count > 0 ==> v@ == self.spec_data().subrange(
                block_index * self.spec_block_size(),
                (block_index + count) * self.spec_block_size(),
            )),
            r is Ok && count > 0 ==> block_index + count <= self.spec_block_count(),
        default_ensures
            count == 0 ==> r is Ok,
    {
        let bs = self.block_size();
        let mut v: Vec<u8> = Vec::new();
        let mut i: u64 = 0;
        while i < count
            invariant
                i <= count,
                bs == self.spec_block_size(),
                self.spec_data().len() == self.spec_block_count() * bs,
                i == 0 ==> v@.len() == 0,
                i > 0 ==> v@ == self.spec_data().subrange(block_index * bs, (block_index + i) * bs),
                i > 0 ==> block_index + i <= self.spec_block_count(),
            decreases count - i,
        {
            if block_index > u64::MAX - i {
                return Err(BlockDeviceError::OutOfBounds);
            }
            let block = match self.read_block(block_index + i) {
                Ok(b) => b,
                Err(e) => return Err(e),
            };
            proof {
                let d = self.spec_data();
                let j = (block_index + i) as int;
                lemma_block_offsets(j, bs as int);
                lemma_block_in_range(j, self.spec_block_count() as int, bs as int);
                lemma_blocks_bound(block_index as int, j + 1, bs as int);
                assert(block_index * bs <= j * bs) by (nonlinear_arith)
                    requires
                        block_index <= j,
                        bs >= 0,
                ;
                assert(v@ + block@ =~= d.subrange(block_index * bs, (j + 1) * bs));
            }
            let mut block = block;
            v.append(&mut block);
            i = i + 1;
        }
        Ok(v)
    }

    /// Makes the contents of `count` blocks from block `block_index` on
    /// unreadable; by default it writes zeros.
    fn clear_blocks(&mut self, block_index: u64, count: u64) -> (r: Result<(), BlockDeviceError>)
        ensures
            final(self).spec_block_size() == old(self).spec_block_size(),
            final(self).spec_block_count() == old(self).spec_block_count(),
            r is Ok && count > 0 ==> block_index + count <= old(self).spec_block_count(),
        default_ensures
            r is Ok ==> final(self).spec_data() == zero_blocks(
                old(self).spec_data(),
                old(self).spec_block_size() as int,
                block_index as int,
                count as nat,
            ),
    {
        self.write_zeros(block_index, count)
    }

    /// Writes `count` blocks of zeros from block `block_index` on, one block
    /// after another.
    fn write_zeros(&mut self, block_index: u64, count: u64) -> (r: Result<(), BlockDeviceError>)
        ensures
            final(self).spec_block_size() == old(self).spec_block_size(),
            final(self).spec_block_count() == old(self).spec_block_count(),
            r is Ok ==> final(self).spec_data() == zero_blocks(
                old(self).spec_data(),
                old(self).spec_block_size() as int,
                block_index as int,
                count as nat,
            ),
            r is Ok && count > 0 ==> block_index + count <= old(self).spec_block_count(),
            final(self).spec_reliable() == old(self).spec_reliable(),
            old(self).spec_reliable() && block_index + count <= old(self).spec_block_count()
                && old(self).spec_block_size() <= usize::MAX ==> r is Ok,
        default_ensures
            count == 0 ==> r is Ok,
    {
        let bs = self.block_size();
        let buffer: Vec<u8> = vec![0u8; bs as usize];
        let ghost d0 = self.spec_data();
        let mut i: u64 = 0;
        while i < count
            invariant
                i <= count,
                self.spec_block_size() == bs,
                bs == old(self).spec_block_size(),
                self.spec_block_count() == old(self).spec_block_count(),
                d0 == old(self).spec_data(),
                buffer@ == Seq::new((bs as usize) as nat, |k: int| 0u8),
                self.spec_data() == zero_blocks(d0, bs as int, block_index as int, i as nat),
                i > 0 ==> block_index + i <= self.spec_block_count(),
                self.spec_reliable() == old(self).spec_reliable(),
                old(self).spec_reliable() && block_index + count <= old(self).spec_block_count()
                    && bs <= usize::MAX ==> buffer@.len() == bs,
            decreases count - i,
        {
            if block_index > u64::MAX - i {
                return Err(BlockDeviceError::OutOfBounds);
            }
            match self.write_block(block_index + i, buffer.as_slice()) {
                Ok(_) => {},
                Err(e) => return Err(e),
            }
            proof {
                assert(buffer@.take(bs as int) =~= Seq::new(bs as nat, |k: int| 0u8));
            }
            i = i + 1;
        }
        Ok(())
    }
}

/// The first `n` blocks of `bytes` written from block `first` on, one after
/// another.
pub open spec fn blocks_written(data: Seq<u8>, bs: int, first: int, bytes: Seq<u8>, n: nat) -> Seq<u8>
    decreases n,
{
    if n == 0 {
        data
    } else {
        write_at(
            blocks_written(data, bs, first, bytes, (n - 1) as nat),
            (first + n - 1) * bs,
            bytes.subrange((n - 1) * bs, n * bs),
        )
    }
}

/// Block offsets: block `i + 1` starts where block `i` ends.
proof fn lemma_block_offsets(i: int, bs: int)
    ensures
        (i + 1) * bs == i * bs + bs,
{
    assert((i + 1) * bs == i * bs + bs) by (nonlinear_arith);
}

/// Offsets of the first `i + 1` of `count` blocks stay inside `count` blocks.
proof fn lemma_blocks_bound(i: int, count: int, bs: int)
    requires
        0 <= i < count,
        bs >= 0,
    ensures
        0 <= i * bs,
        i * bs + bs <= count * bs,
{
    assert(0 <= i * bs) by (nonlinear_arith)
        requires
            0 <= i,
            bs >= 0,
    ;
    assert(i * bs + bs <= count * bs) by (nonlinear_arith)
        requires
            i < count,
            bs >= 0,
    ;
}

/// `n` blocks of zeros written from block `first` on, one after another.
pub open spec fn zero_blocks(data: Seq<u8>, bs: int, first: int, n: nat) -> Seq<u8>
    decreases n,
{
    if n == 0 {
        data
    } else {
        write_at(
            zero_blocks(data, bs, first, (n - 1) as nat),
            (first + n - 1) * bs,
            Seq::new(bs as nat, |k: int| 0u8),
        )
    }
}

/// Sets one byte of a vector; an index in range never panics.
#[verifier::external_body]
fn set_byte(v: &mut Vec<u8>, i: usize, x: u8)
    requires
        i < old(v)@.len(),
    ensures
        final(v)@ == old(v)@.update(i as int, x),
    no_unwind
{
    v[i] = x;
}

/// A block device kept in memory.
pub struct MemoryDevice {
    data: Vec<u8>,
    block_size: u64,
    block_count: u64,
}

proof fn lemma_block_in_range(i: int, count: int, bs: int)
    requires
        0 <= i < count,
        bs >= 0,
    ensures
        i * bs + bs <= count * bs,
        0 <= i * bs,
        bs <= count * bs,
{
    assert(bs <= count * bs) by (nonlinear_arith)
        requires
            0 <= i < count,
            bs >= 0,
    ;
    assert(i * bs + bs <= count * bs) by (nonlinear_arith)
        requires
            0 <= i < count,
            bs >= 0,
    ;
    assert(0 <= i * bs) by (nonlinear_arith)
        requires
            0 <= i,
            bs >= 0,
    ;
}

impl MemoryDevice {
    /// The contents hold exactly the blocks.
    #[verifier::type_invariant]
    spec fn wf(&self) -> bool {
        &&& self.data@.len() == self.block_count * self.block_size
        &&& self.block_size > 0
    }

    /// The ceiling of `size` to a multiple of `block_size`.
    pub open spec fn aligned_size(size: u64, block_size: u64) -> int {
        (size + block_size - 1) / block_size as int * block_size
    }

    /// A zero-filled device of `size_in_bytes` rounded up to whole blocks of
    /// `block_size` bytes.
    pub fn new(size_in_bytes: u64, block_size: u64) -> (d: MemoryDevice)
        requires
            block_size > 0,
            size_in_bytes + block_size - 1 <= u64::MAX,
            Self::aligned_size(size_in_bytes, block_size) <= usize::MAX,
        ensures
            d.spec_block_size() == block_size,
            d.spec_block_count() == (size_in_bytes + block_size - 1) / block_size as int,
            d.spec_data() == Seq::new(
                Self::aligned_size(size_in_bytes, block_size) as nat,
                |i: int| 0u8,
            ),
    {
        let count = (size_in_bytes + (block_size - 1)) / block_size;
        proof {
            assert(count * block_size <= size_in_bytes + block_size - 1) by (nonlinear_arith)
                requires
                    count == (size_in_bytes + block_size - 1) / block_size as int,
                    block_size > 0,
            ;
        }
        let aligned_size = count * block_size;
        assert(aligned_size == Self::aligned_size(size_in_bytes, block_size));
        let data: Vec<u8> = vec![0u8; aligned_size as usize];
        assert(data@.len() == count * block_size);
        let d = MemoryDevice { data, block_size, block_count: count };
        proof {
            assert(d.data@ =~= Seq::new(aligned_size as nat, |i: int| 0u8));
        }
        d
    }

    /// The whole contents.
    pub fn as_bytes(&self) -> (r: &Vec<u8>)
        ensures
            r@ == self.spec_data(),
    {
        &self.data
    }
}

impl BlockDevice for MemoryDevice {
    closed spec fn spec_block_size(&self) -> u64 {
        self.block_size
    }

    /// Memory never fails: only a block outside the device is refused.
    closed spec fn spec_reliable(&self) -> bool {
        true
    }

    closed spec fn spec_block_count(&self) -> u64 {
        self.block_count
    }

    closed spec fn spec_data(&self) -> Seq<u8> {
        self.data@
    }

    fn block_size(&self) -> (r: u64) {
        proof {
            use_type_invariant(self);
        }
        self.block_size
    }

    fn block_count(&self) -> (r: u64) {
        proof {
            use_type_invariant(self);
        }
        self.block_count
    }

    fn write_block(&mut self, block_index: u64, buf: &[u8]) -> (r: Result<(), BlockDeviceError>)
        ensures
            r is Ok <==> block_index < old(self).spec_block_count() && buf@.len() >= old(
                self,
            ).spec_block_size(),
            r is Err ==> r == Err::<(), BlockDeviceError>(BlockDeviceError::OutOfBounds),
    {
        proof {
            use_type_invariant(&*self);
        }
        let _len = self.data.len();
        if block_index >= self.block_count {
            return Err(BlockDeviceError::OutOfBounds);
        }
        if (buf.len() as u64) < self.block_size {
            return Err(BlockDeviceError::OutOfBounds);
        }
        proof {
            lemma_block_in_range(block_index as int, self.block_count as int, self.block_size as int);
            assert(self.data@.len() == self.block_count * self.block_size);
            assert(block_index * self.block_size + self.block_size <= self.data@.len());
            assert(self.data@.len() <= usize::MAX);
        }
        let start = (block_index * self.block_size) as usize;
        let bs = self.block_size as usize;
        let ghost d0 = self.data@;
        let mut k: usize = 0;
        while k < bs
            invariant
                k <= bs,
                bs == self.block_size,
                self.block_size == old(self).block_size,
                self.block_count == old(self).block_count,
                self.data@.len() == self.block_count * self.block_size,
                self.data@.len() <= usize::MAX,
                start + bs <= self.data@.len(),
                self.data@.len() == d0.len(),
                bs <= buf@.len(),
                forall|j: int|
                    0 <= j < self.data@.len() ==> #[trigger] self.data@[j] == if start <= j < start
                        + k {
                        buf@[j - start]
                    } else {
                        d0[j]
                    },
            decreases bs - k,
        {
            set_byte(&mut self.data, start + k, buf[k]);
            k = k + 1;
        }
        proof {
            assert(self.data@ =~= write_at(d0, start as int, buf@.take(bs as int)));
            assert(self.spec_reliable() == old(self).spec_reliable());
        }
        Ok(())
    }

    fn read_block(&self, block_index: u64) -> (r: Result<Vec<u8>, BlockDeviceError>)
        ensures
            r is Ok <==> block_index < self.spec_block_count(),
            r is Err ==> r == Err::<Vec<u8>, BlockDeviceError>(BlockDeviceError::OutOfBounds),
    {
        proof {
            use_type_invariant(self);
        }
        let _len = self.data.len();
        if block_index >= self.block_count {
            return Err(BlockDeviceError::OutOfBounds);
        }
        proof {
            lemma_block_in_range(block_index as int, self.block_count as int, self.block_size as int);
        }
        let start = (block_index * self.block_size) as usize;
        let bs = self.block_size as usize;
        let mut v: Vec<u8> = Vec::new();
        let mut k: usize = 0;
        while k < bs
            invariant
                k <= bs,
                bs == self.block_size,
                self.data@.len() <= usize::MAX,
                start == block_index * self.block_size,
                start + bs <= self.data@.len(),
                v@ == self.data@.subrange(start as int, start + k),
            decreases bs - k,
        {
            v.push(self.data[start + k]);
            k = k + 1;
            proof {
                assert(v@ =~= self.data@.subrange(start as int, start + k));
            }
        }
        Ok(v)
    }
}

impl Clone for MemoryDevice {
    /// A second device with the same contents.
    fn clone(&self) -> (r: Self)
        ensures
            r.spec_block_size() == self.spec_block_size(),
            r.spec_block_count() == self.spec_block_count(),
            r.spec_data() == self.spec_data(),
    {
        proof {
            use_type_invariant(self);
        }
        let data = self.data.clone();
        proof {
            assert(data@ =~= self.data@);
        }
        MemoryDevice { data, block_size: self.block_size, block_count: self.block_count }
    }
}

} // verus!
