use vstd::bytes::{spec_u32_from_le_bytes, spec_u32_to_le_bytes};
use vstd::prelude::*;

use crate::bytes::{le32_at, push_u32_le, put_at, read_u32_le, write_bytes};
use crate::fs::device::{block_of, write_at, BlockDevice, BlockDeviceError};

verus! {

/// Partition type of a boot loader partition.
pub const PARTITION_TYPE_BOOTLOADER: u8 = 0xEB;

/// Partition type of a FAT32 partition.
pub const PARTITION_TYPE_FAT32: u8 = 0x0C;

/// Where the partition table starts in block 0.
pub const MBR_PARTITION_TABLE_OFFSET: usize = 446;

/// Bytes of one table entry.
pub const MBR_PARTITION_ENTRY_SIZE: usize = 16;

/// Entries in the table.
pub const MBR_PARTITION_ENTRY_COUNT: usize = 4;

/// One partition of a device with an MBR partition table, seen as a block
/// device of its own: block `i` of the partition is block `start + i` of
/// `inner`, for `i` below `end - start`.
pub struct MbrPartitionDevice<D> {
    inner: D,
    partition_type: u8,
    start: u32,
    end: u32,
}

/// Why a partition table could not be read.
#[derive(Debug, Clone, Copy, PartialEq, Eq, Structural)]
pub enum MountError {
    IoError(BlockDeviceError),
    /// Blocks are smaller than 512 bytes.
    BlockSizeNotExpected,
}

/// Why a partition table could not be written.
#[derive(Debug, Clone, Copy, PartialEq, Eq, Structural)]
pub enum FormatError {
    IoError(BlockDeviceError),
    /// Blocks are smaller than 512 bytes.
    BlockSizeNotExpected,
    /// An entry has type 0, starts at block 0, ends before it starts or
    /// ends past the device.
    BadArgument,
}

/// A partition to write into the table: blocks `start..end`.
#[derive(Debug, Clone, Copy, PartialEq, Eq, Hash, Structural)]
pub struct MbrPartitionEntry {
    pub bootable: bool,
    pub start: u32,
    pub end: u32,
    pub partition_type: u8,
}

/// Cylinder, head and sector address of block `lba`, packed as the table
/// stores it: head; sector in bits 0-5 with cylinder bits 8-9 in bits 6-7;
/// cylinder bits 0-7.
/// Addresses past cylinder 1023 are stored as the largest address.
pub open spec fn chs(lba: u32) -> (u8, u8, u8) {
    let c0: u32 = lba / 16128u32;
    let h0: u32 = lba % 16128u32 / 63u32;
    let s0: u32 = (lba % 63u32 + 1) as u32;
    let big = c0 > 1023 || h0 > 255 || s0 > 63;
    let c: u32 = if big {
        1023
    } else {
        c0
    };
    let h: u32 = if big {
        255
    } else {
        h0
    };
    let s: u32 = if big {
        63
    } else {
        s0
    };
    (h as u8, ((s & 0x3f) as u8) | (((c >> 2) & 0xc0) as u8), (c & 0xff) as u8)
}

/// The packed address decodes back: for a block before cylinder 1024 the
/// head byte is the head, the sector byte's low six bits are the sector (1
/// to 63) and its top two bits the cylinder's bits 8-9, and the third byte
/// holds the cylinder's low eight bits; a block past cylinder 1023 reads as
/// cylinder 1023, head 255, sector 63.
pub proof fn lemma_chs_decodes(lba: u32)
    ensures
        ({
            let (h, sb, cb) = chs(lba);
            let cyl = lba / 16128;
            &&& cyl <= 1023 ==> h == (lba % 16128) / 63 && (sb & 0x3Fu8) == lba % 63 + 1 && cb as int + (
            sb & 0xC0u8) as int * 4 == cyl
            &&& cyl > 1023 ==> h == 255 && sb == 0xFFu8 && cb == 0xFFu8
        }),
{
    let c0: u32 = lba / 16128u32;
    let h0: u32 = lba % 16128u32 / 63u32;
    let s0: u32 = (lba % 63u32 + 1) as u32;
    assert(h0 <= 255);
    assert(1 <= s0 <= 63);
    let big = c0 > 1023;
    let c: u32 = if big { 1023 } else { c0 };
    let s: u32 = if big { 63 } else { s0 };
    assert(((((s & 0x3f) as u8) | (((c >> 2) & 0xc0) as u8)) & 0x3Fu8) == s && ((c & 0xff) as u8) as int + (((((s
        & 0x3f) as u8) | (((c >> 2) & 0xc0) as u8)) & 0xC0u8) as int) * 4 == c && (c == 1023 && s == 63 ==> (((s
        & 0x3f) as u8) | (((c >> 2) & 0xc0) as u8)) == 0xFFu8 && ((c & 0xff) as u8) == 0xFFu8)) by (bit_vector)
        requires
            c <= 1023,
            1 <= s <= 63,
    ;
}

/// The 16 bytes of a table entry; an absent partition is all zeros.
pub open spec fn entry_bytes(e: Option<MbrPartitionEntry>) -> Seq<u8> {
    match e {
        None => Seq::new(16, |k: int| 0u8),
        Some(p) => seq![
            if p.bootable {
                0x80u8
            } else {
                0u8
            },
            chs(p.start).0,
            chs(p.start).1,
            chs(p.start).2,
            p.partition_type,
            chs(p.end).0,
            chs(p.end).1,
            chs(p.end).2,
        ] + spec_u32_to_le_bytes(p.start) + spec_u32_to_le_bytes((p.end - p.start) as u32),
    }
}

/// Block 0 `b` with the first `n` table entries replaced by those of `ps`.
pub open spec fn table_image_upto(b: Seq<u8>, ps: Seq<Option<MbrPartitionEntry>>, n: int) -> Seq<u8> {
    Seq::new(
        b.len(),
        |k: int|
            if 446 <= k < 446 + 16 * n {
                entry_bytes(ps[(k - 446) / 16])[(k - 446) % 16]
            } else {
                b[k]
            },
    )
}

/// Block 0 `b` with its partition table replaced by the entries `ps`.
pub open spec fn table_image(b: Seq<u8>, ps: Seq<Option<MbrPartitionEntry>>) -> Seq<u8> {
    table_image_upto(b, ps, 4)
}

/// An entry that `format` refuses on a device of `count` blocks.
pub open spec fn bad_entry(e: MbrPartitionEntry, count: u64) -> bool {
    e.partition_type == 0 || e.start == 0 || e.start > e.end || e.end > count
}

/// Some entry of `ps` that `format` refuses on a device of `count` blocks.
pub open spec fn has_bad_entry(ps: Seq<Option<MbrPartitionEntry>>, count: u64) -> bool {
    exists|i: int| 0 <= i < 4 && #[trigger] entry_is_bad(ps[i], count)
}

/// A present entry that `format` refuses.
pub open spec fn entry_is_bad(e: Option<MbrPartitionEntry>, count: u64) -> bool {
    match e {
        Some(p) => bad_entry(p, count),
        None => false,
    }
}

/// The partition (type, start, end) that slot `i` of the table in block 0
/// `b` describes on a device of `count` blocks; `None` for an empty slot or
/// one that does not fit the device.
pub open spec fn table_slot(b: Seq<u8>, i: int, count: u64) -> Option<(u8, u32, u32)> {
    let at = 446 + 16 * i;
    let ty = b[at + 4];
    let start = le32_at(b, at + 8);
    let n = le32_at(b, at + 12);
    if ty == 0 || start + n > u32::MAX || start == 0 || start >= count || start + n > count {
        None
    } else {
        Some((ty, start, (start + n) as u32))
    }
}

/// The (type, start, end) of a partition entry.
pub open spec fn entry_slot(e: Option<MbrPartitionEntry>) -> Option<(u8, u32, u32)> {
    match e {
        None => None,
        Some(p) => Some((p.partition_type, p.start, p.end)),
    }
}

/// Block address of `lba` in the packed cylinder, head and sector form.
fn lba_to_chs(lba: u32) -> (r: (u8, u8, u8))
    ensures
        r == chs(lba),
{
    let mut cylinder: u32 = lba / (256 * 63);
    let mut head: u32 = lba % (256 * 63) / 63;
    let mut sectors: u32 = lba % 63 + 1;
    if cylinder > 1023 || head > 255 || sectors > 63 {
        cylinder = 1023;
        head = 255;
        sectors = 63;
    }
    (head as u8, ((sectors & 0x3f) as u8) | (((cylinder >> 2) & 0xc0) as u8), (cylinder & 0xff) as u8)
}

/// The 16 bytes of a table entry.
fn entry_to_bytes(e: Option<MbrPartitionEntry>) -> (v: Vec<u8>)
    requires
        e matches Some(p) ==> p.start <= p.end,
    ensures
        v@ == entry_bytes(e),
{
    match e {
        None => {
            let v: Vec<u8> = vec![0u8; 16];
            proof {
                assert(v@ =~= entry_bytes(e));
            }
            v
        },
        Some(p) => {
            let mut v: Vec<u8> = Vec::new();
            v.push(
                if p.bootable {
                    0x80u8
                } else {
                    0u8
                },
            );
            let (h, s, c) = lba_to_chs(p.start);
            v.push(h);
            v.push(s);
            v.push(c);
            v.push(p.partition_type);
            let (h, s, c) = lba_to_chs(p.end);
            v.push(h);
            v.push(s);
            v.push(c);
            push_u32_le(&mut v, p.start);
            push_u32_le(&mut v, p.end - p.start);
            proof {
                assert(v@ =~= entry_bytes(e));
            }
            v
        },
    }
}

/// Reading back what `entry_bytes` wrote: the type at byte 4, the start at
/// bytes 8..12, the block count at bytes 12..16.
proof fn lemma_entry_fields(e: Option<MbrPartitionEntry>)
    requires
        e matches Some(p) ==> p.start <= p.end,
    ensures
        entry_bytes(e).len() == 16,
        entry_bytes(e)[4] == match e {
            None => 0u8,
            Some(p) => p.partition_type,
        },
        e matches Some(p) ==> spec_u32_from_le_bytes(entry_bytes(e).subrange(8, 12)) == p.start
            && spec_u32_from_le_bytes(entry_bytes(e).subrange(12, 16)) == (p.end - p.start) as u32,
{
    vstd::bytes::lemma_auto_spec_u32_to_from_le_bytes();
    match e {
        None => {},
        Some(p) => {
            let head = seq![
                if p.bootable {
                    0x80u8
                } else {
                    0u8
                },
                chs(p.start).0,
                chs(p.start).1,
                chs(p.start).2,
                p.partition_type,
                chs(p.end).0,
                chs(p.end).1,
                chs(p.end).2,
            ];
            let a = spec_u32_to_le_bytes(p.start);
            let b = spec_u32_to_le_bytes((p.end - p.start) as u32);
            assert(entry_bytes(e) == head + a + b);
            assert((head + a + b).subrange(8, 12) =~= a);
            assert((head + a + b).subrange(12, 16) =~= b);
        },
    }
}

impl<D> MbrPartitionDevice<D> {
    /// The partition type, its first block and the block past its end.
    pub closed spec fn spec_slot(&self) -> (u8, u32, u32) {
        (self.partition_type, self.start, self.end)
    }

    pub closed spec fn spec_inner(&self) -> D {
        self.inner
    }

    /// The partition type, a hint of the file system in it.
    pub fn get_partition_type(&self) -> (r: u8)
        ensures
            r == self.spec_slot().0,
    {
        self.partition_type
    }
}

/// The (type, start, end) of a partition, if any.
pub open spec fn device_slot<D>(p: Option<MbrPartitionDevice<D>>) -> Option<(u8, u32, u32)> {
    match p {
        None => None,
        Some(d) => Some(d.spec_slot()),
    }
}

/// Slot `i` of the table in `b` read back after the table was replaced by
/// `ps`: what an entry describes, where it fits the device.
proof fn lemma_table_slot_of_image(
    b: Seq<u8>,
    ps: Seq<Option<MbrPartitionEntry>>,
    i: int,
    count: u64,
)
    requires
        b.len() >= 512,
        ps.len() == 4,
        0 <= i < 4,
        forall|j: int| 0 <= j < 4 ==> (#[trigger] ps[j] matches Some(p) ==> !bad_entry(p, count)),
    ensures
        table_slot(table_image(b, ps), i, count) == match ps[i] {
            None => None,
            Some(p) => if (p.start as int) < (count as int) {
                Some((p.partition_type, p.start, p.end))
            } else {
                None
            },
        },
{
    let img = table_image(b, ps);
    let at = 446 + 16 * i;
    let eb = entry_bytes(ps[i]);
    lemma_entry_fields(ps[i]);
    assert forall|k: int| 0 <= k < 16 implies img[at + k] == #[trigger] eb[k] by {
        assert((at + k - 446) / 16 == i);
        assert((at + k - 446) % 16 == k);
    }
    assert(img[at + 4] == eb[4]);
    assert(img.subrange(at + 8, at + 12) =~= eb.subrange(8, 12));
    assert(img.subrange(at + 12, at + 16) =~= eb.subrange(12, 16));
}

/// What the table written for the partitions `ps` says of slot `i`: its
/// status byte is 0x80 for a bootable partition and 0 for any other, or for
/// an empty slot; its type byte is the partition's type; its first block
/// and its block count are the partition's.
pub proof fn lemma_table_entry_written(b: Seq<u8>, ps: Seq<Option<MbrPartitionEntry>>, i: int)
    requires
        b.len() >= 512,
        ps.len() == 4,
        0 <= i < 4,
        ps[i] matches Some(p) ==> p.start <= p.end,
    ensures
        table_image(b, ps).len() == b.len(),
        table_image(b, ps)[446 + 16 * i] == match ps[i] {
            None => 0u8,
            Some(p) => if p.bootable {
                0x80u8
            } else {
                0u8
            },
        },
        table_image(b, ps)[446 + 16 * i + 4] == match ps[i] {
            None => 0u8,
            Some(p) => p.partition_type,
        },
        ps[i] matches Some(p) ==> le32_at(table_image(b, ps), 446 + 16 * i + 8) == p.start && le32_at(
            table_image(b, ps),
            446 + 16 * i + 12,
        ) == p.end - p.start,
        forall|k: int| 0 <= k < b.len() && !(446 <= k < 510) ==> #[trigger] table_image(b, ps)[k] == b[k],
{
    let img = table_image(b, ps);
    let at = 446 + 16 * i;
    let eb = entry_bytes(ps[i]);
    lemma_entry_fields(ps[i]);
    assert forall|k: int| 0 <= k < 16 implies img[at + k] == #[trigger] eb[k] by {
        assert((at + k - 446) / 16 == i);
        assert((at + k - 446) % 16 == k);
    }
    assert(img[at] == eb[0]);
    assert(img[at + 4] == eb[4]);
    assert(img.subrange(at + 8, at + 12) =~= eb.subrange(8, 12));
    assert(img.subrange(at + 12, at + 16) =~= eb.subrange(12, 16));
}

/// Writing a table and reading it back gives the partitions written, each
/// that starts inside the device; the bootable flag is not read back.
pub proof fn lemma_format_then_mount(b: Seq<u8>, ps: Seq<Option<MbrPartitionEntry>>, count: u64)
    requires
        b.len() >= 512,
        ps.len() == 4,
        forall|j: int| 0 <= j < 4 ==> (#[trigger] ps[j] matches Some(p) ==> !bad_entry(p, count)),
    ensures
        forall|i: int|
            0 <= i < 4 ==> #[trigger] table_slot(table_image(b, ps), i, count) == match ps[i] {
                None => None,
                Some(p) => if (p.start as int) < (count as int) {
                    Some((p.partition_type, p.start, p.end))
                } else {
                    None
                },
            },
{
    assert forall|i: int| 0 <= i < 4 implies #[trigger] table_slot(table_image(b, ps), i, count)
        == match ps[i] {
        None => None,
        Some(p) => if (p.start as int) < (count as int) {
            Some((p.partition_type, p.start, p.end))
        } else {
            None
        },
    } by {
        lemma_table_slot_of_image(b, ps, i, count);
    }
}

impl<D: BlockDevice + Clone> MbrPartitionDevice<D> {
    /// The partition slot `i` of the table in `block` describes on a device
    /// of `count` blocks, over a handle to `device`.
    fn parse_slot(block: &Vec<u8>, i: usize, count: u64, device: &D) -> (r: Option<Self>)
        requires
            block@.len() >= 512,
            i < 4,
        ensures
            device_slot(r) == table_slot(block@, i as int, count),
    {
        let at = MBR_PARTITION_TABLE_OFFSET + i * MBR_PARTITION_ENTRY_SIZE;
        let ty = block[at + 4];
        if ty == 0 {
            return None;
        }
        let start = read_u32_le(block.as_slice(), at + 8);
        let n = read_u32_le(block.as_slice(), at + 12);
        let end = match start.checked_add(n) {
            Some(e) => e,
            None => {
                return None;
            },
        };
        if start == 0 || start as u64 >= count || end as u64 > count {
            return None;
        }
        Some(MbrPartitionDevice { inner: device.clone(), partition_type: ty, start, end })
    }

    /// The partition an entry given to `format` describes, over a handle to
    /// `device`.
    fn entry_device(e: Option<MbrPartitionEntry>, device: &D) -> (r: Option<Self>)
        ensures
            device_slot(r) == entry_slot(e),
    {
        match e {
            None => None,
            Some(p) => Some(
                MbrPartitionDevice {
                    inner: device.clone(),
                    partition_type: p.partition_type,
                    start: p.start,
                    end: p.end,
                },
            ),
        }
    }

    /// Reads the partition table in block 0 of `block_device` and gives a
    /// device for each slot that holds a partition inside the device; each
    /// holds its own handle to `block_device`, a clone of it.
    pub fn mount(block_device: &D) -> (r: Result<[Option<Self>; 4], MountError>)
        ensures
            (r == Err::<[Option<Self>; 4], MountError>(MountError::BlockSizeNotExpected)) <==> block_device.spec_block_size()
                < 512,
            r matches Err(MountError::IoError(_)) ==> block_device.spec_block_size() >= 512,
            r matches Ok(ps) ==> {
                &&& block_device.spec_block_size() >= 512
                &&& 0 < block_device.spec_block_count()
                &&& forall|i: int|
                    0 <= i < 4 ==> #[trigger] device_slot(ps@[i]) == table_slot(
                        block_of(block_device.spec_data(), block_device.spec_block_size() as int, 0),
                        i,
                        block_device.spec_block_count(),
                    )
            },
    {
        let count = block_device.block_count();
        let bs = block_device.block_size();
        if bs < 512 {
            return Err(MountError::BlockSizeNotExpected);
        }
        let buf = match block_device.read_block(0) {
            Ok(v) => v,
            Err(e) => {
                return Err(MountError::IoError(e));
            },
        };
        let p0 = Self::parse_slot(&buf, 0, count, block_device);
        let p1 = Self::parse_slot(&buf, 1, count, block_device);
        let p2 = Self::parse_slot(&buf, 2, count, block_device);
        let p3 = Self::parse_slot(&buf, 3, count, block_device);
        let ps = [p0, p1, p2, p3];
        proof {
            assert(device_slot(ps@[0]) == device_slot(p0));
            assert(device_slot(ps@[1]) == device_slot(p1));
            assert(device_slot(ps@[2]) == device_slot(p2));
            assert(device_slot(ps@[3]) == device_slot(p3));
        }
        Ok(ps)
    }

    /// Replaces the partition table in block 0 of `block_device` by the
    /// entries `partition`, leaving the partitions' contents alone, and gives
    /// a device for each entry; each holds a clone of `block_device`.
    pub fn format(block_device: &mut D, partition: [Option<MbrPartitionEntry>; 4]) -> (r: Result<
        [Option<Self>; 4],
        FormatError,
    >)
        ensures
            final(block_device).spec_block_size() == old(block_device).spec_block_size(),
            final(block_device).spec_block_count() == old(block_device).spec_block_count(),
            (r == Err::<[Option<Self>; 4], FormatError>(FormatError::BlockSizeNotExpected)) <==> old(
                block_device,
            ).spec_block_size() < 512,
            r matches Err(FormatError::BadArgument) ==> old(block_device).spec_block_size() >= 512
                && has_bad_entry(partition@, old(block_device).spec_block_count()),
            old(block_device).spec_block_size() >= 512 && has_bad_entry(
                partition@,
                old(block_device).spec_block_count(),
            ) ==> r matches Err(FormatError::BadArgument) || r matches Err(FormatError::IoError(_)),
            r is Err ==> final(block_device).spec_data() == old(block_device).spec_data(),
            r matches Ok(ps) ==> {
                &&& old(block_device).spec_block_size() >= 512
                &&& 0 < old(block_device).spec_block_count()
                &&& forall|i: int|
                    0 <= i < 4 ==> (#[trigger] partition@[i] matches Some(p) ==> !bad_entry(
                        p,
                        old(block_device).spec_block_count(),
                    ))
                &&& final(block_device).spec_data() == write_at(
                    old(block_device).spec_data(),
                    0,
                    table_image(
                        block_of(old(block_device).spec_data(), old(block_device).spec_block_size() as int, 0),
                        partition@,
                    ),
                )
                &&& forall|i: int| 0 <= i < 4 ==> #[trigger] device_slot(ps@[i]) == entry_slot(partition@[i])
            },
    {
        let count = block_device.block_count();
        let bs = block_device.block_size();
        if bs < 512 {
            return Err(FormatError::BlockSizeNotExpected);
        }
        let mut buf = match block_device.read_block(0) {
            Ok(v) => v,
            Err(e) => {
                return Err(FormatError::IoError(e));
            },
        };
        let ghost b0 = buf@;
        proof {
            assert(buf@ =~= table_image_upto(b0, partition@, 0));
        }
        let mut i: usize = 0;
        while i < MBR_PARTITION_ENTRY_COUNT
            invariant
                i <= 4,
                b0.len() == bs,
                bs >= 512,
                bs == old(block_device).spec_block_size(),
                count == old(block_device).spec_block_count(),
                *block_device == *old(block_device),
                b0 == block_of(old(block_device).spec_data(), bs as int, 0),
                buf@ == table_image_upto(b0, partition@, i as int),
                forall|j: int|
                    0 <= j < i ==> (#[trigger] partition@[j] matches Some(p) ==> !bad_entry(p, count)),
            decreases 4 - i,
        {
            let e = partition[i];
            if let Some(p) = e {
                if p.partition_type == 0 || p.start == 0 || p.start > p.end || p.end as u64 > count {
                    proof {
                        assert(entry_is_bad(partition@[i as int], count));
                    }
                    return Err(FormatError::BadArgument);
                }
            }
            let bytes = entry_to_bytes(e);
            proof {
                lemma_entry_fields(e);
            }
            let at = MBR_PARTITION_TABLE_OFFSET + i * MBR_PARTITION_ENTRY_SIZE;
            let ghost before = buf@;
            write_bytes(&mut buf, at, bytes.as_slice());
            proof {
                let next = table_image_upto(b0, partition@, i + 1);
                assert(buf@ == before.take(at as int) + bytes@ + before.skip(at + 16));
                assert forall|k: int| 0 <= k < bs implies #[trigger] buf@[k] == next[k] by {
                    if k < at {
                        assert(buf@[k] == before[k]);
                    } else if k < at + 16 {
                        assert(buf@[k] == bytes@[k - at]);
                        assert((k - 446) / 16 == i);
                        assert((k - 446) % 16 == k - at);
                    } else {
                        assert(buf@[k] == before[k]);
                    }
                }
                assert(buf@ =~= table_image_upto(b0, partition@, i + 1));
            }
            i = i + 1;
        }
        match block_device.write_block(0, buf.as_slice()) {
            Ok(_) => {},
            Err(e) => {
                return Err(FormatError::IoError(e));
            },
        }
        proof {
            assert(buf@.take(bs as int) =~= buf@);
            assert(0 * bs == 0);
        }
        let p0 = Self::entry_device(partition[0], block_device);
        let p1 = Self::entry_device(partition[1], block_device);
        let p2 = Self::entry_device(partition[2], block_device);
        let p3 = Self::entry_device(partition[3], block_device);
        let ps = [p0, p1, p2, p3];
        proof {
            assert(device_slot(ps@[0]) == device_slot(p0));
            assert(device_slot(ps@[1]) == device_slot(p1));
            assert(device_slot(ps@[2]) == device_slot(p2));
            assert(device_slot(ps@[3]) == device_slot(p3));
        }
        Ok(ps)
    }
}

/// Block `first + i` of the device is block `i` of the window from block
/// `first` on: the offsets in bytes agree and stay inside the device.
proof fn lemma_window(bs: int, first: int, count: int, total: int, bi: int)
    requires
        bs >= 0,
        first >= 0,
        count >= 0,
        first + count <= total,
        0 <= bi < count,
    ensures
        (bi + first) * bs == bi * bs + first * bs,
        bi * bs + bs <= count * bs,
        first * bs + count * bs <= total * bs,
        0 <= bi * bs,
        0 <= first * bs,
{
    assert((bi + first) * bs == bi * bs + first * bs) by (nonlinear_arith);
    assert(bi * bs + bs <= count * bs) by (nonlinear_arith)
        requires
            bi < count,
            bs >= 0,
    ;
    assert(first * bs + count * bs <= total * bs) by (nonlinear_arith)
        requires
            first + count <= total,
            bs >= 0,
    ;
    assert(0 <= bi * bs) by (nonlinear_arith)
        requires
            bi >= 0,
            bs >= 0,
    ;
    assert(0 <= first * bs) by (nonlinear_arith)
        requires
            first >= 0,
            bs >= 0,
    ;
}

impl<D: BlockDevice> MbrPartitionDevice<D> {
    /// A partition has the blocks its slot spans, each of the size of the
    /// device under it, and shows those blocks of that device.
    pub proof fn lemma_partition_geometry(&self)
        ensures
            self.spec_block_size() == self.spec_inner().spec_block_size(),
            self.spec_block_count() == (if self.spec_slot().1 <= self.spec_slot().2 {
                (self.spec_slot().2 - self.spec_slot().1) as u64
            } else {
                0
            }),
            forall|k: int|
                0 <= k < self.spec_data().len() ==> #[trigger] self.spec_data()[k]
                    == self.spec_inner().spec_data()[self.spec_slot().1 * self.spec_block_size() + k],
    {
    }
}

impl<D: BlockDevice> BlockDevice for MbrPartitionDevice<D> {
    closed spec fn spec_block_size(&self) -> u64 {
        self.inner.spec_block_size()
    }

    /// The device under it is reliable and holds the whole partition.
    closed spec fn spec_reliable(&self) -> bool {
        self.inner.spec_reliable() && self.end <= self.inner.spec_block_count()
    }

    closed spec fn spec_block_count(&self) -> u64 {
        if self.start <= self.end {
            (self.end - self.start) as u64
        } else {
            0
        }
    }

    /// The blocks `start..end` of the device.
    closed spec fn spec_data(&self) -> Seq<u8> {
        Seq::new(
            (self.spec_block_count() * self.spec_block_size()) as nat,
            |k: int| self.inner.spec_data()[self.start * self.spec_block_size() + k],
        )
    }

    fn block_size(&self) -> (r: u64) {
        let r = self.inner.block_size();
        proof {
            assert(self.spec_block_count() * self.spec_block_size() >= 0) by (nonlinear_arith);
        }
        r
    }

    fn block_count(&self) -> (r: u64) {
        proof {
            assert(self.spec_block_count() * self.spec_block_size() >= 0) by (nonlinear_arith);
        }
        if self.start <= self.end {
            (self.end - self.start) as u64
        } else {
            0
        }
    }

    /// Writes block `start + block_index` of the device; fails for a block
    /// past the partition, and for a partition reaching past the device.
    fn write_block(&mut self, block_index: u64, buf: &[u8]) -> (r: Result<(), BlockDeviceError>)
        ensures
            block_index >= old(self).spec_block_count() ==> r == Err::<(), BlockDeviceError>(
                BlockDeviceError::OutOfBounds,
            ) && *final(self) == *old(self),
    {
        let count = self.block_count();
        if block_index >= count {
            return Err(BlockDeviceError::OutOfBounds);
        }
        let total = self.inner.block_count();
        proof {
            assert(old(self).spec_reliable() ==> self.end <= total);
        }
        if self.end as u64 > total {
            return Err(BlockDeviceError::OutOfBounds);
        }
        let ghost d0 = self.inner.spec_data();
        let ghost v0 = self.spec_data();
        let r = self.inner.write_block(block_index + self.start as u64, buf);
        proof {
            let bs = self.spec_block_size() as int;
            lemma_window(bs, self.start as int, count as int, total as int, block_index as int);
            if r is Ok {
                let x = buf@.take(bs);
                let p = block_index * bs;
                let v1 = self.spec_data();
                assert(v1 =~= write_at(v0, p, x)) by {
                    assert forall|k: int| 0 <= k < v1.len() implies #[trigger] v1[k] == write_at(
                        v0,
                        p,
                        x,
                    )[k] by {
                        let q = self.start * bs + k;
                        assert(q < d0.len());
                        if k < p {
                        } else if k < p + bs {
                        } else {
                        }
                    }
                }
            } else {
                assert(self.spec_data() =~= v0);
            }
        }
        r
    }

    /// Reads block `start + block_index` of the device; fails for a block
    /// past the partition, and for a partition reaching past the device.
    fn read_block(&self, block_index: u64) -> (r: Result<Vec<u8>, BlockDeviceError>)
        ensures
            block_index >= self.spec_block_count() ==> r == Err::<Vec<u8>, BlockDeviceError>(
                BlockDeviceError::OutOfBounds,
            ),
    {
        let count = self.block_count();
        if block_index >= count {
            return Err(BlockDeviceError::OutOfBounds);
        }
        let total = self.inner.block_count();
        proof {
            assert(self.spec_reliable() ==> self.end <= total);
        }
        if self.end as u64 > total {
            return Err(BlockDeviceError::OutOfBounds);
        }
        let r = self.inner.read_block(block_index + self.start as u64);
        proof {
            let bs = self.spec_block_size() as int;
            lemma_window(bs, self.start as int, count as int, total as int, block_index as int);
            if r is Ok {
                let v = r->Ok_0;
                assert(v@ =~= block_of(self.spec_data(), bs, block_index as int));
            }
        }
        r
    }
}

} // verus!
