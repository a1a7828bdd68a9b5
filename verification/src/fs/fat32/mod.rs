use vstd::prelude::*;

pub mod dir;
pub mod ops;
pub mod placement;
pub mod frame;
pub mod append;

use crate::bytes::{
    le16_at, le32_at, push_bytes, push_u16_le, push_u32_le, push_zeros, put_at, read_u16_le,
    read_u32_le, write_bytes, write_u16_le, write_u32_le,
};
use vstd::bytes::{spec_u16_to_le_bytes, spec_u32_to_le_bytes};
use crate::fs::device::{block_of, write_at, zero_blocks, BlockDevice, BlockDeviceError};
use crate::fs::{FileSystemError, FileMetadata};

verus! {

/// Bytes of one FAT entry.
pub const FAT_ENTRY_SIZE: u64 = 4;
/// A free cluster.
pub const FAT_ENTRY_FREE: u32 = 0x00000000;
/// First reserved FAT value; smaller values link to the next cluster.
pub const FAT_ENTRY_RESERVED_START: u32 = 0x0FFFFFF0;
/// First end-of-chain value.
pub const FAT_ENTRY_EOC_START: u32 = 0x0FFFFFF8;
/// Bytes of one directory entry.
pub const DIRECTORY_ENTRY_SIZE: u64 = 32;
/// Most clusters a chain is followed through before it is taken as corrupt.
pub const CHAIN_LIMIT: u64 = 0x0FFFFFF0;

pub const BOOT_SECTOR_SIGNATURE: u16 = 0xAA55;
pub const FS_INFO_LEAD_SIGNATURE: u32 = 0x41615252;
pub const FS_INFO_STRUCT_SIGNATURE: u32 = 0x61417272;
pub const FS_INFO_TRAIL_SIGNATURE: u32 = 0xAA550000;

/// Why a device could not be mounted.
#[derive(Debug, Clone, Copy, PartialEq, Eq, Structural)]
pub enum MountError {
    IoError(BlockDeviceError),
    InvalidFormat,
}

/// Why a device could not be formatted.
#[derive(Debug, Clone, Copy, PartialEq, Eq, Structural)]
pub enum FormatError {
    IoError(BlockDeviceError),
    DeviceTooSmall,
}

/// The fields of the boot sector that the file system reads.
#[derive(Debug, Clone, Copy, PartialEq, Eq, Structural)]
pub struct Bpb {
    pub bytes_per_sector: u16,
    pub sectors_per_cluster: u8,
    pub reserved_sector_count: u16,
    pub num_fats: u8,
    pub root_entry_count: u16,
    pub total_sectors_16: u16,
    pub fat_size_16: u16,
    pub total_sectors_32: u32,
    pub fat_size_32: u32,
    pub root_cluster: u32,
    pub fs_info: u16,
    pub boot_signature: u8,
    pub boot_sector_signature: u16,
}

/// The boot sector fields found in its bytes.
pub open spec fn spec_bpb(b: Seq<u8>) -> Bpb {
    Bpb {
        bytes_per_sector: le16_at(b, 11),
        sectors_per_cluster: b[13],
        reserved_sector_count: le16_at(b, 14),
        num_fats: b[16],
        root_entry_count: le16_at(b, 17),
        total_sectors_16: le16_at(b, 19),
        fat_size_16: le16_at(b, 22),
        total_sectors_32: le32_at(b, 32),
        fat_size_32: le32_at(b, 36),
        root_cluster: le32_at(b, 44),
        fs_info: le16_at(b, 48),
        boot_signature: b[66],
        boot_sector_signature: le16_at(b, 510),
    }
}

/// `x` is a power of two.
pub open spec fn is_pow2_u16(x: u16) -> bool {
    x != 0 && (x & ((x - 1) as u16)) == 0
}

/// `x` is a power of two.
pub open spec fn is_pow2_u8(x: u8) -> bool {
    x != 0 && (x & ((x - 1) as u8)) == 0
}

/// A boot sector describing a FAT32 volume on a device of `block_count`
/// blocks of `block_size` bytes.
pub open spec fn bpb_valid(bpb: Bpb, block_size: u64, block_count: u64) -> bool {
    &&& bpb.bytes_per_sector >= 512
    &&& bpb.bytes_per_sector <= block_size
    &&& is_pow2_u16(bpb.bytes_per_sector)
    &&& is_pow2_u8(bpb.sectors_per_cluster)
    &&& bpb.reserved_sector_count != 0
    &&& bpb.reserved_sector_count <= block_count
    &&& bpb.num_fats != 0
    &&& bpb.root_entry_count == 0
    &&& bpb.fat_size_16 == 0
    &&& if bpb.total_sectors_16 == 0 {
        bpb.total_sectors_32 == block_count
    } else {
        bpb.total_sectors_16 == block_count && bpb.total_sectors_32 == 0
    }
    &&& bpb.fat_size_32 != 0
    &&& bpb.root_cluster >= 2
    &&& (bpb.boot_signature == 0x28 || bpb.boot_signature == 0x29)
    &&& bpb.boot_sector_signature == BOOT_SECTOR_SIGNATURE
}

/// The signatures of a file system information sector are right.
pub open spec fn fs_info_valid(b: Seq<u8>) -> bool {
    &&& le32_at(b, 0) == FS_INFO_LEAD_SIGNATURE
    &&& le32_at(b, 484) == FS_INFO_STRUCT_SIGNATURE
    &&& le32_at(b, 508) == FS_INFO_TRAIL_SIGNATURE
}

fn is_pow2_16(x: u16) -> (r: bool)
    ensures
        r == is_pow2_u16(x),
{
    x != 0 && (x & (x - 1)) == 0
}

fn is_pow2_8(x: u8) -> (r: bool)
    ensures
        r == is_pow2_u8(x),
{
    x != 0 && (x & (x - 1)) == 0
}

/// Reads the boot sector fields from its bytes.
pub fn parse_bpb(b: &[u8]) -> (bpb: Bpb)
    requires
        b@.len() >= 512,
    ensures
        bpb == spec_bpb(b@),
{
    Bpb {
        bytes_per_sector: read_u16_le(b, 11),
        sectors_per_cluster: b[13],
        reserved_sector_count: read_u16_le(b, 14),
        num_fats: b[16],
        root_entry_count: read_u16_le(b, 17),
        total_sectors_16: read_u16_le(b, 19),
        fat_size_16: read_u16_le(b, 22),
        total_sectors_32: read_u32_le(b, 32),
        fat_size_32: read_u32_le(b, 36),
        root_cluster: read_u32_le(b, 44),
        fs_info: read_u16_le(b, 48),
        boot_signature: b[66],
        boot_sector_signature: read_u16_le(b, 510),
    }
}

/// Checks that a boot sector describes a FAT32 volume on the device.
pub fn check_bpb(bpb: &Bpb, block_size: u64, block_count: u64) -> (r: Result<(), MountError>)
    ensures
        r is Ok <==> bpb_valid(*bpb, block_size, block_count),
        r matches Err(e) ==> e == MountError::InvalidFormat,
{
    if bpb.bytes_per_sector < 512 || bpb.bytes_per_sector as u64 > block_size || !is_pow2_16(
        bpb.bytes_per_sector,
    ) {
        return Err(MountError::InvalidFormat);
    }
    if bpb.sectors_per_cluster == 0 || !is_pow2_8(bpb.sectors_per_cluster) {
        return Err(MountError::InvalidFormat);
    }
    if bpb.reserved_sector_count == 0 || bpb.reserved_sector_count as u64 > block_count {
        return Err(MountError::InvalidFormat);
    }
    if bpb.num_fats == 0 {
        return Err(MountError::InvalidFormat);
    }
    if bpb.root_entry_count != 0 {
        return Err(MountError::InvalidFormat);
    }
    if bpb.fat_size_16 != 0 {
        return Err(MountError::InvalidFormat);
    }
    if bpb.total_sectors_16 == 0 {
        if bpb.total_sectors_32 as u64 != block_count {
            return Err(MountError::InvalidFormat);
        }
    } else {
        if bpb.total_sectors_16 as u64 != block_count {
            return Err(MountError::InvalidFormat);
        }
        if bpb.total_sectors_32 != 0 {
            return Err(MountError::InvalidFormat);
        }
    }
    if bpb.fat_size_32 == 0 {
        return Err(MountError::InvalidFormat);
    }
    if bpb.root_cluster < 2 {
        return Err(MountError::InvalidFormat);
    }
    if bpb.boot_signature != 0x28 && bpb.boot_signature != 0x29 {
        return Err(MountError::InvalidFormat);
    }
    if bpb.boot_sector_signature != BOOT_SECTOR_SIGNATURE {
        return Err(MountError::InvalidFormat);
    }
    Ok(())
}

/// Checks the three signatures of a file system information sector.
pub fn check_fs_info(fs_info: &[u8]) -> (r: Result<(), MountError>)
    requires
        fs_info@.len() >= 512,
    ensures
        r is Ok <==> fs_info_valid(fs_info@),
        r matches Err(e) ==> e == MountError::InvalidFormat,
{
    if read_u32_le(fs_info, 0) != FS_INFO_LEAD_SIGNATURE {
        return Err(MountError::InvalidFormat);
    }
    if read_u32_le(fs_info, 484) != FS_INFO_STRUCT_SIGNATURE {
        return Err(MountError::InvalidFormat);
    }
    if read_u32_le(fs_info, 508) != FS_INFO_TRAIL_SIGNATURE {
        return Err(MountError::InvalidFormat);
    }
    Ok(())
}

/// The clusters that fit on a device, and the sectors left over.
///
/// The volume is cut in groups: two FAT sectors (one per table) and the
/// clusters they describe. What remains after whole groups takes two more FAT
/// sectors and as many clusters as fit. The first two cluster numbers take no
/// room, so their sectors are counted in, and taken off the result.
pub open spec fn spec_cluster_count(
    reserved_sector_count: int,
    bytes_per_sector: int,
    sectors_per_cluster: int,
    block_count: int,
) -> (int, int) {
    let cluster_per_fat = bytes_per_sector / 4;
    let sector_per_group = 2 + cluster_per_fat * sectors_per_cluster;
    let virtual_block_count = block_count - reserved_sector_count + sectors_per_cluster * 2;
    let group_count = virtual_block_count / sector_per_group;
    let remain = virtual_block_count - sector_per_group * group_count;
    let (remain_cluster, remain_block) = if remain > 2 {
        let rc = (remain - 2) / sectors_per_cluster;
        (rc, remain - 2 - rc * sectors_per_cluster)
    } else {
        (0, remain)
    };
    let total = group_count * cluster_per_fat + remain_cluster;
    (if total >= 2 {
        total - 2
    } else {
        0
    }, remain_block)
}

/// Counts the clusters that fit on a device: see [`spec_cluster_count`].
pub fn calc_cluster_count(
    reserved_sector_count: u64,
    bytes_per_sector: u64,
    sectors_per_cluster: u64,
    block_count: u64,
) -> (r: (u64, u64))
    requires
        sectors_per_cluster > 0,
        reserved_sector_count <= block_count,
        2 + (bytes_per_sector / 4) * sectors_per_cluster <= u64::MAX,
        block_count - reserved_sector_count + sectors_per_cluster * 2 <= u64::MAX,
    ensures
        r.0 == spec_cluster_count(
            reserved_sector_count as int,
            bytes_per_sector as int,
            sectors_per_cluster as int,
            block_count as int,
        ).0,
        r.1 == spec_cluster_count(
            reserved_sector_count as int,
            bytes_per_sector as int,
            sectors_per_cluster as int,
            block_count as int,
        ).1,
{
    let cluster_per_fat = bytes_per_sector / FAT_ENTRY_SIZE;
    let sector_per_group = 2 + cluster_per_fat * sectors_per_cluster;
    let virtual_block_count = block_count - reserved_sector_count + sectors_per_cluster * 2;
    let group_count = virtual_block_count / sector_per_group;
    proof {
        assert(sector_per_group * group_count <= virtual_block_count) by (nonlinear_arith)
            requires
                group_count == virtual_block_count / sector_per_group,
                sector_per_group > 0,
                virtual_block_count >= 0,
        ;
        assert(group_count * cluster_per_fat <= virtual_block_count) by (nonlinear_arith)
            requires
                group_count == virtual_block_count / sector_per_group,
                sector_per_group == 2 + cluster_per_fat * sectors_per_cluster,
                sectors_per_cluster >= 1,
                cluster_per_fat >= 0,
                virtual_block_count >= 0,
        ;
    }
    let remain_block_count = virtual_block_count - sector_per_group * group_count;
    let (remain_cluster, remain_block_count) = if remain_block_count > 2 {
        let remain_cluster = (remain_block_count - 2) / sectors_per_cluster;
        proof {
            assert(remain_cluster * sectors_per_cluster <= remain_block_count - 2) by (nonlinear_arith)
                requires
                    remain_cluster == (remain_block_count - 2) as int / sectors_per_cluster as int,
                    sectors_per_cluster > 0,
                    remain_block_count - 2 >= 0,
            ;
            assert(remain_cluster <= remain_block_count) by (nonlinear_arith)
                requires
                    remain_cluster == (remain_block_count - 2) as int / sectors_per_cluster as int,
                    sectors_per_cluster > 0,
                    remain_block_count - 2 >= 0,
            ;
        }
        let remain_block_count = remain_block_count - 2 - remain_cluster * sectors_per_cluster;
        (remain_cluster, remain_block_count)
    } else {
        (0, remain_block_count)
    };
    proof {
        assert(group_count * cluster_per_fat <= sector_per_group * group_count) by (nonlinear_arith)
            requires
                sector_per_group == 2 + cluster_per_fat * sectors_per_cluster,
                sectors_per_cluster >= 1,
                cluster_per_fat >= 0,
                group_count >= 0,
        ;
        assert(remain_cluster <= virtual_block_count - sector_per_group * group_count);
    }
    let cluster_total = (group_count * cluster_per_fat + remain_cluster).saturating_sub(2);
    (cluster_total, remain_block_count)
}

} // verus!

verus! {

/// A FAT32 file system on a block device.
///
/// The device holds the boot sector, the optional file system information
/// sector and the reserved sectors; then `num_fats` copies of the FAT, the table
/// that links each cluster to the next of its chain; then the clusters, numbered
/// from 2. Directories are chains of 32-byte entries.
pub struct Fat32FileSystem<D> {
    device: D,
    bpb: Bpb,
    fs_info: Option<Vec<u8>>,
    max_cluster: u32,
    occupied_file: Vec<u32>,
}

/// The FAT sector holding the entry of cluster `c`.
pub open spec fn fat_sector(bpb: Bpb, c: u32) -> int {
    bpb.reserved_sector_count + (c as int) / ((bpb.bytes_per_sector / 4) as int)
}

/// The byte offset of the entry of cluster `c` in its FAT sector.
pub open spec fn fat_offset(bpb: Bpb, c: u32) -> int {
    ((c as int) % ((bpb.bytes_per_sector / 4) as int)) * 4
}

/// The FAT entry of cluster `c` on a device holding `data` in blocks of `bs`.
pub open spec fn spec_fat_entry(data: Seq<u8>, bs: int, bpb: Bpb, c: u32) -> u32 {
    le32_at(block_of(data, bs, fat_sector(bpb, c)), fat_offset(bpb, c))
}

/// The first sector of cluster `c`: the clusters follow the reserved sectors
/// and two FAT copies.
pub open spec fn spec_cluster_sector(bpb: Bpb, c: u32) -> int {
    bpb.reserved_sector_count + bpb.fat_size_32 * 2 + (c - 2) * bpb.sectors_per_cluster
}

/// `block` written as the blocks `first`, `first + stride`, ... (`n` of them).
pub open spec fn write_copies(data: Seq<u8>, bs: int, first: int, stride: int, n: nat, block: Seq<u8>) -> Seq<u8>
    decreases n,
{
    if n == 0 {
        data
    } else {
        write_at(write_copies(data, bs, first, stride, (n - 1) as nat, block), (first + (n - 1) * stride) * bs, block)
    }
}

/// `data` with the FAT entry of cluster `c` set to `entry` in every FAT
/// copy, each copy taking the first FAT's sector with that entry changed.
pub open spec fn fat_entry_set(data: Seq<u8>, bs: int, bpb: Bpb, c: u32, entry: u32) -> Seq<u8> {
    write_copies(
        data,
        bs,
        fat_sector(bpb, c),
        bpb.fat_size_32 as int,
        bpb.num_fats as nat,
        put_at(block_of(data, bs, fat_sector(bpb, c)), fat_offset(bpb, c), vstd::bytes::spec_u32_to_le_bytes(entry)),
    )
}

/// `d1` is `d0` with the FAT entry of cluster `c` set to `entry` in every
/// copy, and the information sector perhaps rewritten after.
pub open spec fn fat_entry_written(d0: Seq<u8>, d1: Seq<u8>, bs: int, bpb: Bpb, c: u32, entry: u32) -> bool {
    let m = fat_entry_set(d0, bs, bpb, c, entry);
    d1 == m || block_replaced(m, d1, bs, bpb.fs_info as int)
}

/// `d1` is `d0` with every cluster of the chain from `c` freed in turn, each
/// next cluster read from the FAT as it stands then, the chain followed for at
/// most `fuel` clusters.
pub open spec fn chain_freed(d0: Seq<u8>, d1: Seq<u8>, bs: int, bpb: Bpb, c: u32, fuel: nat) -> bool
    decreases fuel,
{
    if c == FAT_ENTRY_FREE || c >= FAT_ENTRY_RESERVED_START {
        d1 == d0
    } else if fuel == 0 {
        false
    } else {
        exists|dm: Seq<u8>|
            fat_entry_written(d0, dm, bs, bpb, c, FAT_ENTRY_FREE) && chain_freed(
                dm,
                d1,
                bs,
                bpb,
                spec_fat_entry(d0, bs, bpb, c),
                (fuel - 1) as nat,
            )
    }
}

/// `d1` is `d0` with block `idx` replaced by some block of `bs` bytes.
pub open spec fn block_replaced(d0: Seq<u8>, d1: Seq<u8>, bs: int, idx: int) -> bool {
    exists|x: Seq<u8>| x.len() == bs && d1 == write_at(d0, idx * bs, x)
}

/// The device error as a file system error.
pub fn io_error(e: BlockDeviceError) -> (r: FileSystemError)
    ensures
        r == FileSystemError::IoError(e),
{
    FileSystemError::IoError(e)
}

impl<D: BlockDevice> Fat32FileSystem<D> {
    /// The layout the operations rely on: sectors of at least 512 bytes that fit
    /// in a block, nonempty clusters, and a whole information sector.
    pub closed spec fn wf(&self) -> bool {
        &&& self.bpb.bytes_per_sector >= 512
        &&& self.bpb.bytes_per_sector <= self.device.spec_block_size()
        &&& self.device.spec_block_size() <= usize::MAX
        &&& self.bpb.sectors_per_cluster > 0
        &&& self.bpb.root_cluster >= 2
        &&& self.fs_info matches Some(v) ==> v@.len() == 512
    }

    pub closed spec fn spec_bpb(&self) -> Bpb {
        self.bpb
    }

    pub closed spec fn spec_device(&self) -> D {
        self.device
    }

    pub closed spec fn spec_max_cluster(&self) -> u32 {
        self.max_cluster
    }

    /// The free cluster count of the information sector, if there is one.
    pub closed spec fn spec_free_count(&self) -> Option<u32> {
        match self.fs_info {
            Some(v) => Some(le32_at(v@, 488)),
            None => None,
        }
    }

    /// The bytes of the information sector kept in memory, if there is one.
    pub closed spec fn spec_fs_info(&self) -> Option<Seq<u8>> {
        match self.fs_info {
            Some(v) => Some(v@),
            None => None,
        }
    }

    /// The next free cluster hint of the information sector, if there is one.
    pub closed spec fn spec_next_free(&self) -> Option<u32> {
        match self.fs_info {
            Some(v) => Some(le32_at(v@, 492)),
            None => None,
        }
    }

    /// The start clusters of the open files.
    pub closed spec fn spec_occupied(&self) -> Seq<u32> {
        self.occupied_file@
    }

    /// The FAT entry of cluster `c` as the device holds it now.
    pub open spec fn fat_entry(&self, c: u32) -> u32 {
        spec_fat_entry(
            self.spec_device().spec_data(),
            self.spec_device().spec_block_size() as int,
            self.spec_bpb(),
            c,
        )
    }

    /// No cluster from `from` up to `to` is free.
    pub open spec fn no_free_in(&self, from: int, to: int) -> bool {
        forall|k: u32| from <= k < to ==> self.fat_entry(k) != FAT_ENTRY_FREE
    }

    /// `c` is the first free cluster from `from` up to `to`.
    pub open spec fn first_free_in(&self, c: u32, from: int, to: int) -> bool {
        &&& from <= c < to
        &&& self.fat_entry(c) == FAT_ENTRY_FREE
        &&& self.no_free_in(from, c as int)
    }

    /// Where a search for a free cluster starts: the hint of the information
    /// sector, else cluster 2.
    pub open spec fn search_start(&self) -> u32 {
        match self.spec_next_free() {
            Some(h) => h,
            None => 2,
        }
    }

    /// A search for a free cluster finds none: none from where it starts to
    /// the last cluster, nor, after wrapping round, from cluster 2 to the
    /// hint.
    pub open spec fn none_free_searched(&self) -> bool {
        &&& self.no_free_in(self.search_start() as int, self.spec_max_cluster() + 2)
        &&& self.spec_next_free() matches Some(h) ==> self.no_free_in(2, h as int)
    }

    /// What `wf` gives.
    pub proof fn lemma_wf_facts(&self)
        requires
            self.wf(),
        ensures
            self.spec_bpb().bytes_per_sector >= 512,
            self.spec_bpb().bytes_per_sector <= self.spec_device().spec_block_size(),
            self.spec_device().spec_block_size() <= usize::MAX,
            self.spec_bpb().sectors_per_cluster > 0,
            self.spec_bpb().root_cluster >= 2,
    {
    }

    /// Writes block `index` of the device.
    pub fn write_device_block(&mut self, index: u64, buf: &[u8]) -> (r: Result<(), FileSystemError>)
        requires
            old(self).wf(),
        ensures
            final(self).wf(),
            final(self).spec_bpb() == old(self).spec_bpb(),
            final(self).spec_free_count() == old(self).spec_free_count(),
            final(self).spec_max_cluster() == old(self).spec_max_cluster(),
            final(self).spec_occupied() == old(self).spec_occupied(),
            final(self).spec_device().spec_block_size() == old(self).spec_device().spec_block_size(),
            final(self).spec_device().spec_block_count() == old(self).spec_device().spec_block_count(),
            r is Ok ==> final(self).spec_device().spec_data() == write_at(
                old(self).spec_device().spec_data(),
                index * old(self).spec_device().spec_block_size(),
                buf@.take(old(self).spec_device().spec_block_size() as int),
            ),
            r is Err ==> final(self).spec_device().spec_data() == old(self).spec_device().spec_data(),
            r matches Err(e) ==> e is IoError,
    {
        match self.device.write_block(index, buf) {
            Ok(_) => Ok(()),
            Err(e) => Err(io_error(e)),
        }
    }

    /// Writes `count` blocks of zeros from block `index` on.
    pub fn zero_device_blocks(&mut self, index: u64, count: u64) -> (r: Result<(), FileSystemError>)
        requires
            old(self).wf(),
        ensures
            final(self).wf(),
            final(self).spec_bpb() == old(self).spec_bpb(),
            final(self).spec_free_count() == old(self).spec_free_count(),
            final(self).spec_max_cluster() == old(self).spec_max_cluster(),
            final(self).spec_occupied() == old(self).spec_occupied(),
            final(self).spec_device().spec_block_size() == old(self).spec_device().spec_block_size(),
            final(self).spec_device().spec_block_count() == old(self).spec_device().spec_block_count(),
            r is Ok ==> final(self).spec_device().spec_data() == zero_blocks(
                old(self).spec_device().spec_data(),
                old(self).spec_device().spec_block_size() as int,
                index as int,
                count as nat,
            ),
            r is Ok && count > 0 ==> index + count <= old(self).spec_device().spec_block_count(),
            r matches Err(e) ==> e is IoError,
    {
        match self.device.write_zeros(index, count) {
            Ok(_) => Ok(()),
            Err(e) => Err(io_error(e)),
        }
    }

    /// Whether a file starting at `cluster` is open.
    pub fn is_occupied(&self, cluster: u32) -> (r: bool)
        ensures
            r == self.spec_occupied().contains(cluster),
    {
        let mut i: usize = 0;
        while i < self.occupied_file.len()
            invariant
                i <= self.occupied_file@.len(),
                forall|k: int| 0 <= k < i ==> self.occupied_file@[k] != cluster,
            decreases self.occupied_file@.len() - i,
        {
            if self.occupied_file[i] == cluster {
                return true;
            }
            i = i + 1;
        }
        false
    }

    /// Marks the file starting at `cluster` open; false when it already was.
    pub fn occupy(&mut self, cluster: u32) -> (r: bool)
        requires
            old(self).wf(),
        ensures
            final(self).wf(),
            final(self).spec_bpb() == old(self).spec_bpb(),
            final(self).spec_device() == old(self).spec_device(),
            final(self).spec_free_count() == old(self).spec_free_count(),
            final(self).spec_max_cluster() == old(self).spec_max_cluster(),
            r == !old(self).spec_occupied().contains(cluster),
            final(self).spec_occupied().to_set() == old(self).spec_occupied().to_set().insert(cluster),
            !r ==> final(self).spec_occupied() == old(self).spec_occupied(),
    {
        if self.is_occupied(cluster) {
            proof {
                assert(self.spec_occupied().to_set().insert(cluster) =~= self.spec_occupied().to_set());
            }
            return false;
        }
        let ghost o0 = self.occupied_file@;
        self.occupied_file.push(cluster);
        proof {
            assert(self.occupied_file@.to_set() =~= o0.to_set().insert(cluster)) by {
                assert forall|x: u32| self.occupied_file@.contains(x) <==> o0.contains(x) || x == cluster by {
                    if o0.contains(x) {
                        let k = choose|k: int| 0 <= k < o0.len() && o0[k] == x;
                        assert(self.occupied_file@[k] == x);
                    }
                    if x == cluster {
                        assert(self.occupied_file@[o0.len() as int] == x);
                    }
                }
            }
        }
        true
    }

    /// Marks the file starting at `cluster` closed.
    pub fn release(&mut self, cluster: u32)
        requires
            old(self).wf(),
        ensures
            final(self).wf(),
            final(self).spec_bpb() == old(self).spec_bpb(),
            final(self).spec_device() == old(self).spec_device(),
            final(self).spec_free_count() == old(self).spec_free_count(),
            final(self).spec_max_cluster() == old(self).spec_max_cluster(),
            final(self).spec_occupied().to_set() == old(self).spec_occupied().to_set().remove(cluster),
    {
        let ghost o0 = self.occupied_file@;
        let mut kept: Vec<u32> = Vec::new();
        let mut i: usize = 0;
        proof {
            assert(o0.take(0) =~= Seq::<u32>::empty());
            assert(kept@.to_set() =~= o0.take(0).to_set().remove(cluster));
        }
        while i < self.occupied_file.len()
            invariant
                i <= self.occupied_file@.len(),
                self.occupied_file@ == o0,
                kept@.to_set() == o0.take(i as int).to_set().remove(cluster),
            decreases self.occupied_file@.len() - i,
        {
            let x = self.occupied_file[i];
            let ghost k0 = kept@;
            if x != cluster {
                kept.push(x);
            }
            proof {
                assert(o0.take(i + 1) =~= o0.take(i as int).push(x));
                o0.take(i as int).lemma_push_to_set_commute(x);
                if x != cluster {
                    k0.lemma_push_to_set_commute(x);
                    assert(kept@.to_set() =~= o0.take(i + 1).to_set().remove(cluster));
                } else {
                    assert(kept@.to_set() =~= o0.take(i + 1).to_set().remove(cluster));
                }
            }
            i = i + 1;
        }
        self.occupied_file = kept;
        proof {
            assert(o0.take(o0.len() as int) =~= o0);
        }
    }

    /// The bytes of all clusters.
    pub fn cluster_bytes_total(&self) -> (r: u64)
        ensures
            r == self.spec_max_cluster() * self.spec_bpb().bytes_per_sector * self.spec_bpb().sectors_per_cluster,
    {
        proof {
            assert(self.max_cluster * self.bpb.bytes_per_sector <= 0xFFFF_FFFFu64 * 0xFFFF) by (nonlinear_arith)
                requires
                    self.max_cluster <= 0xFFFF_FFFF,
                    self.bpb.bytes_per_sector <= 0xFFFF,
            ;
            assert(self.max_cluster * self.bpb.bytes_per_sector * self.bpb.sectors_per_cluster <= 0xFFFF_FFFFu64 * 0xFFFF * 0xFF)
                by (nonlinear_arith)
                requires
                    self.max_cluster * self.bpb.bytes_per_sector <= 0xFFFF_FFFFu64 * 0xFFFF,
                    self.bpb.sectors_per_cluster <= 0xFF,
            ;
        }
        self.max_cluster as u64 * self.bpb.bytes_per_sector as u64 * self.bpb.sectors_per_cluster as u64
    }

    /// The bytes of the free clusters, as the information sector counts them
    /// (0 without one).
    pub fn cluster_bytes_free(&self) -> (r: u64)
        requires
            self.wf(),
        ensures
            r == match self.spec_free_count() {
                Some(n) => n as int,
                None => 0int,
            } * self.spec_bpb().bytes_per_sector * self.spec_bpb().sectors_per_cluster,
    {
        let free: u32 = match &self.fs_info {
            Some(info) => read_u32_le(info.as_slice(), 488),
            None => 0,
        };
        proof {
            assert(free * self.bpb.bytes_per_sector <= 0xFFFF_FFFFu64 * 0xFFFF) by (nonlinear_arith)
                requires
                    free <= 0xFFFF_FFFF,
                    self.bpb.bytes_per_sector <= 0xFFFF,
            ;
            assert(free * self.bpb.bytes_per_sector * self.bpb.sectors_per_cluster <= 0xFFFF_FFFFu64 * 0xFFFF * 0xFF)
                by (nonlinear_arith)
                requires
                    free * self.bpb.bytes_per_sector <= 0xFFFF_FFFFu64 * 0xFFFF,
                    self.bpb.sectors_per_cluster <= 0xFF,
            ;
        }
        free as u64 * self.bpb.bytes_per_sector as u64 * self.bpb.sectors_per_cluster as u64
    }

    /// Gives the device back.
    pub fn into_device(self) -> (d: D)
        ensures
            d == self.spec_device(),
    {
        self.device
    }

    /// The boot sector fields.
    pub fn bpb(&self) -> (b: &Bpb)
        ensures
            *b == self.spec_bpb(),
    {
        &self.bpb
    }

    /// The device the file system lives on.
    pub fn device(&self) -> (d: &D)
        ensures
            *d == self.spec_device(),
    {
        &self.device
    }

    /// The first sector of a cluster.
    pub fn get_sector_by_cluster(&self, cluster: u32) -> (s: u64)
        requires
            cluster >= 2,
        ensures
            s == spec_cluster_sector(self.spec_bpb(), cluster),
    {
        proof {
            assert((cluster - 2) * self.bpb.sectors_per_cluster <= 0xFFFF_FFFFu64 * 0xFF) by (nonlinear_arith)
                requires
                    0 <= cluster - 2 <= 0xFFFF_FFFF,
                    0 <= self.bpb.sectors_per_cluster <= 0xFF,
            ;
        }
        self.bpb.reserved_sector_count as u64 + self.bpb.fat_size_32 as u64 * 2 + (cluster as u64
            - 2) * self.bpb.sectors_per_cluster as u64
    }

    /// The FAT entry of a cluster: the next cluster of its chain, or a mark.
    pub fn get_next_cluster(&self, cluster: u32) -> (r: Result<u32, FileSystemError>)
        requires
            self.wf(),
        ensures
            r matches Ok(v) ==> v == self.fat_entry(cluster),
            r matches Err(e) ==> e is IoError,
    {
        let cluster_per_sector = self.bpb.bytes_per_sector as u64 / FAT_ENTRY_SIZE;
        let sector_offset = cluster as u64 / cluster_per_sector;
        let offset = cluster as u64 % cluster_per_sector;
        let block_index = self.bpb.reserved_sector_count as u64 + sector_offset;
        let buffer = match self.device.read_block(block_index) {
            Ok(b) => b,
            Err(e) => return Err(io_error(e)),
        };
        proof {
            assert(offset * 4 + 4 <= self.bpb.bytes_per_sector) by (nonlinear_arith)
                requires
                    offset < cluster_per_sector,
                    cluster_per_sector == self.bpb.bytes_per_sector / 4,
            ;
        }
        let next = read_u32_le(buffer.as_slice(), (offset * 4) as usize);
        Ok(next)
    }

    /// Sets the FAT entry of `cluster` to `entry` in every FAT copy.
    pub fn update_cluster(&mut self, cluster: u32, entry: u32) -> (r: Result<(), FileSystemError>)
        requires
            old(self).wf(),
        ensures
            final(self).wf(),
            final(self).spec_bpb() == old(self).spec_bpb(),
            final(self).spec_next_free() == old(self).spec_next_free(),
            final(self).spec_free_count() == old(self).spec_free_count(),
            final(self).spec_max_cluster() == old(self).spec_max_cluster(),
            final(self).spec_occupied() == old(self).spec_occupied(),
            final(self).spec_device().spec_block_size() == old(self).spec_device().spec_block_size(),
            final(self).spec_device().spec_block_count() == old(self).spec_device().spec_block_count(),
            r is Ok ==> final(self).spec_device().spec_data() == write_copies(
                old(self).spec_device().spec_data(),
                old(self).spec_device().spec_block_size() as int,
                fat_sector(old(self).spec_bpb(), cluster),
                old(self).spec_bpb().fat_size_32 as int,
                old(self).spec_bpb().num_fats as nat,
                put_at(
                    block_of(
                        old(self).spec_device().spec_data(),
                        old(self).spec_device().spec_block_size() as int,
                        fat_sector(old(self).spec_bpb(), cluster),
                    ),
                    fat_offset(old(self).spec_bpb(), cluster),
                    vstd::bytes::spec_u32_to_le_bytes(entry),
                ),
            ),
            r matches Err(e) ==> e is IoError,
    {
        let cluster_per_sector = self.bpb.bytes_per_sector as u64 / FAT_ENTRY_SIZE;
        let sector_offset = cluster as u64 / cluster_per_sector;
        let offset = cluster as u64 % cluster_per_sector;
        let block_index = self.bpb.reserved_sector_count as u64 + sector_offset;
        let mut buffer = match self.device.read_block(block_index) {
            Ok(b) => b,
            Err(e) => return Err(io_error(e)),
        };
        proof {
            assert(offset * 4 + 4 <= self.bpb.bytes_per_sector) by (nonlinear_arith)
                requires
                    offset < cluster_per_sector,
                    cluster_per_sector == self.bpb.bytes_per_sector / 4,
            ;
        }
        write_u32_le(&mut buffer, (offset * 4) as usize, entry);
        let ghost d0 = self.device.spec_data();
        let ghost bs = self.device.spec_block_size();
        let mut i: u8 = 0;
        while i < self.bpb.num_fats
            invariant
                i <= self.bpb.num_fats,
                self.wf(),
                self.bpb == old(self).bpb,
                self.fs_info == old(self).fs_info,
                self.max_cluster == old(self).max_cluster,
                self.occupied_file == old(self).occupied_file,
                self.device.spec_block_size() == bs,
                self.device.spec_block_count() == old(self).device.spec_block_count(),
                d0 == old(self).device.spec_data(),
                bs == old(self).device.spec_block_size(),
                buffer@.len() == bs,
                block_index == fat_sector(self.bpb, cluster),
                self.device.spec_data() == write_copies(d0, bs as int, block_index as int, self.bpb.fat_size_32 as int, i as nat, buffer@),
            decreases self.bpb.num_fats - i,
        {
            proof {
                assert(i * self.bpb.fat_size_32 <= 0xFFu64 * 0xFFFF_FFFF) by (nonlinear_arith)
                    requires
                        0 <= i <= 0xFF,
                        0 <= self.bpb.fat_size_32 <= 0xFFFF_FFFF,
                ;
                assert(block_index <= 0xFFFF + 0xFFFF_FFFFu64);
            }
            let r = self.device.write_block(block_index + i as u64 * self.bpb.fat_size_32 as u64, buffer.as_slice());
            match r {
                Ok(_) => {},
                Err(e) => return Err(io_error(e)),
            }
            proof {
                assert(buffer@.take(bs as int) =~= buffer@);
            }
            i = i + 1;
        }
        Ok(())
    }

    /// Writes the file system information sector back, when there is one.
    pub fn write_fs_info(&mut self) -> (r: Result<(), FileSystemError>)
        requires
            old(self).wf(),
        ensures
            final(self).wf(),
            final(self).spec_bpb() == old(self).spec_bpb(),
            final(self).spec_next_free() == old(self).spec_next_free(),
            final(self).spec_free_count() == old(self).spec_free_count(),
            final(self).spec_max_cluster() == old(self).spec_max_cluster(),
            final(self).spec_occupied() == old(self).spec_occupied(),
            final(self).spec_device().spec_block_size() == old(self).spec_device().spec_block_size(),
            final(self).spec_device().spec_block_count() == old(self).spec_device().spec_block_count(),
            old(self).spec_free_count() is None ==> final(self).spec_device() == old(self).spec_device(),
            r is Ok ==> final(self).spec_device().spec_data() == old(self).spec_device().spec_data() || block_replaced(
                old(self).spec_device().spec_data(),
                final(self).spec_device().spec_data(),
                old(self).spec_device().spec_block_size() as int,
                old(self).spec_bpb().fs_info as int,
            ),
            r is Ok ==> final(self).spec_device().spec_data() == match old(self).spec_fs_info() {
                None => old(self).spec_device().spec_data(),
                Some(v) => write_at(
                    old(self).spec_device().spec_data(),
                    old(self).spec_bpb().fs_info * old(self).spec_device().spec_block_size(),
                    put_at(Seq::new(old(self).spec_device().spec_block_size() as nat, |i: int| 0u8), 0, v),
                ),
            },
            r is Err ==> final(self).spec_device().spec_data() == old(self).spec_device().spec_data(),
            r matches Err(e) ==> e is IoError,
    {
        match &self.fs_info {
            Some(info) => {
                let bs = self.device.block_size();
                let mut buffer: Vec<u8> = vec![0u8; bs as usize];
                proof {
                    assert(buffer@ =~= Seq::new(bs as nat, |i: int| 0u8));
                }
                write_bytes(&mut buffer, 0, info.as_slice());
                let block_index = self.bpb.fs_info as u64;
                let ghost d0 = self.device.spec_data();
                match self.device.write_block(block_index, buffer.as_slice()) {
                    Ok(_) => {
                        proof {
                            let x = buffer@.take(bs as int);
                            assert(x.len() == bs);
                            assert(block_replaced(d0, self.device.spec_data(), bs as int, block_index as int));
                            assert(x =~= put_at(Seq::new(bs as nat, |i: int| 0u8), 0, info@));
                        }
                        Ok(())
                    },
                    Err(e) => Err(io_error(e)),
                }
            },
            None => Ok(()),
        }
    }
}


impl<D: BlockDevice> Fat32FileSystem<D> {
    /// Sets the free cluster count of the information sector held in memory.
    fn set_free_count(&mut self, count: u32)
        requires
            old(self).wf(),
        ensures
            final(self).wf(),
            final(self).spec_bpb() == old(self).spec_bpb(),
            final(self).spec_next_free() == old(self).spec_next_free(),
            final(self).spec_device() == old(self).spec_device(),
            final(self).spec_max_cluster() == old(self).spec_max_cluster(),
            final(self).spec_occupied() == old(self).spec_occupied(),
            old(self).spec_free_count() is None ==> final(self).spec_free_count() is None,
            old(self).spec_free_count() is Some ==> final(self).spec_free_count() == Some(count),
    {
        match &mut self.fs_info {
            Some(info) => {
                let ghost before = info@;
                write_u32_le(info, 488, count);
                proof {
                    vstd::bytes::lemma_auto_spec_u32_to_from_le_bytes();
                    assert(spec_u32_to_le_bytes(count).len() == 4);
                    assert(before.len() == 512);
                    assert(info@.subrange(492, 496) =~= before.subrange(492, 496));
                }
            },
            None => {},
        }
    }

    /// The free cluster count and the next free cluster hint of the
    /// information sector, if there is one.
    fn fs_info_counts(&self) -> (r: Option<(u32, u32)>)
        requires
            self.wf(),
        ensures
            r is Some <==> self.spec_free_count() is Some,
            r matches Some(c) ==> Some(c.0) == self.spec_free_count(),
            r matches Some(c) ==> Some(c.1) == self.spec_next_free(),
    {
        match &self.fs_info {
            Some(info) => Some((read_u32_le(info.as_slice(), 488), read_u32_le(info.as_slice(), 492))),
            None => None,
        }
    }

    /// Scans the clusters `from..to` for a free one. The first free cluster is
    /// marked as the end of a chain in every FAT copy and returned.
    fn scan_free_cluster(&mut self, from: u32, to: u64) -> (r: Result<Option<u32>, FileSystemError>)
        requires
            old(self).wf(),
        ensures
            final(self).wf(),
            final(self).spec_bpb() == old(self).spec_bpb(),
            final(self).spec_next_free() == old(self).spec_next_free(),
            final(self).spec_free_count() == old(self).spec_free_count(),
            final(self).spec_max_cluster() == old(self).spec_max_cluster(),
            final(self).spec_occupied() == old(self).spec_occupied(),
            final(self).spec_device().spec_block_size() == old(self).spec_device().spec_block_size(),
            final(self).spec_device().spec_block_count() == old(self).spec_device().spec_block_count(),
            r matches Ok(Some(c)) ==> from <= c < to && old(self).fat_entry(c) == FAT_ENTRY_FREE
                && forall|k: u32| from <= k < c ==> old(self).fat_entry(k) != FAT_ENTRY_FREE,
            r matches Ok(Some(c)) ==> final(self).spec_device().spec_data() == fat_entry_set(
                old(self).spec_device().spec_data(),
                old(self).spec_device().spec_block_size() as int,
                old(self).spec_bpb(),
                c,
                FAT_ENTRY_EOC_START,
            ),
            r matches Ok(None) ==> final(self).spec_device() == old(self).spec_device() && forall|k: u32|
                from <= k < to ==> old(self).fat_entry(k) != FAT_ENTRY_FREE,
            r matches Err(e) ==> e is IoError,
    {
        let cluster_per_sector = self.bpb.bytes_per_sector as u64 / FAT_ENTRY_SIZE;
        let mut cache_index: u64 = 0;
        let mut cache: Option<Vec<u8>> = None;
        let mut current: u32 = from;
        let ghost d0 = self.device.spec_data();
        while (current as u64) < to
            invariant
                self.wf(),
                self == old(self),
                d0 == self.device.spec_data(),
                cluster_per_sector == self.bpb.bytes_per_sector / 4,
                from <= current,
                forall|k: u32| from <= k < current ==> old(self).fat_entry(k) != FAT_ENTRY_FREE,
                cache matches Some(c) ==> c@ == block_of(
                    d0,
                    self.device.spec_block_size() as int,
                    cache_index as int,
                ) && c@.len() == self.device.spec_block_size(),
            decreases to - current,
        {
            let sector_offset = current as u64 / cluster_per_sector;
            let offset = current as u64 % cluster_per_sector;
            let block_index = self.bpb.reserved_sector_count as u64 + sector_offset;
            let need_read = match &cache {
                Some(_) => cache_index != block_index,
                None => true,
            };
            if need_read {
                match self.device.read_block(block_index) {
                    Ok(b) => {
                        cache = Some(b);
                        cache_index = block_index;
                    },
                    Err(e) => return Err(io_error(e)),
                }
            }
            proof {
                assert(offset * 4 + 4 <= self.bpb.bytes_per_sector) by (nonlinear_arith)
                    requires
                        offset < cluster_per_sector,
                        cluster_per_sector == self.bpb.bytes_per_sector / 4,
                ;
            }
            let entry = match &cache {
                Some(c) => read_u32_le(c.as_slice(), (offset * 4) as usize),
                None => 0,
            };
            assert(block_index == fat_sector(self.bpb, current));
            assert(offset * 4 == fat_offset(self.bpb, current));
            assert(entry == old(self).fat_entry(current));
            if entry != FAT_ENTRY_FREE {
                if current == u32::MAX {
                    return Ok(None);
                }
                current = current + 1;
                continue;
            }
            let r = self.update_cluster(current, FAT_ENTRY_EOC_START);
            match r {
                Ok(_) => {},
                Err(e) => return Err(e),
            }
            return Ok(Some(current));
        }
        Ok(None)
    }

    /// Finds a free cluster, marks it as the end of a chain and returns it.
    ///
    /// The scan starts at the hint of the information sector (or at cluster
    /// 2) and wraps around once. The free count of the information sector is
    /// kept up to date; when it is zero, or no cluster is free, the disk is full.
    pub fn find_available_cluster(&mut self) -> (r: Result<u32, FileSystemError>)
        requires
            old(self).wf(),
        ensures
            final(self).wf(),
            final(self).spec_next_free() == old(self).spec_next_free(),
            final(self).spec_bpb() == old(self).spec_bpb(),
            final(self).spec_max_cluster() == old(self).spec_max_cluster(),
            final(self).spec_occupied() == old(self).spec_occupied(),
            final(self).spec_device().spec_block_size() == old(self).spec_device().spec_block_size(),
            final(self).spec_device().spec_block_count() == old(self).spec_device().spec_block_count(),
            r matches Ok(c) ==> old(self).fat_entry(c) == FAT_ENTRY_FREE,
            r matches Ok(c) ==> c < old(self).spec_max_cluster() + 2 || (old(self).spec_next_free() matches Some(h)
                && c < h),
            r matches Ok(c) ==> ({
                let m = fat_entry_set(
                    old(self).spec_device().spec_data(),
                    old(self).spec_device().spec_block_size() as int,
                    old(self).spec_bpb(),
                    c,
                    FAT_ENTRY_EOC_START,
                );
                final(self).spec_device().spec_data() == m || block_replaced(
                    m,
                    final(self).spec_device().spec_data(),
                    old(self).spec_device().spec_block_size() as int,
                    old(self).spec_bpb().fs_info as int,
                )
            }),
            r matches Ok(c) ==> (old(self).spec_free_count() matches Some(n) ==> n > 0
                && final(self).spec_free_count() == Some((n - 1) as u32)),
            old(self).spec_free_count() is None ==> final(self).spec_free_count() is None,
            old(self).spec_free_count() == Some(0u32) ==> r == Err::<u32, FileSystemError>(
                FileSystemError::DiskFull,
            ),
            r matches Err(e) ==> e is IoError || e is DiskFull,
            r matches Ok(c) ==> old(self).first_free_in(
                c,
                old(self).search_start() as int,
                old(self).spec_max_cluster() + 2,
            ) || (old(self).spec_next_free() matches Some(h) && old(self).no_free_in(
                h as int,
                old(self).spec_max_cluster() + 2,
            ) && old(self).first_free_in(c, 2, h as int)),
            old(self).none_free_searched() ==> r is Err,
            r == Err::<u32, FileSystemError>(FileSystemError::DiskFull) ==> old(self).spec_free_count() == Some(
                0u32,
            ) || old(self).none_free_searched(),
    {
        proof {
            self.lemma_wf_facts();
        }
        let counts = self.fs_info_counts();
        let hint: Option<u32> = match counts {
            Some((count, next)) => {
                if count == 0 {
                    return Err(FileSystemError::DiskFull);
                }
                Some(next)
            },
            None => None,
        };
        let end: u64 = self.max_cluster as u64 + 2;
        let start: u32 = match hint {
            Some(h) => h,
            None => 2,
        };
        let ghost s0 = *self;
        proof {
            assert(start == s0.search_start());
        }
        let mut found = self.scan_free_cluster(start, end);
        match found {
            Ok(None) => {
                match hint {
                    Some(h) => {
                        let ghost s1 = *self;
                        proof {
                            assert forall|k: u32| #[trigger] s1.fat_entry(k) == s0.fat_entry(k) by {}
                        }
                        found = self.scan_free_cluster(2, h as u64);
                        proof {
                            assert(s0.no_free_in(h as int, s0.spec_max_cluster() + 2));
                            if found is Ok && found->Ok_0 is Some {
                                let c = found->Ok_0->Some_0;
                                assert(s1.first_free_in(c, 2, h as int));
                                assert(s0.fat_entry(c) == s1.fat_entry(c));
                                assert forall|k: u32| 2 <= k < c implies s0.fat_entry(k) != FAT_ENTRY_FREE by {
                                    assert(s1.fat_entry(k) != FAT_ENTRY_FREE);
                                    assert(s0.fat_entry(k) == s1.fat_entry(k));
                                }
                                assert(s0.first_free_in(c, 2, h as int));
                            }
                            if found == Ok::<Option<u32>, FileSystemError>(None) {
                                assert forall|k: u32| 2 <= k < h implies s0.fat_entry(k) != FAT_ENTRY_FREE by {
                                    assert(s1.fat_entry(k) != FAT_ENTRY_FREE);
                                    assert(s0.fat_entry(k) == s1.fat_entry(k));
                                }
                            }
                        }
                    },
                    None => {},
                }
            },
            _ => {},
        }
        match found {
            Ok(Some(c)) => {
                match counts {
                    Some((count, _)) => {
                        self.set_free_count(count - 1);
                        match self.write_fs_info() {
                            Ok(_) => {},
                            Err(e) => return Err(e),
                        }
                    },
                    None => {},
                }
                Ok(c)
            },
            Ok(None) => {
                match counts {
                    Some(_) => {
                        self.set_free_count(0);
                        match self.write_fs_info() {
                            Ok(_) => {},
                            Err(e) => return Err(e),
                        }
                    },
                    None => {},
                }
                Err(FileSystemError::DiskFull)
            },
            Err(e) => Err(e),
        }
    }

    /// Marks a cluster free and counts it in the information sector.
    pub fn free_cluster(&mut self, cluster: u32) -> (r: Result<(), FileSystemError>)
        requires
            old(self).wf(),
        ensures
            final(self).wf(),
            final(self).spec_bpb() == old(self).spec_bpb(),
            final(self).spec_max_cluster() == old(self).spec_max_cluster(),
            final(self).spec_occupied() == old(self).spec_occupied(),
            final(self).spec_device().spec_block_size() == old(self).spec_device().spec_block_size(),
            final(self).spec_device().spec_block_count() == old(self).spec_device().spec_block_count(),
            r is Ok ==> (old(self).spec_free_count() matches Some(n) ==> final(self).spec_free_count()
                == Some(n.wrapping_add(1))),
            old(self).spec_free_count() is None ==> final(self).spec_free_count() is None,
            r is Ok ==> fat_entry_written(
                old(self).spec_device().spec_data(),
                final(self).spec_device().spec_data(),
                old(self).spec_device().spec_block_size() as int,
                old(self).spec_bpb(),
                cluster,
                FAT_ENTRY_FREE,
            ),
            r matches Err(e) ==> e is IoError,
    {
        match self.update_cluster(cluster, FAT_ENTRY_FREE) {
            Ok(_) => {},
            Err(e) => return Err(e),
        }
        match self.fs_info_counts() {
            Some((count, _)) => {
                self.set_free_count(count.wrapping_add(1));
                self.write_fs_info()
            },
            None => Ok(()),
        }
    }
}

} // verus!

verus! {

/// The boot sector the formatter writes for `bpb`: a jump, the OEM name, the
/// fields, the "FAT32" type name, an empty boot code and the signature.
pub open spec fn format_image(bpb: Bpb) -> Seq<u8> {
    seq![0xebu8, 0xfe, 0x90] + seq![0x63u8, 0x6f, 0x73, 0x66, 0x73, 0x31, 0x2e, 0x30]
        + spec_u16_to_le_bytes(bpb.bytes_per_sector) + seq![bpb.sectors_per_cluster]
        + spec_u16_to_le_bytes(bpb.reserved_sector_count) + seq![bpb.num_fats]
        + spec_u16_to_le_bytes(bpb.root_entry_count) + spec_u16_to_le_bytes(bpb.total_sectors_16)
        + seq![0u8] + spec_u16_to_le_bytes(bpb.fat_size_16) + zeros(8)
        + spec_u32_to_le_bytes(bpb.total_sectors_32) + spec_u32_to_le_bytes(bpb.fat_size_32)
        + zeros(4) + spec_u32_to_le_bytes(bpb.root_cluster) + spec_u16_to_le_bytes(bpb.fs_info)
        + spec_u16_to_le_bytes(0xFFFF) + zeros(12) + seq![0x80u8, 0] + seq![bpb.boot_signature]
        + zeros(15) + seq![0x46u8, 0x41, 0x54, 0x33, 0x32, 0x20, 0x20, 0x20] + zeros(420)
        + spec_u16_to_le_bytes(bpb.boot_sector_signature)
}

/// `n` zero bytes.
pub open spec fn zeros(n: nat) -> Seq<u8> {
    Seq::new(n, |i: int| 0u8)
}

/// The file system information sector holding the free cluster count and the
/// next free cluster hint.
pub open spec fn fs_info_image(free: u32, next: u32) -> Seq<u8> {
    spec_u32_to_le_bytes(FS_INFO_LEAD_SIGNATURE) + zeros(480) + spec_u32_to_le_bytes(
        FS_INFO_STRUCT_SIGNATURE,
    ) + spec_u32_to_le_bytes(free) + spec_u32_to_le_bytes(next) + zeros(12) + spec_u32_to_le_bytes(
        FS_INFO_TRAIL_SIGNATURE,
    )
}

/// The boot sector of a formatted volume reads back as the fields it was
/// written from.
pub proof fn lemma_format_image_parses(bpb: Bpb)
    ensures
        format_image(bpb).len() == 512,
        spec_bpb(format_image(bpb)) == bpb,
{
    let b = format_image(bpb);
    vstd::bytes::lemma_auto_spec_u16_to_from_le_bytes();
    vstd::bytes::lemma_auto_spec_u32_to_from_le_bytes();
    assert(b.subrange(11, 13) =~= spec_u16_to_le_bytes(bpb.bytes_per_sector));
    assert(b.subrange(14, 16) =~= spec_u16_to_le_bytes(bpb.reserved_sector_count));
    assert(b.subrange(17, 19) =~= spec_u16_to_le_bytes(bpb.root_entry_count));
    assert(b.subrange(19, 21) =~= spec_u16_to_le_bytes(bpb.total_sectors_16));
    assert(b.subrange(22, 24) =~= spec_u16_to_le_bytes(bpb.fat_size_16));
    assert(b.subrange(32, 36) =~= spec_u32_to_le_bytes(bpb.total_sectors_32));
    assert(b.subrange(36, 40) =~= spec_u32_to_le_bytes(bpb.fat_size_32));
    assert(b.subrange(44, 48) =~= spec_u32_to_le_bytes(bpb.root_cluster));
    assert(b.subrange(48, 50) =~= spec_u16_to_le_bytes(bpb.fs_info));
    assert(b.subrange(510, 512) =~= spec_u16_to_le_bytes(bpb.boot_sector_signature));
}

/// The information sector reads back as the counts it was written from, with
/// its signatures right.
pub proof fn lemma_fs_info_image_parses(free: u32, next: u32)
    ensures
        fs_info_image(free, next).len() == 512,
        fs_info_valid(fs_info_image(free, next)),
        le32_at(fs_info_image(free, next), 488) == free,
        le32_at(fs_info_image(free, next), 492) == next,
{
    let b = fs_info_image(free, next);
    vstd::bytes::lemma_auto_spec_u32_to_from_le_bytes();
    assert(b.subrange(0, 4) =~= spec_u32_to_le_bytes(FS_INFO_LEAD_SIGNATURE));
    assert(b.subrange(484, 488) =~= spec_u32_to_le_bytes(FS_INFO_STRUCT_SIGNATURE));
    assert(b.subrange(488, 492) =~= spec_u32_to_le_bytes(free));
    assert(b.subrange(492, 496) =~= spec_u32_to_le_bytes(next));
    assert(b.subrange(508, 512) =~= spec_u32_to_le_bytes(FS_INFO_TRAIL_SIGNATURE));
}

} // verus!

verus! {

/// Builds the boot sector of a formatted volume.
fn build_format_image(bpb: &Bpb) -> (v: Vec<u8>)
    ensures
        v@ == format_image(*bpb),
{
    let mut v: Vec<u8> = Vec::new();
    let jump: Vec<u8> = vec![0xebu8, 0xfe, 0x90];
    push_bytes(&mut v, jump.as_slice());
    let oem: Vec<u8> = vec![0x63u8, 0x6f, 0x73, 0x66, 0x73, 0x31, 0x2e, 0x30];
    push_bytes(&mut v, oem.as_slice());
    push_u16_le(&mut v, bpb.bytes_per_sector);
    let spc: Vec<u8> = vec![bpb.sectors_per_cluster];
    push_bytes(&mut v, spc.as_slice());
    push_u16_le(&mut v, bpb.reserved_sector_count);
    let nf: Vec<u8> = vec![bpb.num_fats];
    push_bytes(&mut v, nf.as_slice());
    push_u16_le(&mut v, bpb.root_entry_count);
    push_u16_le(&mut v, bpb.total_sectors_16);
    let media: Vec<u8> = vec![0u8];
    push_bytes(&mut v, media.as_slice());
    push_u16_le(&mut v, bpb.fat_size_16);
    push_zeros(&mut v, 8);
    push_u32_le(&mut v, bpb.total_sectors_32);
    push_u32_le(&mut v, bpb.fat_size_32);
    push_zeros(&mut v, 4);
    push_u32_le(&mut v, bpb.root_cluster);
    push_u16_le(&mut v, bpb.fs_info);
    push_u16_le(&mut v, 0xFFFF);
    push_zeros(&mut v, 12);
    let drive: Vec<u8> = vec![0x80u8, 0];
    push_bytes(&mut v, drive.as_slice());
    let sig: Vec<u8> = vec![bpb.boot_signature];
    push_bytes(&mut v, sig.as_slice());
    push_zeros(&mut v, 15);
    let fs_type: Vec<u8> = vec![0x46u8, 0x41, 0x54, 0x33, 0x32, 0x20, 0x20, 0x20];
    push_bytes(&mut v, fs_type.as_slice());
    push_zeros(&mut v, 420);
    push_u16_le(&mut v, bpb.boot_sector_signature);
    v
}

/// Builds a file system information sector.
fn build_fs_info_image(free: u32, next: u32) -> (v: Vec<u8>)
    ensures
        v@ == fs_info_image(free, next),
{
    let mut v: Vec<u8> = Vec::new();
    push_u32_le(&mut v, FS_INFO_LEAD_SIGNATURE);
    push_zeros(&mut v, 480);
    push_u32_le(&mut v, FS_INFO_STRUCT_SIGNATURE);
    push_u32_le(&mut v, free);
    push_u32_le(&mut v, next);
    push_zeros(&mut v, 12);
    push_u32_le(&mut v, FS_INFO_TRAIL_SIGNATURE);
    v
}

} // verus!

verus! {

/// The largest power of two not above `x` (1 below 2).
pub open spec fn floor_pow2(x: int) -> int
    decreases x,
{
    if x < 2 {
        1
    } else {
        2 * floor_pow2(x / 2)
    }
}

proof fn lemma_floor_pow2_bounds(x: int)
    requires
        x >= 1,
    ensures
        1 <= floor_pow2(x) <= x,
        x < 2 * floor_pow2(x),
    decreases x,
{
    if x >= 2 {
        lemma_floor_pow2_bounds(x / 2);
    }
}

proof fn lemma_floor_pow2_at_least(x: int, c: int)
    requires
        c >= 1,
        x >= c,
        floor_pow2(c) == c,
    ensures
        floor_pow2(x) >= c,
    decreases x,
{
    lemma_floor_pow2_bounds(x);
    if c >= 2 {
        lemma_floor_pow2_bounds(c);
        lemma_floor_pow2_bounds(c / 2);
        assert(floor_pow2(c / 2) == c / 2);
        lemma_floor_pow2_at_least(x / 2, c / 2);
    }
}

/// The largest power of two not above `x`.
fn floor_pow2_u64(x: u64) -> (p: u64)
    requires
        x >= 1,
    ensures
        p == floor_pow2(x as int),
{
    let mut p: u64 = 1;
    let mut y: u64 = x;
    proof {
        lemma_floor_pow2_bounds(x as int);
    }
    while y >= 2
        invariant
            1 <= y <= x,
            p >= 1,
            p * floor_pow2(y as int) == floor_pow2(x as int),
            floor_pow2(x as int) <= x,
        decreases y,
    {
        proof {
            lemma_floor_pow2_bounds((y / 2) as int);
            assert(p * 2 <= floor_pow2(x as int)) by (nonlinear_arith)
                requires
                    p * floor_pow2(y as int) == floor_pow2(x as int),
                    floor_pow2(y as int) == 2 * floor_pow2((y / 2) as int),
                    floor_pow2((y / 2) as int) >= 1,
                    p >= 1,
            ;
            assert((p * 2) * floor_pow2((y / 2) as int) == p * floor_pow2(y as int)) by (nonlinear_arith)
                requires
                    floor_pow2(y as int) == 2 * floor_pow2((y / 2) as int),
            ;
        }
        p = p * 2;
        y = y / 2;
    }
    p
}

/// The boot sector fields the formatter writes.
pub open spec fn format_bpb(bytes_per_sector: u64, reserved: u64, fat_size: u64, block_count: u64) -> Bpb {
    Bpb {
        bytes_per_sector: bytes_per_sector as u16,
        sectors_per_cluster: 8,
        reserved_sector_count: reserved as u16,
        num_fats: 2,
        root_entry_count: 0,
        total_sectors_16: 0,
        fat_size_16: 0,
        total_sectors_32: block_count as u32,
        fat_size_32: fat_size as u32,
        root_cluster: 2,
        fs_info: 1,
        boot_signature: 0x28,
        boot_sector_signature: BOOT_SECTOR_SIGNATURE,
    }
}

/// The clusters a mounted volume uses: the fewest of what its FATs can
/// number and what the device holds after the reserved sectors and the FATs.
pub open spec fn max_cluster_of(bpb: Bpb, block_count: int) -> u32 {
    let fat_limit = bpb.fat_size_32 * bpb.bytes_per_sector / 4 - 2;
    let device_limit = (block_count - bpb.reserved_sector_count - bpb.fat_size_32 * bpb.num_fats)
        / (bpb.sectors_per_cluster as int);
    (if fat_limit < device_limit {
        fat_limit
    } else {
        device_limit
    }) as u32
}

/// The clusters a mounted volume counts fit both on the device and in its
/// FATs: that many clusters of `sectors_per_cluster` sectors take no more
/// than the blocks after the reserved sectors and the FATs, and the FATs
/// have an entry for each (besides the two reserved ones). When both limits
/// fit in 32 bits the count is the smaller of them, so no cluster that fits
/// is left out.
pub proof fn lemma_max_cluster_fits(bpb: Bpb, block_count: int)
    requires
        bpb.sectors_per_cluster > 0,
        bpb.fat_size_32 >= 1,
        bpb.bytes_per_sector >= 512,
        bpb.reserved_sector_count + bpb.fat_size_32 * bpb.num_fats <= block_count,
    ensures
        max_cluster_of(bpb, block_count) * bpb.sectors_per_cluster <= block_count - bpb.reserved_sector_count
            - bpb.fat_size_32 * bpb.num_fats,
        max_cluster_of(bpb, block_count) <= bpb.fat_size_32 * bpb.bytes_per_sector / 4 - 2,
        ({
            let fat_limit = bpb.fat_size_32 * bpb.bytes_per_sector / 4 - 2;
            let device_limit = (block_count - bpb.reserved_sector_count - bpb.fat_size_32 * bpb.num_fats)
                / (bpb.sectors_per_cluster as int);
            fat_limit <= u32::MAX && device_limit <= u32::MAX ==> (max_cluster_of(bpb, block_count)
                == fat_limit || max_cluster_of(bpb, block_count) == device_limit) && max_cluster_of(
                bpb,
                block_count,
            ) <= fat_limit && max_cluster_of(bpb, block_count) <= device_limit
        }),
{
    let spc = bpb.sectors_per_cluster as int;
    let fat_limit = bpb.fat_size_32 * bpb.bytes_per_sector / 4 - 2;
    let room = block_count - bpb.reserved_sector_count - bpb.fat_size_32 * bpb.num_fats;
    let device_limit = room / spc;
    assert(bpb.fat_size_32 * bpb.bytes_per_sector >= 512) by (nonlinear_arith)
        requires
            bpb.fat_size_32 >= 1,
            bpb.bytes_per_sector >= 512,
    ;
    assert(fat_limit >= 126);
    assert(device_limit >= 0 && device_limit * spc <= room) by (nonlinear_arith)
        requires
            room >= 0,
            spc > 0,
            device_limit == room / spc,
    ;
    let m = if fat_limit < device_limit {
        fat_limit
    } else {
        device_limit
    };
    let x = max_cluster_of(bpb, block_count);
    assert(x == m as u32);
    assert(x <= m);
    assert(x * spc <= m * spc) by (nonlinear_arith)
        requires
            0 <= x <= m,
            spc > 0,
    ;
    assert(m * spc <= device_limit * spc) by (nonlinear_arith)
        requires
            m <= device_limit,
            spc > 0,
    ;
}

proof fn lemma_write_at_keeps_prefix(data: Seq<u8>, pos: int, bytes: Seq<u8>, p: int)
    requires
        0 <= p <= pos,
        pos + bytes.len() <= data.len(),
    ensures
        write_at(data, pos, bytes).len() == data.len(),
        write_at(data, pos, bytes).take(p) == data.take(p),
{
    assert(write_at(data, pos, bytes).take(p) =~= data.take(p));
}

proof fn lemma_zero_blocks_keep_prefix(data: Seq<u8>, bs: int, first: int, n: nat, p: int, count: int)
    requires
        bs > 0,
        0 <= p <= first * bs,
        first + n <= count,
        data.len() == count * bs,
    ensures
        zero_blocks(data, bs, first, n).len() == data.len(),
        zero_blocks(data, bs, first, n).take(p) == data.take(p),
    decreases n,
{
    if n > 0 {
        lemma_zero_blocks_keep_prefix(data, bs, first, (n - 1) as nat, p, count);
        let prev = zero_blocks(data, bs, first, (n - 1) as nat);
        assert((first + n - 1) * bs + bs <= count * bs) by (nonlinear_arith)
            requires
                first + n <= count,
                bs > 0,
        ;
        assert(first * bs <= (first + n - 1) * bs) by (nonlinear_arith)
            requires
                n >= 1,
                bs > 0,
        ;
        lemma_write_at_keeps_prefix(prev, (first + n - 1) * bs, Seq::new(bs as nat, |k: int| 0u8), p);
        assert(prev.take(p) == data.take(p));
    }
}

impl<D: BlockDevice> Fat32FileSystem<D> {
    /// Mounts the FAT32 volume on `device`.
    ///
    /// The boot sector is read and checked; the information sector is read
    /// and checked when the boot sector places it among the reserved sectors.
    pub fn mount(device: D) -> (r: Result<Self, MountError>)
        ensures
            device.spec_block_size() < 512 || device.spec_block_count() < 2 ==> r
                == Err::<Self, MountError>(MountError::InvalidFormat),
            r matches Ok(fs) ==> {
                let bs = device.spec_block_size() as int;
                let count = device.spec_block_count() as int;
                let bpb = fs.spec_bpb();
                &&& fs.wf()
                &&& fs.spec_device() == device
                &&& bpb == spec_bpb(block_of(device.spec_data(), bs, 0))
                &&& bpb_valid(bpb, bs as u64, count as u64)
                &&& bpb.fs_info < bpb.reserved_sector_count ==> {
                    &&& fs_info_valid(block_of(device.spec_data(), bs, bpb.fs_info as int))
                    &&& fs.spec_free_count() == Some(
                        le32_at(block_of(device.spec_data(), bs, bpb.fs_info as int), 488),
                    )
                }
                &&& bpb.fs_info >= bpb.reserved_sector_count ==> fs.spec_free_count() is None
                &&& bpb.reserved_sector_count + bpb.fat_size_32 * bpb.num_fats <= count
                &&& fs.spec_max_cluster() == max_cluster_of(bpb, count)
                &&& fs.spec_max_cluster() * bpb.sectors_per_cluster <= count - bpb.reserved_sector_count
                    - bpb.fat_size_32 * bpb.num_fats
                &&& fs.spec_max_cluster() <= bpb.fat_size_32 * bpb.bytes_per_sector / 4 - 2
                &&& fs.spec_occupied() == Seq::<u32>::empty()
            },
            r == Err::<Self, MountError>(MountError::InvalidFormat) ==> {
                let bs = device.spec_block_size() as int;
                let count = device.spec_block_count() as int;
                let bpb = spec_bpb(block_of(device.spec_data(), bs, 0));
                ||| bs < 512
                ||| count < 2
                ||| !bpb_valid(bpb, bs as u64, count as u64)
                ||| (bpb.fs_info < bpb.reserved_sector_count && !fs_info_valid(
                    block_of(device.spec_data(), bs, bpb.fs_info as int),
                ))
                ||| bpb.reserved_sector_count + bpb.fat_size_32 * bpb.num_fats > count
            },
            device.spec_reliable() ==> !(r matches Err(MountError::IoError(_))),
    {
        let block_size = device.block_size();
        if block_size < 512 {
            return Err(MountError::InvalidFormat);
        }
        let block_count = device.block_count();
        if block_count < 2 {
            return Err(MountError::InvalidFormat);
        }
        let boot = match device.read_block(0) {
            Ok(b) => b,
            Err(e) => return Err(MountError::IoError(e)),
        };
        let _n = boot.len();
        let bpb = parse_bpb(boot.as_slice());
        match check_bpb(&bpb, block_size, block_count) {
            Ok(_) => {},
            Err(e) => return Err(e),
        }
        let fs_info: Option<Vec<u8>> = if bpb.fs_info < bpb.reserved_sector_count {
            let block = match device.read_block(bpb.fs_info as u64) {
                Ok(b) => b,
                Err(e) => return Err(MountError::IoError(e)),
            };
            match check_fs_info(block.as_slice()) {
                Ok(_) => {},
                Err(e) => return Err(e),
            }
            let info = take_prefix(&block, 512);
            proof {
                assert(info@.subrange(488, 492) =~= block@.subrange(488, 492));
            }
            Some(info)
        } else {
            None
        };
        proof {
            assert(bpb.fat_size_32 as u64 * bpb.bytes_per_sector as u64 <= 0xFFFF_FFFFu64 * 0xFFFF)
                by (nonlinear_arith)
                requires
                    bpb.fat_size_32 <= 0xFFFF_FFFF,
                    bpb.bytes_per_sector <= 0xFFFF,
            ;
            assert(bpb.fat_size_32 as u64 * bpb.bytes_per_sector as u64 >= 512) by (nonlinear_arith)
                requires
                    bpb.fat_size_32 >= 1,
                    bpb.bytes_per_sector >= 512,
            ;
            assert(bpb.fat_size_32 as u64 * bpb.num_fats as u64 <= 0xFFFF_FFFFu64 * 0xFF)
                by (nonlinear_arith)
                requires
                    bpb.fat_size_32 <= 0xFFFF_FFFF,
                    bpb.num_fats <= 0xFF,
            ;
        }
        let fat_limit: u64 = bpb.fat_size_32 as u64 * bpb.bytes_per_sector as u64 / 4 - 2;
        let used: u64 = bpb.reserved_sector_count as u64 + bpb.fat_size_32 as u64 * bpb.num_fats as u64;
        if used > block_count {
            return Err(MountError::InvalidFormat);
        }
        let device_limit: u64 = (block_count - used) / bpb.sectors_per_cluster as u64;
        let limit: u64 = if fat_limit < device_limit {
            fat_limit
        } else {
            device_limit
        };
        let max_cluster = limit as u32;
        proof {
            lemma_max_cluster_fits(bpb, block_count as int);
        }
        Ok(Fat32FileSystem { device, bpb, fs_info, max_cluster, occupied_file: Vec::new() })
    }
}

/// The first `n` bytes of `v`.
fn take_prefix(v: &Vec<u8>, n: usize) -> (r: Vec<u8>)
    requires
        n <= v@.len(),
    ensures
        r@ == v@.take(n as int),
{
    let mut r: Vec<u8> = Vec::new();
    let mut k: usize = 0;
    while k < n
        invariant
            k <= n,
            n <= v@.len(),
            r@ == v@.take(k as int),
        decreases n - k,
    {
        r.push(v[k]);
        k = k + 1;
        proof {
            assert(r@ =~= v@.take(k as int));
        }
    }
    r
}

} // verus!

verus! {

/// The FAT sectors needed for `clusters` entries of 4 bytes in sectors of
/// `bps` bytes: the quotient, rounded up.
pub open spec fn fat_sectors_for(clusters: int, bps: int) -> int {
    clusters / (bps / 4) + if clusters % (bps / 4) == 0 {
        0int
    } else {
        1int
    }
}

proof fn lemma_cluster_count_bounds(reserved: int, bps: int, spc: int, count: int)
    requires
        spc > 0,
        bps >= 4,
        reserved <= count,
    ensures
        spec_cluster_count(reserved, bps, spc, count).0 <= count - reserved + spc * 2,
        spec_cluster_count(reserved, bps, spc, count).1 < spc + 3,
        spec_cluster_count(reserved, bps, spc, count).0 >= 0,
        spec_cluster_count(reserved, bps, spc, count).1 >= 0,
{
    let cpf = bps / 4;
    let spg = 2 + cpf * spc;
    let virt = count - reserved + spc * 2;
    let group = virt / spg;
    assert(spg * group <= virt) by (nonlinear_arith)
        requires
            group == virt / spg,
            spg > 0,
            virt >= 0,
    ;
    assert(group * cpf <= spg * group) by (nonlinear_arith)
        requires
            spg == 2 + cpf * spc,
            spc >= 1,
            cpf >= 0,
            group >= 0,
    ;
    assert(group >= 0) by (nonlinear_arith)
        requires
            group == virt / spg,
            spg > 0,
            virt >= 0,
    ;
    let remain = virt - spg * group;
    if remain > 2 {
        let rc = (remain - 2) / spc;
        assert(rc * spc <= remain - 2) by (nonlinear_arith)
            requires
                rc == (remain - 2) / spc,
                spc > 0,
                remain - 2 >= 0,
        ;
        assert(remain - 2 - rc * spc < spc) by (nonlinear_arith)
            requires
                rc == (remain - 2) / spc,
                spc > 0,
                remain - 2 >= 0,
        ;
        assert(rc <= remain - 2) by (nonlinear_arith)
            requires
                rc * spc <= remain - 2,
                spc >= 1,
                rc >= 0,
        ;
        assert(rc >= 0) by (nonlinear_arith)
            requires
                rc == (remain - 2) / spc,
                spc > 0,
                remain - 2 >= 0,
        ;
    }
}

/// The first FAT sector a format writes: the two reserved entries and the
/// end of the root directory chain, zeros after.
pub open spec fn fat_start_image(bs: int) -> Seq<u8> {
    put_at(
        put_at(
            put_at(Seq::new(bs as nat, |i: int| 0u8), 0, spec_u32_to_le_bytes(0xffffff00u32)),
            4,
            spec_u32_to_le_bytes(0xffffffffu32),
        ),
        8,
        spec_u32_to_le_bytes(FAT_ENTRY_EOC_START),
    )
}

/// Fills the fields of a FAT sector that the formatter writes first: the two
/// reserved entries and the end of the root directory chain.
fn first_fat_sector(block_size: u64) -> (v: Vec<u8>)
    requires
        512 <= block_size < 0x10000,
    ensures
        v@.len() == block_size,
        v@ == fat_start_image(block_size as int),
{
    let mut v: Vec<u8> = vec![0u8; block_size as usize];
    proof {
        assert(v@ =~= Seq::new(block_size as nat, |i: int| 0u8));
    }
    write_u32_le(&mut v, 0, 0xffffff00);
    write_u32_le(&mut v, 4, 0xffffffff);
    write_u32_le(&mut v, 8, FAT_ENTRY_EOC_START);
    v
}

/// `image` followed by zeros up to `len` bytes.
fn padded(image: Vec<u8>, len: u64) -> (v: Vec<u8>)
    requires
        image@.len() <= len < 0x10000,
    ensures
        v@.len() == len,
        v@.take(image@.len() as int) == image@,
{
    let mut v = image;
    let ghost i0 = v@;
    let n = v.len();
    push_zeros(&mut v, (len as usize) - n);
    proof {
        assert(v@.take(i0.len() as int) =~= i0);
    }
    v
}

/// Writes the boot sector and the information sector of a new volume as
/// blocks 0 and 1.
fn write_boot_area<D: BlockDevice>(device: &mut D, bpb: &Bpb, free: u32, block_size: u64) -> (r: Result<(), BlockDeviceError>)
    requires
        512 <= block_size < 0x10000,
        old(device).spec_block_size() == block_size,
        old(device).spec_block_count() >= 2,
        old(device).spec_data().len() == old(device).spec_block_count() * block_size,
    ensures
        final(device).spec_block_size() == block_size,
        final(device).spec_block_count() == old(device).spec_block_count(),
        final(device).spec_reliable() == old(device).spec_reliable(),
        old(device).spec_reliable() ==> r is Ok,
        r is Ok ==> {
            &&& final(device).spec_data().len() == old(device).spec_data().len()
            &&& block_of(final(device).spec_data(), block_size as int, 0).take(512) == format_image(*bpb)
            &&& block_of(final(device).spec_data(), block_size as int, 1).take(512) == fs_info_image(free, 3)
        },
{
    let ghost d0 = device.spec_data();
    let ghost bs = block_size as int;
    proof {
        lemma_format_image_parses(*bpb);
        lemma_fs_info_image_parses(free, 3);
    }
    let boot_block = padded(build_format_image(bpb), block_size);
    let info_block = padded(build_fs_info_image(free, 3), block_size);
    proof {
        let c = old(device).spec_block_count() as int;
        assert(2 * bs <= c * bs) by (nonlinear_arith)
            requires
                c >= 2,
                bs > 0,
        ;
    }
    match device.write_block(0, boot_block.as_slice()) {
        Ok(_) => {},
        Err(e) => return Err(e),
    }
    let ghost d1 = device.spec_data();
    proof {
        lemma_write_at_keeps_prefix(d0, 0, boot_block@.take(bs), 0);
    }
    match device.write_block(1, info_block.as_slice()) {
        Ok(_) => {},
        Err(e) => return Err(e),
    }
    proof {
        let d2 = device.spec_data();
        lemma_write_at_keeps_prefix(d1, bs, info_block@.take(bs), 0);
        assert(boot_block@.take(bs) =~= boot_block@);
        assert(info_block@.take(bs) =~= info_block@);
        assert(block_of(d2, bs, 0) =~= boot_block@);
        assert(block_of(d2, bs, 1) =~= info_block@);
    }
    Ok(())
}

/// Zeroes both FATs, marks the reserved entries and the root directory in
/// the first sector of each, and zeroes the root directory's cluster. The
/// first two blocks are left as they are.
fn write_fat_area<D: BlockDevice>(device: &mut D, reserved: u64, fat_size: u64, block_size: u64) -> (r: Result<(), BlockDeviceError>)
    requires
        512 <= block_size < 0x10000,
        2 <= reserved <= 16,
        reserved + fat_size * 2 + 8 <= u64::MAX,
        old(device).spec_block_size() == block_size,
        old(device).spec_data().len() == old(device).spec_block_count() * block_size,
    ensures
        final(device).spec_block_size() == block_size,
        final(device).spec_block_count() == old(device).spec_block_count(),
        final(device).spec_reliable() == old(device).spec_reliable(),
        old(device).spec_reliable() && reserved + fat_size * 2 + 8 <= old(device).spec_block_count() ==> r is Ok,
        r is Ok ==> {
            &&& final(device).spec_data().len() == old(device).spec_data().len()
            &&& final(device).spec_data().take(2 * block_size) == old(device).spec_data().take(2 * block_size)
        },
        r is Ok ==> final(device).spec_data() == zero_blocks(
            write_at(
                write_at(
                    zero_blocks(old(device).spec_data(), block_size as int, reserved as int, (fat_size * 2) as nat),
                    reserved * block_size,
                    fat_start_image(block_size as int),
                ),
                (reserved + fat_size) * block_size,
                fat_start_image(block_size as int),
            ),
            block_size as int,
            reserved + fat_size * 2,
            8,
        ),
{
    let ghost d2 = device.spec_data();
    let ghost bs = block_size as int;
    let ghost count = device.spec_block_count() as int;
    match device.write_zeros(reserved, fat_size * 2) {
        Ok(_) => {},
        Err(e) => return Err(e),
    }
    proof {
        assert(2 * bs <= reserved * bs) by (nonlinear_arith)
            requires
                reserved >= 2,
                bs > 0,
        ;
        if fat_size * 2 > 0 {
            lemma_zero_blocks_keep_prefix(d2, bs, reserved as int, (fat_size * 2) as nat, 2 * bs, count);
        }
    }
    let ghost d3 = device.spec_data();
    let fat = first_fat_sector(block_size);
    proof {
        assert(fat@.take(bs) =~= fat@);
    }
    match device.write_block(reserved, fat.as_slice()) {
        Ok(_) => {},
        Err(e) => return Err(e),
    }
    proof {
        assert(reserved * bs + bs <= count * bs) by (nonlinear_arith)
            requires
                reserved < count,
                bs > 0,
        ;
        lemma_write_at_keeps_prefix(d3, reserved * bs, fat@.take(bs), 2 * bs);
    }
    let ghost d4 = device.spec_data();
    match device.write_block(reserved + fat_size, fat.as_slice()) {
        Ok(_) => {},
        Err(e) => return Err(e),
    }
    proof {
        assert((reserved + fat_size) * bs + bs <= count * bs) by (nonlinear_arith)
            requires
                reserved + fat_size < count,
                bs > 0,
        ;
        assert(2 * bs <= (reserved + fat_size) * bs) by (nonlinear_arith)
            requires
                reserved >= 2,
                fat_size >= 0,
                bs > 0,
        ;
        lemma_write_at_keeps_prefix(d4, (reserved + fat_size) * bs, fat@.take(bs), 2 * bs);
    }
    let ghost d5 = device.spec_data();
    match device.write_zeros(reserved + fat_size * 2, 8) {
        Ok(_) => {},
        Err(e) => return Err(e),
    }
    proof {
        assert(2 * bs <= (reserved + fat_size * 2) * bs) by (nonlinear_arith)
            requires
                reserved >= 2,
                fat_size >= 0,
                bs > 0,
        ;
        lemma_zero_blocks_keep_prefix(d5, bs, (reserved + fat_size * 2) as int, 8, 2 * bs, count);
    }
    Ok(())
}

impl<D: BlockDevice> Fat32FileSystem<D> {
    /// Formats `device` as an empty FAT32 volume and mounts it.
    ///
    /// Sectors are the largest power of two that fits in a block; clusters
    /// are 8 sectors; there are two FATs. The sectors left over are added to
    /// the reserved ones. The root directory takes cluster 2.
    pub fn with_format(device: D) -> (r: Result<Self, FormatError>)
        requires
            device.spec_block_size() < 0x10000,
            device.spec_block_count() <= u64::MAX - 14,
        ensures
            r == Err::<Self, FormatError>(FormatError::DeviceTooSmall) <==> {
                let bs = device.spec_block_size() as int;
                let count = device.spec_block_count() as int;
                ||| bs < 512
                ||| count < 2
                ||| spec_cluster_count(2, floor_pow2(bs), 8, count).0 < 2
            },
            r matches Ok(fs) ==> {
                let bs = device.spec_block_size() as int;
                let count = device.spec_block_count() as int;
                let bps = floor_pow2(bs);
                let total = spec_cluster_count(2, bps, 8, count).0;
                let reserved = 2 + spec_cluster_count(2, bps, 8, count).1;
                let fat_size = fat_sectors_for(total, bps);
                &&& fs.wf()
                &&& fs.spec_bpb() == format_bpb(bps as u64, reserved as u64, fat_size as u64, count as u64)
                &&& fs.spec_max_cluster() == total as u32
                &&& fs.spec_free_count() == Some((total - 1) as u32)
                &&& fs.spec_occupied() == Seq::<u32>::empty()
                &&& fs.spec_device().spec_block_size() == bs
                &&& fs.spec_device().spec_block_count() == count
                &&& block_of(fs.spec_device().spec_data(), bs, 0).take(512) == format_image(fs.spec_bpb())
                &&& block_of(fs.spec_device().spec_data(), bs, 1).take(512) == fs_info_image(
                    (total - 1) as u32,
                    3,
                )
                &&& count <= u32::MAX ==> formatted_area(fs.spec_device().spec_data(), bs, fs.spec_bpb())
            },
            r matches Err(e) ==> e is DeviceTooSmall || e is IoError,
            device.spec_reliable() ==> (r is Ok <==> !({
                let bs = device.spec_block_size() as int;
                let count = device.spec_block_count() as int;
                ||| bs < 512
                ||| count < 2
                ||| spec_cluster_count(2, floor_pow2(bs), 8, count).0 < 2
            })),
            r matches Ok(fs) ==> fs.spec_device().spec_reliable() == device.spec_reliable(),
    {
        let mut device = device;
        let block_size = device.block_size();
        if block_size < 512 {
            return Err(FormatError::DeviceTooSmall);
        }
        let block_count = device.block_count();
        if block_count < 2 {
            return Err(FormatError::DeviceTooSmall);
        }
        let ghost d0 = device.spec_data();
        let reserved_sector_count: u64 = 2;
        let bytes_per_sector = floor_pow2_u64(block_size);
        proof {
            lemma_floor_pow2_bounds(block_size as int);
            reveal_with_fuel(floor_pow2, 11);
            assert(floor_pow2(512) == 512);
            lemma_floor_pow2_at_least(block_size as int, 512);
        }
        let sectors_per_cluster: u64 = 8;
        let (total_cluster_count, remain_block) = calc_cluster_count(
            reserved_sector_count,
            bytes_per_sector,
            sectors_per_cluster,
            block_count,
        );
        if total_cluster_count < 2 {
            return Err(FormatError::DeviceTooSmall);
        }
        proof {
            lemma_cluster_count_bounds(2, bytes_per_sector as int, 8, block_count as int);
        }
        let reserved_sector_count = reserved_sector_count + remain_block;
        let cluster_per_fat = bytes_per_sector / FAT_ENTRY_SIZE;
        proof {
            assert(total_cluster_count / cluster_per_fat <= total_cluster_count / 128) by (nonlinear_arith)
                requires
                    cluster_per_fat >= 128,
                    total_cluster_count >= 0,
            ;
            assert(total_cluster_count / 128 * 128 <= total_cluster_count) by (nonlinear_arith)
                requires
                    total_cluster_count >= 0,
            ;
            assert(total_cluster_count / cluster_per_fat < 0xFFFF_FFFF_FFFF_FFFFu64) by (nonlinear_arith)
                requires
                    cluster_per_fat >= 128,
                    total_cluster_count <= 0xFFFF_FFFF_FFFF_FFFFu64,
            ;
        }
        let fat_size_32 = total_cluster_count / cluster_per_fat + if total_cluster_count % cluster_per_fat == 0 {
            0
        } else {
            1
        };
        let bpb = Bpb {
            bytes_per_sector: bytes_per_sector as u16,
            sectors_per_cluster: sectors_per_cluster as u8,
            reserved_sector_count: reserved_sector_count as u16,
            num_fats: 2,
            root_entry_count: 0,
            total_sectors_16: 0,
            fat_size_16: 0,
            total_sectors_32: block_count as u32,
            fat_size_32: fat_size_32 as u32,
            root_cluster: 2,
            fs_info: 1,
            boot_signature: 0x28,
            boot_sector_signature: BOOT_SECTOR_SIGNATURE,
        };
        let fs_info = build_fs_info_image((total_cluster_count - 1) as u32, 3);
        proof {
            lemma_format_image_parses(bpb);
            lemma_fs_info_image_parses((total_cluster_count - 1) as u32, 3);
        }
        match write_boot_area(&mut device, &bpb, (total_cluster_count - 1) as u32, block_size) {
            Ok(_) => {},
            Err(e) => return Err(FormatError::IoError(e)),
        }
        let ghost da = device.spec_data();
        proof {
            lemma_layout_fits(bytes_per_sector as int, block_count as int);
        }
        match write_fat_area(&mut device, reserved_sector_count, fat_size_32, block_size) {
            Ok(_) => {},
            Err(e) => return Err(FormatError::IoError(e)),
        }
        proof {
            let bs = block_size as int;
            let db = device.spec_data();
            vstd::bytes::lemma_auto_spec_u32_to_from_le_bytes();
            assert(fat_start_image(bs).len() == bs);
            if block_count <= 0xFFFF_FFFF {
                assert(cluster_per_fat >= 128);
                assert(fat_size_32 >= 1) by (nonlinear_arith)
                    requires
                        total_cluster_count >= 2,
                        cluster_per_fat >= 128,
                        fat_size_32 == total_cluster_count / cluster_per_fat + (if total_cluster_count % cluster_per_fat
                            == 0 {
                            0u64
                        } else {
                            1u64
                        }),
                ;
                assert(total_cluster_count / 128 < 0xFFFF_FFF0) by (nonlinear_arith)
                    requires
                        total_cluster_count <= 0xFFFF_FFFFu64 + 16,
                ;
                assert(fat_size_32 <= 0xFFFF_FFFF);
                assert(bpb.fat_size_32 == fat_size_32);
                lemma_layout_fits(bytes_per_sector as int, block_count as int);
                lemma_fat_area_layout(da, bs, bpb, block_count as int);
            }
            assert(2 * bs <= block_count * bs) by (nonlinear_arith)
                requires
                    block_count >= 2,
                    bs > 0,
            ;
            assert(block_of(db, bs, 0) =~= db.take(2 * bs).subrange(0, bs));
            assert(block_of(da, bs, 0) =~= da.take(2 * bs).subrange(0, bs));
            assert(block_of(db, bs, 1) =~= db.take(2 * bs).subrange(bs, 2 * bs));
            assert(block_of(da, bs, 1) =~= da.take(2 * bs).subrange(bs, 2 * bs));
        }
        Ok(Fat32FileSystem {
            device,
            bpb,
            fs_info: Some(fs_info),
            max_cluster: total_cluster_count as u32,
            occupied_file: Vec::new(),
        })
    }
}

} // verus!

verus! {

/// The FAT area and the root directory's cluster as formatting leaves them:
/// each FAT copy starts with the image of its first sector and holds zeros
/// after it, and the root directory's cluster holds zeros, that is, no entry.
pub open spec fn formatted_area(data: Seq<u8>, bs: int, bpb: Bpb) -> bool {
    let r = bpb.reserved_sector_count as int;
    let f = bpb.fat_size_32 as int;
    &&& forall|q: int|
        r <= q < r + 2 * f ==> #[trigger] block_of(data, bs, q) == if q == r || q == r + f {
            fat_start_image(bs)
        } else {
            zeros(bs as nat)
        }
    &&& forall|i: int|
        0 <= i < bpb.sectors_per_cluster ==> #[trigger] block_of(data, bs, spec_cluster_sector(bpb, 2) + i) == zeros(
            bs as nat,
        )
}

/// The layout that formatting picks fits on the device: the reserved
/// sectors, both FAT copies and the root directory's cluster.
proof fn lemma_layout_fits(bps: int, count: int)
    requires
        bps >= 512,
        count >= 2,
        spec_cluster_count(2, bps, 8, count).0 >= 2,
    ensures
        ({
            let total = spec_cluster_count(2, bps, 8, count).0;
            let rb = spec_cluster_count(2, bps, 8, count).1;
            let cpf = bps / 4;
            let fat = total / cpf + if total % cpf == 0 {
                0int
            } else {
                1int
            };
            2 + rb + 2 * fat + 8 <= count
        }),
{
    let cpf = bps / 4;
    let spg = 2 + cpf * 8;
    let virt = count - 2 + 16;
    let g = virt / spg;
    let rem = virt - spg * g;
    assert(cpf >= 128);
    vstd::arithmetic::div_mod::lemma_fundamental_div_mod(virt, spg);
    assert(0 <= rem < spg);
    assert(g >= 0) by (nonlinear_arith)
        requires
            g == virt / spg,
            spg > 0,
            virt >= 0,
    ;
    let total = spec_cluster_count(2, bps, 8, count).0;
    let rb = spec_cluster_count(2, bps, 8, count).1;
    let fat = total / cpf + if total % cpf == 0 {
        0int
    } else {
        1int
    };
    vstd::arithmetic::div_mod::lemma_fundamental_div_mod(total, cpf);
    if rem > 2 {
        let rc = (rem - 2) / 8;
        vstd::arithmetic::div_mod::lemma_fundamental_div_mod(rem - 2, 8);
        assert(rc < cpf) by (nonlinear_arith)
            requires
                rem < 2 + cpf * 8,
                rc == (rem - 2) / 8,
                rem - 2 == 8 * rc + (rem - 2) % 8,
                (rem - 2) % 8 >= 0,
        ;
        assert(total == g * cpf + rc - 2);
        assert(rb == rem - 2 - rc * 8);
        assert(total < (g + 1) * cpf) by (nonlinear_arith)
            requires
                total == g * cpf + rc - 2,
                rc < cpf,
        ;
        assert(fat <= g + 1) by (nonlinear_arith)
            requires
                total == cpf * (total / cpf) + total % cpf,
                0 <= total % cpf < cpf,
                total < (g + 1) * cpf,
                fat == total / cpf + (if total % cpf == 0 { 0int } else { 1int }),
                cpf > 0,
                total >= 0,
        ;
        assert(virt == spg * g + rem);
        assert(spg * g == 2 * g + 8 * (g * cpf)) by (nonlinear_arith)
            requires
                spg == 2 + cpf * 8,
        ;
    } else {
        assert(total == g * cpf - 2);
        assert(rb == rem);
        assert(fat <= g) by (nonlinear_arith)
            requires
                total == cpf * (total / cpf) + total % cpf,
                0 <= total % cpf < cpf,
                total == g * cpf - 2,
                fat == total / cpf + (if total % cpf == 0 { 0int } else { 1int }),
                cpf > 0,
                total >= 0,
        ;
        assert(spg * g == 2 * g + 8 * (g * cpf)) by (nonlinear_arith)
            requires
                spg == 2 + cpf * 8,
        ;
    }
}

/// What `write_fat_area` leaves is a formatted FAT area and an empty root
/// directory cluster.
proof fn lemma_fat_area_layout(d1: Seq<u8>, bs: int, bpb: Bpb, count: int)
    requires
        bs > 0,
        bpb.fat_size_32 >= 1,
        bpb.sectors_per_cluster == 8,
        bpb.reserved_sector_count + 2 * bpb.fat_size_32 + 8 <= count,
        d1.len() == count * bs,
        fat_start_image(bs).len() == bs,
    ensures
        ({
            let r = bpb.reserved_sector_count as int;
            let f = bpb.fat_size_32 as int;
            let d2 = zero_blocks(
                write_at(
                    write_at(zero_blocks(d1, bs, r, (f * 2) as nat), r * bs, fat_start_image(bs)),
                    (r + f) * bs,
                    fat_start_image(bs),
                ),
                bs,
                r + f * 2,
                8,
            );
            formatted_area(d2, bs, bpb)
        }),
{
    let r = bpb.reserved_sector_count as int;
    let f = bpb.fat_size_32 as int;
    let fsi = fat_start_image(bs);
    let z0 = zero_blocks(d1, bs, r, (f * 2) as nat);
    let w1 = write_at(z0, r * bs, fsi);
    let w2 = write_at(w1, (r + f) * bs, fsi);
    let d2 = zero_blocks(w2, bs, r + f * 2, 8);
    assert((r + f * 2 + 8) * bs <= count * bs) by (nonlinear_arith)
        requires
            r + 2 * f + 8 <= count,
            bs > 0,
    ;
    assert((r + f * 2) * bs <= (r + f * 2 + 8) * bs) by (nonlinear_arith)
        requires
            bs > 0,
    ;
    assert((r + 1) * bs <= (r + f * 2) * bs) by (nonlinear_arith)
        requires
            bs > 0,
            f >= 1,
    ;
    assert((r + f + 1) * bs <= (r + f * 2) * bs) by (nonlinear_arith)
        requires
            bs > 0,
            f >= 1,
    ;
    crate::fs::fat32::append::lemma_zero_blocks_frame(d1, bs, r, (f * 2) as nat, r);
    crate::fs::fat32::placement::lemma_block_written(z0, bs, r, fsi);
    crate::fs::fat32::placement::lemma_block_written(w1, bs, r + f, fsi);
    assert forall|q: int| r <= q < r + 2 * f implies #[trigger] block_of(d2, bs, q) == if q == r || q == r + f {
        fsi
    } else {
        zeros(bs as nat)
    } by {
        assert((q + 1) * bs <= count * bs) by (nonlinear_arith)
            requires
                q + 1 <= r + 2 * f + 8,
                r + 2 * f + 8 <= count,
                bs > 0,
        ;
        crate::fs::fat32::append::lemma_zero_blocks_frame(w2, bs, r + f * 2, 8, q);
        if q != r + f {
            crate::fs::fat32::placement::lemma_block_frame(w1, bs, r + f, fsi, q);
        }
        if q != r && q != r + f {
            crate::fs::fat32::placement::lemma_block_frame(z0, bs, r, fsi, q);
            crate::fs::fat32::append::lemma_zero_blocks_frame(d1, bs, r, (f * 2) as nat, q);
            assert(crate::fs::fat32::append::zero_block(bs) =~= zeros(bs as nat));
        }
    }
    assert forall|i: int| 0 <= i < bpb.sectors_per_cluster implies #[trigger] block_of(
        d2,
        bs,
        spec_cluster_sector(bpb, 2) + i,
    ) == zeros(bs as nat) by {
        let q = spec_cluster_sector(bpb, 2) + i;
        assert(q == r + f * 2 + i);
        assert((q + 1) * bs <= count * bs) by (nonlinear_arith)
            requires
                q + 1 <= r + 2 * f + 8,
                r + 2 * f + 8 <= count,
                bs > 0,
        ;
        crate::fs::fat32::append::lemma_zero_blocks_frame(w2, bs, r + f * 2, 8, q);
        assert(crate::fs::fat32::append::zero_block(bs) =~= zeros(bs as nat));
    }
}

/// The boot sector fields come from its first 512 bytes only.
proof fn lemma_spec_bpb_prefix(b: Seq<u8>)
    requires
        b.len() >= 512,
    ensures
        spec_bpb(b) == spec_bpb(b.take(512)),
{
    let t = b.take(512);
    assert(t.subrange(11, 13) =~= b.subrange(11, 13));
    assert(t.subrange(14, 16) =~= b.subrange(14, 16));
    assert(t.subrange(17, 19) =~= b.subrange(17, 19));
    assert(t.subrange(19, 21) =~= b.subrange(19, 21));
    assert(t.subrange(22, 24) =~= b.subrange(22, 24));
    assert(t.subrange(32, 36) =~= b.subrange(32, 36));
    assert(t.subrange(36, 40) =~= b.subrange(36, 40));
    assert(t.subrange(44, 48) =~= b.subrange(44, 48));
    assert(t.subrange(48, 50) =~= b.subrange(48, 50));
    assert(t.subrange(510, 512) =~= b.subrange(510, 512));
}

/// A formatted volume, mounted, reads back the boot sector fields it was
/// formatted with: the first block holds the image that `with_format`
/// writes, and `mount` takes its fields from that block.
pub proof fn lemma_format_then_mount_same_layout(data: Seq<u8>, bs: int, bpb: Bpb)
    requires
        bs >= 512,
        data.len() >= bs,
        block_of(data, bs, 0).take(512) == format_image(bpb),
    ensures
        spec_bpb(block_of(data, bs, 0)) == bpb,
{
    lemma_spec_bpb_prefix(block_of(data, bs, 0));
    lemma_format_image_parses(bpb);
}

} // verus!

verus! {

/// The largest power of two not above a block size of 512 to 65535 bytes is
/// one of 512, 1024, ..., 32768.
proof fn lemma_floor_pow2_sector(x: int)
    requires
        1 <= x < 0x10000,
    ensures
        ({
            let p = floor_pow2(x);
            ||| p == 1
            ||| p == 2
            ||| p == 4
            ||| p == 8
            ||| p == 16
            ||| p == 32
            ||| p == 64
            ||| p == 128
            ||| p == 256
            ||| p == 512
            ||| p == 1024
            ||| p == 2048
            ||| p == 4096
            ||| p == 8192
            ||| p == 16384
            ||| p == 32768
        }),
    decreases x,
{
    lemma_floor_pow2_bounds(x);
    if x >= 2 {
        lemma_floor_pow2_sector(x / 2);
        lemma_floor_pow2_bounds(x / 2);
    }
}

/// A volume as `with_format` leaves it passes every check `mount` makes:
/// on a device of at most `u32::MAX` blocks whose first block holds the
/// formatted boot sector and whose second the information sector, the boot
/// sector reads back as the layout chosen, that layout is valid for the
/// device, its FATs fit on it, and the information sector's signatures are
/// right. So a reliable device formatted by `with_format` mounts.
pub proof fn lemma_formatted_volume_mounts(data: Seq<u8>, bs: int, count: int, free: u32)
    requires
        512 <= bs < 0x10000,
        2 <= count <= u32::MAX,
        data.len() == count * bs,
        spec_cluster_count(2, floor_pow2(bs), 8, count).0 >= 2,
        block_of(data, bs, 0).take(512) == format_image(
            format_bpb(
                floor_pow2(bs) as u64,
                (2 + spec_cluster_count(2, floor_pow2(bs), 8, count).1) as u64,
                fat_sectors_for(spec_cluster_count(2, floor_pow2(bs), 8, count).0, floor_pow2(bs)) as u64,
                count as u64,
            ),
        ),
        block_of(data, bs, 1).take(512) == fs_info_image(free, 3),
    ensures
        ({
            let bpb = spec_bpb(block_of(data, bs, 0));
            &&& bpb == format_bpb(
                floor_pow2(bs) as u64,
                (2 + spec_cluster_count(2, floor_pow2(bs), 8, count).1) as u64,
                fat_sectors_for(spec_cluster_count(2, floor_pow2(bs), 8, count).0, floor_pow2(bs)) as u64,
                count as u64,
            )
            &&& bpb_valid(bpb, bs as u64, count as u64)
            &&& bpb.fs_info < bpb.reserved_sector_count
            &&& fs_info_valid(block_of(data, bs, bpb.fs_info as int))
            &&& le32_at(block_of(data, bs, bpb.fs_info as int), 488) == free
            &&& bpb.reserved_sector_count + bpb.fat_size_32 * bpb.num_fats <= count
        }),
{
    let bps = floor_pow2(bs);
    let total = spec_cluster_count(2, bps, 8, count).0;
    let rb = spec_cluster_count(2, bps, 8, count).1;
    let fat = fat_sectors_for(total, bps);
    let bpb = format_bpb(bps as u64, (2 + rb) as u64, fat as u64, count as u64);
    lemma_floor_pow2_bounds(bs);
    reveal_with_fuel(floor_pow2, 11);
    assert(floor_pow2(512) == 512);
    lemma_floor_pow2_at_least(bs, 512);
    lemma_floor_pow2_sector(bs);
    lemma_cluster_count_bounds(2, bps, 8, count);
    lemma_layout_fits(bps, count);
    assert(2 * bs <= count * bs) by (nonlinear_arith)
        requires
            count >= 2,
            bs > 0,
    ;
    lemma_format_then_mount_same_layout(data, bs, bpb);
    assert(is_pow2_u8(8u8) && is_pow2_u16(512u16) && is_pow2_u16(1024u16) && is_pow2_u16(2048u16)
        && is_pow2_u16(4096u16) && is_pow2_u16(8192u16) && is_pow2_u16(16384u16) && is_pow2_u16(32768u16))
        by (bit_vector);
    let cpf = bps / 4;
    assert(cpf >= 128);
    assert(fat >= 1) by (nonlinear_arith)
        requires
            total >= 2,
            cpf >= 128,
            fat == total / cpf + (if total % cpf == 0 { 0int } else { 1int }),
    ;
    assert(total / cpf <= total / 128) by (nonlinear_arith)
        requires
            cpf >= 128,
            total >= 0,
    ;
    assert(fat <= 0xFFFF_FFFF) by (nonlinear_arith)
        requires
            total <= count + 14,
            count <= 0xFFFF_FFFF,
            fat <= total / 128 + 1,
    ;
    assert(bpb.fat_size_32 == fat);
    assert(bpb.reserved_sector_count == 2 + rb);
    assert(bpb.total_sectors_32 == count);
    // the information sector
    let b1 = block_of(data, bs, 1);
    lemma_fs_info_image_parses(free, 3);
    assert(b1.subrange(0, 4) =~= b1.take(512).subrange(0, 4));
    assert(b1.subrange(484, 488) =~= b1.take(512).subrange(484, 488));
    assert(b1.subrange(488, 492) =~= b1.take(512).subrange(488, 492));
    assert(b1.subrange(508, 512) =~= b1.take(512).subrange(508, 512));
}

} // verus!
