use vstd::prelude::*;

use crate::bytes::{put_at, write_bytes};
use crate::fs::device::BlockDevice;
use crate::fs::fat32::dir::{
    chain_length, corrupt_chain, entry_named, find_in_dir, is_dir_entry, list_dir, lookup_path, resolve_dir, rows,
    EntryView, Fat32FileMetadata, DIR_CHAIN_LIMIT,
};
use crate::fs::dirent::{
    build_long_entries, encode_utf16, encode_utf16_str, entry_attr, entry_cluster, entry_file_size, long_entries, short_entry_bytes, ATTR_ARCHIVE,
    ATTR_DIRECTORY, ATTR_LONG_NAME,
};
use crate::fs::fat32::frame::{lemma_alloc_frame, lemma_chain_after_alloc};
use crate::fs::fat32::append::{
    appended_at, chain_last, entry_appended_in, lemma_chain_inside_less, lemma_chain_last_inside,
    lemma_chain_last_more, lemma_created_entry_appended, lemma_whole_chain_after_alloc, link_within, zero_block,
};
use crate::fs::fat32::dir::{entries_per_sector, walk_init};
use crate::fs::path::Path;
use crate::fs::{FileHandle, FileMetadata, FileSystem};
use crate::fs::device::{block_of, write_at};
use crate::fs::fat32::{
    chain_freed, fat_sector, spec_cluster_sector, spec_fat_entry, Bpb, Fat32FileSystem, FAT_ENTRY_EOC_START,
    FAT_ENTRY_FREE, FAT_ENTRY_RESERVED_START,
};
use crate::fs::FileSystemError;
use crate::fs::fat32::placement::{
    alloc_within, entry_goes_in, lemma_block_written, lemma_created_entry_found_walk, lemma_room_pos, lemma_room_unique,
    lemma_until_room_of_search, lemma_walk_chain_search, placed_in_chain, placed_in_cluster, plain_name, room_at,
    room_pos, search_state,
};

verus! {

/// Rows joined one after another.
pub open spec fn concat_rows(s: Seq<Seq<u8>>) -> Seq<u8>
    decreases s.len(),
{
    if s.len() == 0 {
        Seq::empty()
    } else {
        concat_rows(s.drop_last()) + s.last()
    }
}

/// The bytes of an entry as it lies in a directory: its long entries, then
/// its short entry.
pub open spec fn entry_record(long: Seq<Seq<u8>>, short: Seq<u8>) -> Seq<u8> {
    concat_rows(long) + short
}

pub(crate) proof fn lemma_concat_rows_len(s: Seq<Seq<u8>>)
    requires
        forall|i: int| 0 <= i < s.len() ==> #[trigger] s[i].len() == 32,
    ensures
        concat_rows(s).len() == 32 * s.len(),
    decreases s.len(),
{
    if s.len() > 0 {
        lemma_concat_rows_len(s.drop_last());
    }
}

/// Writes the entry's long entries and its short entry one after another
/// into `buf`, from slot `at` on.
#[verifier::rlimit(50)]
fn put_entry(buf: &mut Vec<u8>, at: usize, m: &Fat32FileMetadata)
    requires
        m.short@.len() == 32,
        forall|i: int| 0 <= i < m.long@.len() ==> #[trigger] m.long@[i]@.len() == 32,
        (at + m.long@.len() + 1) * 32 <= old(buf)@.len(),
    ensures
        final(buf)@ == put_at(old(buf)@, at * 32, entry_record(rows(m.long@), m.short@)),
        final(buf)@.len() == old(buf)@.len(),
{
    let ghost b0 = buf@;
    let _n = buf.len();
    let mut k: usize = 0;
    proof {
        assert(rows(m.long@).take(0) =~= Seq::<Seq<u8>>::empty());
        assert(put_at(b0, at * 32, Seq::<u8>::empty()) =~= b0);
    }
    while k < m.long.len()
        invariant
            k <= m.long@.len(),
            forall|i: int| 0 <= i < m.long@.len() ==> #[trigger] m.long@[i]@.len() == 32,
            (at + m.long@.len() + 1) * 32 <= b0.len(),
            b0.len() <= usize::MAX,
            buf@.len() == b0.len(),
            buf@ == put_at(b0, at * 32, concat_rows(rows(m.long@).take(k as int))),
        decreases m.long@.len() - k,
    {
        proof {
            lemma_concat_rows_len(rows(m.long@).take(k as int));
            assert((at + k) * 32 + 32 <= b0.len()) by (nonlinear_arith)
                requires
                    k < m.long@.len(),
                    (at + m.long@.len() + 1) * 32 <= b0.len(),
            ;
        }
        let ghost before = buf@;
        write_bytes(buf, (at + k) * 32, m.long[k].as_slice());
        proof {
            let prev = concat_rows(rows(m.long@).take(k as int));
            let next = concat_rows(rows(m.long@).take(k + 1));
            assert(rows(m.long@).take(k + 1).drop_last() =~= rows(m.long@).take(k as int));
            assert(next == prev + m.long@[k as int]@);
            assert(buf@ =~= put_at(b0, at * 32, next));
        }
        k = k + 1;
    }
    proof {
        assert(rows(m.long@).take(m.long@.len() as int) =~= rows(m.long@));
        lemma_concat_rows_len(rows(m.long@));
        assert((at + m.long@.len()) * 32 + 32 <= b0.len()) by (nonlinear_arith)
            requires
                (at + m.long@.len() + 1) * 32 <= b0.len(),
        ;
    }
    let ghost before = buf@;
    write_bytes(buf, (at + m.long.len()) * 32, m.short.as_slice());
    proof {
        assert(buf@ =~= put_at(b0, at * 32, entry_record(rows(m.long@), m.short@)));
    }
}

/// Slot `k` of a sector is free: its first byte is 0.
pub open spec fn slot_free(b: Seq<u8>, k: int) -> bool {
    b[k * 32] == 0
}

/// Some slot of the window of `need` slots from `s` is taken.
pub open spec fn window_taken(b: Seq<u8>, s: int, need: int) -> bool {
    exists|k: int| s <= k < s + need && !slot_free(b, k)
}

/// The start of the first window of `need` free slots among the first
/// `per` slots of a sector, if there is one.
fn find_free_run(b: &Vec<u8>, per: usize, need: usize) -> (r: Option<usize>)
    requires
        per * 32 <= b@.len(),
        1 <= need <= per,
    ensures
        r matches Some(s) ==> s + need <= per && forall|k: int| s <= k < s + need ==> slot_free(b@, k),
        r matches Some(s) ==> forall|v: int| 0 <= v < s ==> #[trigger] window_taken(b@, v, need as int),
        r is None ==> forall|s: int| 0 <= s && s + need <= per ==> #[trigger] window_taken(b@, s, need as int),
{
    let mut start: usize = 0;
    let mut i: usize = 0;
    let _n = b.len();
    while i < per
        invariant
            b@.len() <= usize::MAX,
            i <= per,
            start <= i,
            per * 32 <= b@.len(),
            1 <= need <= per,
            i - start < need,
            forall|k: int| start <= k < i ==> slot_free(b@, k),
            start > 0 ==> !slot_free(b@, start - 1),
            forall|s: int| 0 <= s < start && s + need <= i ==> #[trigger] window_taken(b@, s, need as int),
        decreases per - i,
    {
        if b[i * 32] != 0 {
            proof {
                assert forall|s: int| 0 <= s < i + 1 && s + need <= i + 1 implies #[trigger] window_taken(b@, s, need as int) by {
                    if s < start {
                        if s + need <= i {
                        } else {
                            assert(!slot_free(b@, start - 1));
                            assert(s <= start - 1 < s + need);
                        }
                    } else {
                        assert(s <= i < s + need);
                        assert(!slot_free(b@, i as int));
                    }
                }
            }
            start = i + 1;
        } else if i - start + 1 >= need {
            return Some(start);
        }
        i = i + 1;
    }
    proof {
        assert forall|s: int| 0 <= s && s + need <= per implies #[trigger] window_taken(b@, s, need as int) by {
            if s >= start {
                assert(false);
            }
        }
    }
    None
}

/// Every slot of the window of `need` slots from `s` is free.
pub open spec fn window_free(b: Seq<u8>, s: int, need: int) -> bool {
    forall|k: int| s <= k < s + need ==> slot_free(b, k)
}

/// Some window of `need` free slots lies among the first `per` slots of the
/// sector `b`.
pub open spec fn block_has_room(b: Seq<u8>, per: int, need: int) -> bool {
    exists|s: int| 0 <= s && s + need <= per && #[trigger] window_free(b, s, need)
}

/// Some sector of cluster `c` has room for `need` slots.
pub open spec fn cluster_has_room(data: Seq<u8>, bs: int, bpb: Bpb, c: u32, per: int, need: int) -> bool {
    exists|k: int|
        0 <= k < bpb.sectors_per_cluster && #[trigger] block_has_room(
            block_of(data, bs, spec_cluster_sector(bpb, c) + k),
            per,
            need,
        )
}

/// Some cluster of the chain from `c`, followed for at most `fuel` clusters,
/// has room for `need` slots.
pub open spec fn chain_has_room(data: Seq<u8>, bs: int, bpb: Bpb, c: u32, per: int, need: int, fuel: nat) -> bool
    decreases fuel,
{
    if c == FAT_ENTRY_FREE || c >= FAT_ENTRY_RESERVED_START || c < 2 || fuel == 0 {
        false
    } else {
        cluster_has_room(data, bs, bpb, c, per, need) || chain_has_room(
            data,
            bs,
            bpb,
            spec_fat_entry(data, bs, bpb, c),
            per,
            need,
            (fuel - 1) as nat,
        )
    }
}

impl<D: BlockDevice> Fat32FileSystem<D> {
    /// Writes an entry into the directory at `directory_cluster`: into the
    /// first run of free slots (first byte 0) within one sector that holds
    /// it, or else into a new cluster linked at the end of the chain.
    pub fn create_file_meta(&mut self, directory_cluster: u32, to_create: &Fat32FileMetadata) -> (r: Result<(), FileSystemError>)
        requires
            old(self).wf(),
            to_create.short@.len() == 32,
            forall|i: int| 0 <= i < to_create.long@.len() ==> #[trigger] to_create.long@[i]@.len() == 32,
        ensures
            final(self).wf(),
            final(self).spec_bpb() == old(self).spec_bpb(),
            final(self).spec_max_cluster() == old(self).spec_max_cluster(),
            final(self).spec_occupied() == old(self).spec_occupied(),
            final(self).spec_device().spec_block_size() == old(self).spec_device().spec_block_size(),
            final(self).spec_device().spec_block_count() == old(self).spec_device().spec_block_count(),
            r == Err::<(), FileSystemError>(FileSystemError::NameTooLang) <==> to_create.long@.len() + 1
                > old(self).spec_bpb().bytes_per_sector / 32,
            r == Err::<(), FileSystemError>(FileSystemError::NameTooLang) ==> *final(self) == *old(self),
            r matches Err(e) ==> e is IoError || e is NameTooLang || e is DiskFull,
            ({
                let d0 = old(self).spec_device().spec_data();
                let bs = old(self).spec_device().spec_block_size() as int;
                let bpb = old(self).spec_bpb();
                let per = (bpb.bytes_per_sector / 32) as int;
                let need = to_create.long@.len() + 1;
                r is Ok && chain_has_room(d0, bs, bpb, directory_cluster, per, need as int, DIR_CHAIN_LIMIT as nat)
                    ==> placed_in_chain(
                    d0,
                    final(self).spec_device().spec_data(),
                    bs,
                    bpb,
                    directory_cluster,
                    per,
                    entry_record(rows(to_create.long@), to_create.short@),
                    DIR_CHAIN_LIMIT as nat,
                )
            }),
            ({
                let d0 = old(self).spec_device().spec_data();
                let bs = old(self).spec_device().spec_block_size() as int;
                let bpb = old(self).spec_bpb();
                let per = (bpb.bytes_per_sector / 32) as int;
                let need = to_create.long@.len() + 1;
                let last = chain_last(d0, bs, bpb, directory_cluster, DIR_CHAIN_LIMIT as nat, None);
                (r is Ok && !chain_has_room(d0, bs, bpb, directory_cluster, per, need as int, DIR_CHAIN_LIMIT as nat)
                    && last is Some) ==> exists|k2: u32, da: Seq<u8>|
                    appended_at(
                        d0,
                        final(self).spec_device().spec_data(),
                        bs,
                        bpb,
                        entry_record(rows(to_create.long@), to_create.short@),
                        last->Some_0,
                        k2,
                        da,
                    ) && (k2 < old(self).spec_max_cluster() + 2 || (old(self).spec_next_free() matches Some(h) && k2 < h))
            }),
    {
        let ghost d0 = self.spec_device().spec_data();
        let ghost bs0 = self.spec_device().spec_block_size() as int;
        let ghost rec = entry_record(rows(to_create.long@), to_create.short@);
        proof {
            self.lemma_wf_facts();
        }
        let bps = self.bpb().bytes_per_sector as usize;
        let per = bps / 32;
        if to_create.long.len() >= per {
            return Err(FileSystemError::NameTooLang);
        }
        let need = to_create.long.len() + 1;
        proof {
            lemma_concat_rows_len(rows(to_create.long@));
            vstd::arithmetic::div_mod::lemma_fundamental_div_mod_converse(rec.len() as int, 32, need as int, 0);
        }
        let spc = self.bpb().sectors_per_cluster as u64;
        let mut last_cluster: u32 = 0;
        let mut cluster = directory_cluster;
        let mut fuel: u64 = DIR_CHAIN_LIMIT;
        let ghost mut prev_last: Option<u32> = None;
        while cluster != FAT_ENTRY_FREE && cluster < FAT_ENTRY_RESERVED_START
            invariant
                chain_last(d0, bs0, self.spec_bpb(), directory_cluster, DIR_CHAIN_LIMIT as nat, None) == chain_last(
                    d0,
                    bs0,
                    self.spec_bpb(),
                    cluster,
                    fuel as nat,
                    prev_last,
                ),
                prev_last matches Some(p) ==> p == last_cluster,
                self.spec_next_free() == old(self).spec_next_free(),
                self.wf(),
                self.spec_bpb() == old(self).spec_bpb(),
                self.spec_max_cluster() == old(self).spec_max_cluster(),
                self.spec_occupied() == old(self).spec_occupied(),
                self.spec_device().spec_block_size() == old(self).spec_device().spec_block_size(),
                self.spec_device().spec_block_count() == old(self).spec_device().spec_block_count(),
                bps == self.spec_bpb().bytes_per_sector,
                per == bps / 32,
                512 <= bps <= self.spec_device().spec_block_size(),
                need == to_create.long@.len() + 1,
                need <= per,
                to_create.short@.len() == 32,
                forall|i: int| 0 <= i < to_create.long@.len() ==> #[trigger] to_create.long@[i]@.len() == 32,
                spc == self.spec_bpb().sectors_per_cluster,
                fuel <= DIR_CHAIN_LIMIT,
                self.spec_device().spec_data() == d0,
                d0 == old(self).spec_device().spec_data(),
                bs0 == self.spec_device().spec_block_size(),
                rec == entry_record(rows(to_create.long@), to_create.short@),
                chain_has_room(d0, bs0, self.spec_bpb(), directory_cluster, per as int, need as int, DIR_CHAIN_LIMIT as nat)
                    == chain_has_room(d0, bs0, self.spec_bpb(), cluster, per as int, need as int, fuel as nat),
                rec.len() / 32 == need,
                forall|dd: Seq<u8>|
                    #[trigger] placed_in_chain(d0, dd, bs0, self.spec_bpb(), cluster, per as int, rec, fuel as nat)
                        ==> placed_in_chain(d0, dd, bs0, self.spec_bpb(), directory_cluster, per as int, rec, DIR_CHAIN_LIMIT as nat),
            decreases fuel,
        {
            if cluster < 2 || fuel == 0 {
                return Err(corrupt_chain());
            }
            let first = self.get_sector_by_cluster(cluster);
            proof {
                assert((cluster - 2) * spc <= 0xFFFF_FFFFu64 * 0xFF) by (nonlinear_arith)
                    requires
                        0 <= cluster - 2 <= 0xFFFF_FFFF,
                        0 <= spc <= 0xFF,
                ;
            }
            let mut sector: u64 = 0;
            while sector < spc
                invariant
                    self.wf(),
                    self.spec_bpb() == old(self).spec_bpb(),
                    self.spec_max_cluster() == old(self).spec_max_cluster(),
                    self.spec_occupied() == old(self).spec_occupied(),
                    self.spec_device().spec_block_size() == old(self).spec_device().spec_block_size(),
                    self.spec_device().spec_block_count() == old(self).spec_device().spec_block_count(),
                    bps == self.spec_bpb().bytes_per_sector,
                    per == bps / 32,
                    512 <= bps <= self.spec_device().spec_block_size(),
                    need == to_create.long@.len() + 1,
                    need <= per,
                    to_create.short@.len() == 32,
                    forall|i: int| 0 <= i < to_create.long@.len() ==> #[trigger] to_create.long@[i]@.len() == 32,
                    spc == self.spec_bpb().sectors_per_cluster,
                    first + spc <= 0x1_0000_0000_0000,
                    sector <= spc,
                    self.spec_device().spec_data() == d0,
                    d0 == old(self).spec_device().spec_data(),
                    bs0 == self.spec_device().spec_block_size(),
                    rec == entry_record(rows(to_create.long@), to_create.short@),
                    first == spec_cluster_sector(self.spec_bpb(), cluster),
                    2 <= cluster < FAT_ENTRY_RESERVED_START,
                    cluster != FAT_ENTRY_FREE,
                    fuel > 0,
                    self.spec_next_free() == old(self).spec_next_free(),
                    chain_has_room(d0, bs0, self.spec_bpb(), directory_cluster, per as int, need as int, DIR_CHAIN_LIMIT as nat)
                        == chain_has_room(d0, bs0, self.spec_bpb(), cluster, per as int, need as int, fuel as nat),
                    rec.len() / 32 == need,
                    forall|dd: Seq<u8>|
                        #[trigger] placed_in_chain(d0, dd, bs0, self.spec_bpb(), cluster, per as int, rec, fuel as nat)
                            ==> placed_in_chain(d0, dd, bs0, self.spec_bpb(), directory_cluster, per as int, rec, DIR_CHAIN_LIMIT as nat),
                    forall|k: int| 0 <= k < sector ==> !(#[trigger] block_has_room(
                        block_of(d0, bs0, first + k),
                        per as int,
                        need as int,
                    )),
                decreases spc - sector,
            {
                let mut buffer = match self.device().read_block(first + sector) {
                    Ok(b) => b,
                    Err(e) => return Err(FileSystemError::IoError(e)),
                };
                let ghost blk = buffer@;
                match find_free_run(&buffer, per, need) {
                    Some(start) => {
                        proof {
                            lemma_concat_rows_len(rows(to_create.long@));
                        }
                        put_entry(&mut buffer, start, to_create);
                        let r = self.write_device_block(first + sector, buffer.as_slice());
                        proof {
                            let q = (first + sector) as int;
                            assert(rec.len() / 32 == need);
                            assert(buffer@.take(bs0) =~= put_at(block_of(d0, bs0, q), start * 32, rec));
                            assert(window_free(block_of(d0, bs0, q), start as int, (rec.len() / 32) as int));
                            if r is Ok {
                                let d1 = self.spec_device().spec_data();
                                assert(d1 == write_at(d0, q * bs0, put_at(block_of(d0, bs0, q), start * 32, rec)));
                                let bpb = self.spec_bpb();
                                assert(room_at(d0, bs0, bpb, cluster, per as int, need as int, sector as int, start as int));
                                let blk_q = block_of(d0, bs0, spec_cluster_sector(bpb, cluster) + sector);
                                assert(window_free(blk_q, start as int, need as int));
                                assert(block_has_room(blk_q, per as int, need as int));
                                assert(cluster_has_room(d0, bs0, bpb, cluster, per as int, need as int));
                                lemma_room_pos(d0, bs0, bpb, cluster, per as int, need as int);
                                let (t, s) = room_pos(d0, bs0, bpb, cluster, per as int, need as int);
                                lemma_room_unique(d0, bs0, bpb, cluster, per as int, need as int, t, s, sector as int, start as int);
                                assert(placed_in_cluster(d0, d1, bs0, bpb, cluster, per as int, rec));
                                assert(placed_in_chain(d0, d1, bs0, bpb, cluster, per as int, rec, fuel as nat));
                                assert(chain_has_room(d0, bs0, bpb, cluster, per as int, need as int, fuel as nat));
                            }
                        }
                        return r;
                    },
                    None => {
                        proof {
                            if block_has_room(blk, per as int, need as int) {
                                let s0 = choose|s0: int| 0 <= s0 && s0 + need <= per && #[trigger] window_free(blk, s0, need as int);
                                assert(window_taken(blk, s0, need as int));
                            }
                        }
                    },
                }
                sector = sector + 1;
            }
            proof {
                assert(!cluster_has_room(d0, bs0, self.spec_bpb(), cluster, per as int, need as int));
            }
            last_cluster = cluster;
            let ghost prev = cluster;
            proof {
                prev_last = Some(cluster);
            }
            cluster = match self.get_next_cluster(cluster) {
                Ok(n) => n,
                Err(e) => return Err(e),
            };
            fuel = fuel - 1;
            proof {
                assert forall|dd: Seq<u8>| #[trigger] placed_in_chain(d0, dd, bs0, self.spec_bpb(), cluster, per as int, rec, fuel as nat)
                    implies placed_in_chain(d0, dd, bs0, self.spec_bpb(), directory_cluster, per as int, rec, DIR_CHAIN_LIMIT as nat) by {
                    assert(placed_in_chain(d0, dd, bs0, self.spec_bpb(), prev, per as int, rec, (fuel + 1) as nat));
                }
            }
        }
        let ghost old_max = self.spec_max_cluster();
        let ghost old_hint = self.spec_next_free();
        let _blocks = self.device().block_count();
        let new_cluster = match self.find_available_cluster() {
            Ok(c) => c,
            Err(e) => return Err(e),
        };
        let ghost da = self.spec_device().spec_data();
        if new_cluster < 2 {
            return Err(corrupt_chain());
        }
        let first = self.get_sector_by_cluster(new_cluster);
        match self.zero_device_blocks(first, spc) {
            Ok(_) => {},
            Err(e) => return Err(e),
        }
        let ghost dz = self.spec_device().spec_data();
        let bs = self.device().block_size();
        let mut buffer: Vec<u8> = vec![0u8; bs as usize];
        proof {
            assert(buffer@ =~= zero_block(bs as int));
            lemma_concat_rows_len(rows(to_create.long@));
        }
        put_entry(&mut buffer, 0, to_create);
        match self.write_device_block(first, buffer.as_slice()) {
            Ok(_) => {},
            Err(e) => return Err(e),
        }
        let ghost dw = self.spec_device().spec_data();
        let r = self.update_cluster(last_cluster, new_cluster);
        proof {
            let bpb = self.spec_bpb();
            if r is Ok {
                if let Some(l) = chain_last(d0, bs0, bpb, directory_cluster, DIR_CHAIN_LIMIT as nat, None) {
                    assert(l == last_cluster);
                    assert(buffer@.take(bs as int) =~= put_at(zero_block(bs as int), 0, rec));
                    assert(dw == write_at(dz, first * bs0, put_at(zero_block(bs0), 0, rec)));
                    assert((first + spc) * bs0 <= d0.len()) by (nonlinear_arith)
                        requires
                            first + spc <= self.spec_device().spec_block_count(),
                            d0.len() == self.spec_device().spec_block_count() * bs0,
                            bs0 > 0,
                    ;
                    assert(appended_at(d0, self.spec_device().spec_data(), bs0, bpb, rec, l, new_cluster, da));
                    assert(new_cluster < old_max + 2 || (old_hint matches Some(h) && new_cluster < h));
                }
            }
        }
        r
    }
}

/// `d1` is `d0` with some bytes set to zero and no other change.
pub open spec fn only_cleared(d0: Seq<u8>, d1: Seq<u8>) -> bool {
    &&& d1.len() == d0.len()
    &&& forall|p: int| 0 <= p < d0.len() ==> #[trigger] d1[p] == d0[p] || d1[p] == 0
}

proof fn lemma_only_cleared_trans(a: Seq<u8>, b: Seq<u8>, c: Seq<u8>)
    requires
        only_cleared(a, b),
        only_cleared(b, c),
    ensures
        only_cleared(a, c),
{
    assert forall|p: int| 0 <= p < a.len() implies #[trigger] c[p] == a[p] || c[p] == 0 by {
        assert(b[p] == a[p] || b[p] == 0);
        assert(c[p] == b[p] || c[p] == 0);
    }
}

proof fn lemma_clear_slot_only_clears(a: Seq<u8>, b: Seq<u8>, j: int)
    requires
        only_cleared(a, b),
        0 <= j,
        (j + 1) * 32 <= b.len(),
    ensures
        only_cleared(a, put_at(b, j * 32, Seq::new(32, |k: int| 0u8))),
{
    let c = put_at(b, j * 32, Seq::new(32, |k: int| 0u8));
    assert forall|p: int| 0 <= p < a.len() implies #[trigger] c[p] == a[p] || c[p] == 0 by {
        assert(b[p] == a[p] || b[p] == 0);
        if p < j * 32 {
            assert(c[p] == b[p]);
        } else if p < j * 32 + 32 {
            assert(c[p] == 0);
        } else {
            assert(c[p] == b[p]);
        }
    }
}

/// Writing back a block of which only bytes were cleared clears only bytes
/// of the device.
proof fn lemma_write_cleared_block(d: Seq<u8>, bs: int, idx: int, buf: Seq<u8>)
    requires
        bs > 0,
        0 <= idx,
        idx * bs + bs <= d.len(),
        buf.len() == bs,
        only_cleared(block_of(d, bs, idx), buf),
    ensures
        only_cleared(d, write_at(d, idx * bs, buf.take(bs))),
{
    let e = write_at(d, idx * bs, buf.take(bs));
    let blk = block_of(d, bs, idx);
    assert(buf.take(bs) =~= buf);
    assert forall|p: int| 0 <= p < d.len() implies #[trigger] e[p] == d[p] || e[p] == 0 by {
        if p < idx * bs {
            assert(e[p] == d[p]);
        } else if p < idx * bs + bs {
            assert(e[p] == buf[p - idx * bs]);
            assert(blk[p - idx * bs] == d[p]);
            assert(buf[p - idx * bs] == blk[p - idx * bs] || buf[p - idx * bs] == 0);
        } else {
            assert(e[p] == d[p]);
        }
    }
}

/// Zeroes slot `j` of a sector held in `buf`.
fn clear_slot(buf: &mut Vec<u8>, j: usize)
    requires
        (j + 1) * 32 <= old(buf)@.len(),
    ensures
        final(buf)@ == put_at(old(buf)@, j * 32, Seq::new(32, |k: int| 0u8)),
        final(buf)@.len() == old(buf)@.len(),
{
    let _n = buf.len();
    let zeros: Vec<u8> = vec![0u8; 32];
    write_bytes(buf, j * 32, zeros.as_slice());
}

/// The entry `m` lies in one cluster of the data area: its first long
/// entry and its short entry in sectors of its start cluster, and the slot
/// that the clearing starts from in the short entry's sector comes no later
/// than the short entry's own slot.
pub open spec fn entry_in_one_cluster(bpb: Bpb, m: Fat32FileMetadata) -> bool {
    let cs = spec_cluster_sector(bpb, m.start_cluster);
    &&& 2 <= m.start_cluster < FAT_ENTRY_EOC_START
    &&& m.short_cluster == m.start_cluster
    &&& cs <= m.start_sector <= m.short_sector < cs + bpb.sectors_per_cluster
    &&& m.start_sector_offset <= m.short_sector_offset
    &&& (m.short_sector_offset + 1) * 32 <= bpb.bytes_per_sector
}

/// The entry seen as `e` lies, from its first long entry to its short
/// entry, inside one cluster.
pub open spec fn view_in_one_cluster(bpb: Bpb, e: EntryView) -> bool {
    let cs = spec_cluster_sector(bpb, e.start.0);
    &&& 2 <= e.start.0 < FAT_ENTRY_EOC_START
    &&& e.pos.0 == e.start.0
    &&& cs <= e.start.1 <= e.pos.1 < cs + bpb.sectors_per_cluster
    &&& e.start.2 <= e.pos.2
    &&& (e.pos.2 + 1) * 32 <= bpb.bytes_per_sector
}

/// Slot `j` of block `q` holds zeros only.
pub open spec fn slot_zeroed(data: Seq<u8>, bs: int, q: int, j: int) -> bool {
    block_of(data, bs, q).subrange(j * 32, j * 32 + 32) == Seq::new(32, |k: int| 0u8)
}

impl<D: BlockDevice> Fat32FileSystem<D> {
    /// Clears the slots of an entry: from where its first long entry lies
    /// to its short entry, cluster by cluster along the chain.
    pub fn delete_file_meta(&mut self, metadata: &Fat32FileMetadata) -> (r: Result<(), FileSystemError>)
        requires
            old(self).wf(),
        ensures
            final(self).wf(),
            final(self).spec_bpb() == old(self).spec_bpb(),
            final(self).spec_free_count() == old(self).spec_free_count(),
            final(self).spec_max_cluster() == old(self).spec_max_cluster(),
            final(self).spec_occupied() == old(self).spec_occupied(),
            final(self).spec_device().spec_block_size() == old(self).spec_device().spec_block_size(),
            final(self).spec_device().spec_block_count() == old(self).spec_device().spec_block_count(),
            r matches Err(e) ==> e is IoError,
            only_cleared(old(self).spec_device().spec_data(), final(self).spec_device().spec_data()),
            r is Ok && entry_in_one_cluster(old(self).spec_bpb(), *metadata) ==> slot_zeroed(
                final(self).spec_device().spec_data(),
                old(self).spec_device().spec_block_size() as int,
                metadata.short_sector as int,
                metadata.short_sector_offset as int,
            ),
    {
        proof {
            self.lemma_wf_facts();
        }
        let ghost same = entry_in_one_cluster(self.spec_bpb(), *metadata);
        let bps = self.bpb().bytes_per_sector as usize;
        let per = bps / 32;
        let spc = self.bpb().sectors_per_cluster as u64;
        let mut cluster = metadata.start_cluster;
        let mut fuel: u64 = DIR_CHAIN_LIMIT;
        while cluster != FAT_ENTRY_FREE && cluster < crate::fs::fat32::FAT_ENTRY_EOC_START
            invariant
                self.wf(),
                self.spec_bpb() == old(self).spec_bpb(),
                self.spec_free_count() == old(self).spec_free_count(),
                self.spec_max_cluster() == old(self).spec_max_cluster(),
                self.spec_occupied() == old(self).spec_occupied(),
                self.spec_device().spec_block_size() == old(self).spec_device().spec_block_size(),
                self.spec_device().spec_block_count() == old(self).spec_device().spec_block_count(),
                bps == self.spec_bpb().bytes_per_sector,
                per == bps / 32,
                512 <= bps <= self.spec_device().spec_block_size(),
                spc == self.spec_bpb().sectors_per_cluster,
                fuel <= DIR_CHAIN_LIMIT,
                only_cleared(old(self).spec_device().spec_data(), self.spec_device().spec_data()),
                same == entry_in_one_cluster(old(self).spec_bpb(), *metadata),
                same ==> cluster == metadata.start_cluster && fuel == DIR_CHAIN_LIMIT,
            decreases fuel,
        {
            if cluster < 2 || fuel == 0 {
                return Err(corrupt_chain());
            }
            let sector = self.get_sector_by_cluster(cluster);
            proof {
                assert((cluster - 2) * spc <= 0xFFFF_FFFFu64 * 0xFF) by (nonlinear_arith)
                    requires
                        0 <= cluster - 2 <= 0xFFFF_FFFF,
                        0 <= spc <= 0xFF,
                ;
            }
            let sector_start: u64 = if cluster == metadata.start_cluster {
                if metadata.start_sector >= sector {
                    metadata.start_sector - sector
                } else {
                    spc
                }
            } else {
                0
            };
            let mut i: u64 = sector_start;
            while i < spc
                invariant
                    self.wf(),
                    self.spec_bpb() == old(self).spec_bpb(),
                    self.spec_free_count() == old(self).spec_free_count(),
                    self.spec_max_cluster() == old(self).spec_max_cluster(),
                    self.spec_occupied() == old(self).spec_occupied(),
                    self.spec_device().spec_block_size() == old(self).spec_device().spec_block_size(),
                    self.spec_device().spec_block_count() == old(self).spec_device().spec_block_count(),
                    bps == self.spec_bpb().bytes_per_sector,
                    per == bps / 32,
                    512 <= bps <= self.spec_device().spec_block_size(),
                    spc == self.spec_bpb().sectors_per_cluster,
                    sector + spc <= 0x1_0000_0000_0000,
                    only_cleared(old(self).spec_device().spec_data(), self.spec_device().spec_data()),
                    same == entry_in_one_cluster(old(self).spec_bpb(), *metadata),
                    same ==> cluster == metadata.start_cluster && sector == spec_cluster_sector(
                        old(self).spec_bpb(),
                        metadata.start_cluster,
                    ) && sector + i <= metadata.short_sector,
                decreases spc - i,
            {
                let mut buffer = match self.device().read_block(sector + i) {
                    Ok(b) => b,
                    Err(e) => return Err(FileSystemError::IoError(e)),
                };
                let here = sector + i;
                let dbs = self.device().block_size();
                let ghost d = self.spec_device().spec_data();
                proof {
                    assert(here * dbs + dbs <= d.len()) by (nonlinear_arith)
                        requires
                            here < self.spec_device().spec_block_count(),
                            d.len() == self.spec_device().spec_block_count() * dbs,
                    ;
                    assert(only_cleared(block_of(d, dbs as int, here as int), buffer@));
                }
                let offset_start: usize = if here == metadata.short_sector {
                    metadata.start_sector_offset as usize
                } else {
                    0
                };
                let mut finished = false;
                let mut j: usize = offset_start;
                proof {
                    if same && here == metadata.short_sector {
                        assert(metadata.short_sector_offset < per) by (nonlinear_arith)
                            requires
                                (metadata.short_sector_offset + 1) * 32 <= bps,
                                per == bps / 32,
                        ;
                    }
                }
                while j < per
                    invariant_except_break
                        !finished,
                    invariant
                        per == bps / 32,
                        bps <= 0xFFFF,
                        512 <= bps <= buffer@.len(),
                        buffer@.len() == dbs,
                        only_cleared(block_of(d, dbs as int, here as int), buffer@),
                        same && here == metadata.short_sector ==> j <= metadata.short_sector_offset
                            && metadata.short_sector_offset < per && cluster == metadata.short_cluster,
                    ensures
                        buffer@.len() == dbs,
                        only_cleared(block_of(d, dbs as int, here as int), buffer@),
                        finished ==> here == metadata.short_sector && buffer@.subrange(
                            metadata.short_sector_offset * 32,
                            metadata.short_sector_offset * 32 + 32,
                        ) == Seq::new(32, |k: int| 0u8),
                        same && here == metadata.short_sector ==> finished,
                    decreases per - j,
                {
                    proof {
                        assert((j + 1) * 32 <= bps) by (nonlinear_arith)
                            requires
                                j < per,
                                per == bps / 32,
                        ;
                        lemma_clear_slot_only_clears(block_of(d, dbs as int, here as int), buffer@, j as int);
                    }
                    clear_slot(&mut buffer, j);
                    proof {
                        assert(buffer@.subrange(j * 32, j * 32 + 32) =~= Seq::new(32, |k: int| 0u8));
                    }
                    if cluster == metadata.short_cluster && here == metadata.short_sector && j as u32
                        == metadata.short_sector_offset {
                        proof {
                            assert(j < 0x1_0000);
                            assert(j as u32 == j);
                            assert(j == metadata.short_sector_offset);
                        }
                        finished = true;
                        break;
                    }
                    j = j + 1;
                }
                proof {
                    lemma_write_cleared_block(d, dbs as int, here as int, buffer@);
                }
                match self.write_device_block(sector + i, buffer.as_slice()) {
                    Ok(_) => {},
                    Err(e) => return Err(e),
                }
                proof {
                    lemma_only_cleared_trans(
                        old(self).spec_device().spec_data(),
                        d,
                        self.spec_device().spec_data(),
                    );
                }
                if finished {
                    proof {
                        assert((here + 1) * dbs == here * dbs + dbs) by (nonlinear_arith);
                        assert(buffer@.take(dbs as int) =~= buffer@);
                        lemma_block_written(d, dbs as int, here as int, buffer@);
                    }
                    return Ok(());
                }
                i = i + 1;
            }
            cluster = match self.get_next_cluster(cluster) {
                Ok(n) => n,
                Err(e) => return Err(e),
            };
            fuel = fuel - 1;
        }
        Ok(())
    }
}

impl<D: BlockDevice> Fat32FileSystem<D> {
    /// The cluster of the directory `path` names.
    fn dir_cluster(&self, path: Path<'_>) -> (r: Result<u32, FileSystemError>)
        requires
            self.wf(),
        ensures
            ({
                let d = resolve_dir(
                    self.spec_device().spec_data(),
                    self.spec_device().spec_block_size() as int,
                    self.spec_bpb(),
                    path.spec_segments(),
                );
                &&& r matches Ok(c) ==> d == Some(Ok::<u32, FileSystemError>(c))
                &&& r == Err::<u32, FileSystemError>(FileSystemError::FileTypeMismatch) ==> d == Some(
                    Err::<u32, FileSystemError>(FileSystemError::FileTypeMismatch),
                )
                &&& r == Err::<u32, FileSystemError>(FileSystemError::FileNotFound) ==> d == Some(
                    Err::<u32, FileSystemError>(FileSystemError::FileNotFound),
                )
                &&& d is None ==> r is Err
                &&& d matches Some(Err(_)) ==> r is Err
                &&& r matches Err(e) ==> e is IoError || e is FileNotFound || e is FileTypeMismatch
            }),
    {
        match self.get_file_metadata(path) {
            Ok(Some(m)) => {
                if !m.is_directory() {
                    Err(FileSystemError::FileTypeMismatch)
                } else {
                    Ok(m.start_cluster())
                }
            },
            Ok(None) => Ok(self.bpb().root_cluster),
            Err(e) => Err(e),
        }
    }

    /// Frees every cluster of the chain from `start`.
    fn free_chain(&mut self, start: u32) -> (r: Result<(), FileSystemError>)
        requires
            old(self).wf(),
        ensures
            final(self).wf(),
            final(self).spec_bpb() == old(self).spec_bpb(),
            final(self).spec_max_cluster() == old(self).spec_max_cluster(),
            final(self).spec_occupied() == old(self).spec_occupied(),
            final(self).spec_device().spec_block_size() == old(self).spec_device().spec_block_size(),
            final(self).spec_device().spec_block_count() == old(self).spec_device().spec_block_count(),
            r matches Err(e) ==> e is IoError,
            r is Ok ==> chain_freed(
                old(self).spec_device().spec_data(),
                final(self).spec_device().spec_data(),
                old(self).spec_device().spec_block_size() as int,
                old(self).spec_bpb(),
                start,
                DIR_CHAIN_LIMIT as nat,
            ),
    {
        let mut cluster = start;
        let mut fuel: u64 = DIR_CHAIN_LIMIT;
        let ghost d0 = self.spec_device().spec_data();
        let ghost bs0 = self.spec_device().spec_block_size() as int;
        while cluster != FAT_ENTRY_FREE && cluster < FAT_ENTRY_RESERVED_START
            invariant
                forall|dd: Seq<u8>|
                    #[trigger] chain_freed(self.spec_device().spec_data(), dd, bs0, self.spec_bpb(), cluster, fuel as nat)
                        ==> chain_freed(d0, dd, bs0, self.spec_bpb(), start, DIR_CHAIN_LIMIT as nat),
                bs0 == self.spec_device().spec_block_size(),
                self.wf(),
                self.spec_bpb() == old(self).spec_bpb(),
                self.spec_max_cluster() == old(self).spec_max_cluster(),
                self.spec_occupied() == old(self).spec_occupied(),
                self.spec_device().spec_block_size() == old(self).spec_device().spec_block_size(),
                self.spec_device().spec_block_count() == old(self).spec_device().spec_block_count(),
            decreases fuel,
        {
            if fuel == 0 {
                return Err(corrupt_chain());
            }
            let next = match self.get_next_cluster(cluster) {
                Ok(n) => n,
                Err(e) => return Err(e),
            };
            let ghost dc = self.spec_device().spec_data();
            let ghost prev = cluster;
            let ghost f0 = fuel;
            match self.free_cluster(cluster) {
                Ok(_) => {},
                Err(e) => return Err(e),
            }
            cluster = next;
            fuel = fuel - 1;
            proof {
                let dm = self.spec_device().spec_data();
                assert forall|dd: Seq<u8>| #[trigger] chain_freed(dm, dd, bs0, self.spec_bpb(), cluster, fuel as nat)
                    implies chain_freed(d0, dd, bs0, self.spec_bpb(), start, DIR_CHAIN_LIMIT as nat) by {
                    assert(chain_freed(dc, dd, bs0, self.spec_bpb(), prev, f0 as nat));
                }
            }
        }
        proof {
            let d = self.spec_device().spec_data();
            assert(chain_freed(d, d, bs0, self.spec_bpb(), cluster, fuel as nat));
        }
        Ok(())
    }

    /// Creates an empty file or directory named by the last segment of
    /// `path`, in the directory the others name, starting at a new cluster.
    fn create_entry(&mut self, path: Path<'_>, attr: u8) -> (r: Result<(), FileSystemError>)
        requires
            old(self).wf(),
        ensures
            final(self).wf(),
            final(self).spec_bpb() == old(self).spec_bpb(),
            final(self).spec_max_cluster() == old(self).spec_max_cluster(),
            final(self).spec_occupied() == old(self).spec_occupied(),
            final(self).spec_device().spec_block_size() == old(self).spec_device().spec_block_size(),
            final(self).spec_device().spec_block_count() == old(self).spec_device().spec_block_count(),
            ({
                let data = old(self).spec_device().spec_data();
                let bs = old(self).spec_device().spec_block_size() as int;
                let bpb = old(self).spec_bpb();
                let segs = path.spec_segments();
                let d = resolve_dir(data, bs, bpb, segs.drop_last());
                &&& segs.len() == 0 ==> r == Err::<(), FileSystemError>(FileSystemError::FileExists)
                &&& r is Ok ==> (segs.len() > 0 && (d matches Some(Ok(c)) && find_in_dir(data, bs, bpb, c, segs.last())
                    == Some(None::<EntryView>)))
                &&& segs.len() > 0 ==> (d matches Some(Err(_)) ==> r is Err)
                &&& segs.len() > 0 ==> (d is None ==> r is Err)
                &&& segs.len() > 0 ==> (d matches Some(Ok(c)) ==> (find_in_dir(data, bs, bpb, c, segs.last()) matches Some(Some(_)) ==> r is Err))
                &&& r == Err::<(), FileSystemError>(FileSystemError::FileTypeMismatch) ==> d == Some(
                    Err::<u32, FileSystemError>(FileSystemError::FileTypeMismatch),
                )
                &&& r == Err::<(), FileSystemError>(FileSystemError::FileExists) ==> (segs.len() == 0 || (d matches Some(Ok(c))
                    && find_in_dir(data, bs, bpb, c, segs.last()) matches Some(Some(_))))
                &&& segs.len() > 0 ==> (d == Some(Err::<u32, FileSystemError>(FileSystemError::FileNotFound)) ==> (r is Err && (r->Err_0 is FileNotFound
                    || r->Err_0 is IoError)))
                &&& segs.len() > 0 ==> (d matches Some(Ok(c)) ==> (find_in_dir(data, bs, bpb, c, segs.last()) matches Some(Some(_)) ==> (r is Err && (r->Err_0 is FileExists
                    || r->Err_0 is IoError))))
                &&& segs.len() > 0 ==> (d matches Some(Ok(c)) ==> (find_in_dir(data, bs, bpb, c, segs.last()) == Some(None::<EntryView>)
                    ==> (long_entries(encode_utf16(segs.last())).len() + 1 > bpb.bytes_per_sector / 32 ==> (r is Err && (r->Err_0 is NameTooLang
                    || r->Err_0 is IoError || r->Err_0 is DiskFull)))))
            }),
            r matches Err(e) ==> e is IoError || e is FileNotFound || e is FileTypeMismatch || e is FileExists
                || e is DiskFull || e is NameTooLang,
            attr != ATTR_DIRECTORY && r == Err::<(), FileSystemError>(FileSystemError::NameTooLang)
                ==> final(self).spec_free_count() == old(self).spec_free_count(),
            ({
                let data = old(self).spec_device().spec_data();
                let bs = old(self).spec_device().spec_block_size() as int;
                let bpb = old(self).spec_bpb();
                let segs = path.spec_segments();
                let d = resolve_dir(data, bs, bpb, segs.drop_last());
                r is Ok && attr != ATTR_DIRECTORY && attr != ATTR_LONG_NAME && plain_name(segs.last()) && alloc_within(
                    bpb,
                    bs,
                    data.len() as int,
                    old(self).spec_max_cluster(),
                    old(self).spec_next_free(),
                ) && (d matches Some(Ok(c)) ==> (entry_goes_in(data, bs, bpb, c, segs.last()) || (entry_appended_in(
                    data,
                    bs,
                    bpb,
                    c,
                    segs.last(),
                ) && link_within(bpb, old(self).spec_max_cluster(), old(self).spec_next_free())))) ==> (d matches Some(Ok(c))
                    && find_in_dir(final(self).spec_device().spec_data(), bs, bpb, c, segs.last()) matches Some(Some(e))
                    && e.long == long_entries(encode_utf16(segs.last())) && entry_attr(e.short) == attr)
            }),
    {
        let ghost d0 = self.spec_device().spec_data();
        let ghost bs0 = self.spec_device().spec_block_size() as int;
        let name = match path.last_segment() {
            Some(n) => n,
            None => return Err(FileSystemError::FileExists),
        };
        let parent = path.parent();
        let directory_cluster = match self.dir_cluster(parent) {
            Ok(c) => c,
            Err(e) => return Err(e),
        };
        match self.get_file_metadata_by_cluster(directory_cluster, name) {
            Ok(_) => return Err(FileSystemError::FileExists),
            Err(FileSystemError::FileNotFound) => {},
            Err(e) => return Err(e),
        }
        let ghost old_max = self.spec_max_cluster();
        let ghost old_hint = self.spec_next_free();
        let cluster = match self.find_available_cluster() {
            Ok(c) => c,
            Err(e) => return Err(e),
        };
        let ghost da = self.spec_device().spec_data();
        if attr == ATTR_DIRECTORY {
            if cluster < 2 {
                return Err(corrupt_chain());
            }
            let first = self.get_sector_by_cluster(cluster);
            let spc = self.bpb().sectors_per_cluster as u64;
            match self.zero_device_blocks(first, spc) {
                Ok(_) => {},
                Err(e) => {
                    let _ = self.free_cluster(cluster);
                    return Err(e);
                },
            }
        }
        let file_metadata = Fat32FileMetadata::new(name, cluster, attr);
        match self.create_file_meta(directory_cluster, &file_metadata) {
            Ok(_) => {
                proof {
                    let bpb = self.spec_bpb();
                    let nm = name@;
                    if attr != ATTR_DIRECTORY && attr != ATTR_LONG_NAME && plain_name(nm) && alloc_within(
                        bpb,
                        bs0,
                        d0.len() as int,
                        old_max,
                        old_hint,
                    ) && !entry_goes_in(d0, bs0, bpb, directory_cluster, nm) && entry_appended_in(
                        d0,
                        bs0,
                        bpb,
                        directory_cluster,
                        nm,
                    ) && link_within(bpb, old_max, old_hint) {
                        self.lemma_wf_facts();
                        let units = encode_utf16(nm);
                        let need = (long_entries(units).len() + 1) as int;
                        let tg = (vstd::utf8::encode_utf8(nm), units);
                        let fuel = DIR_CHAIN_LIMIT as nat;
                        let d1 = self.spec_device().spec_data();
                        let c = directory_cluster;
                        assert(fat_sector(bpb, cluster) < bpb.reserved_sector_count + bpb.fat_size_32);
                        lemma_alloc_frame(d0, da, bs0, bpb, cluster);
                        let last = chain_last(d0, bs0, bpb, c, (fuel - 1) as nat, None)->Some_0;
                        lemma_chain_last_more(d0, bs0, bpb, c, (fuel - 1) as nat, None);
                        lemma_chain_inside_less(d0, bs0, bpb, c, (fuel - 1) as nat);
                        lemma_whole_chain_after_alloc(d0, da, bs0, bpb, cluster, c, fuel, None, last, walk_init(), Some(tg), need);
                        lemma_whole_chain_after_alloc(d0, da, bs0, bpb, cluster, c, (fuel - 1) as nat, None, last, walk_init(), Some(tg), need);
                        lemma_chain_last_inside(d0, bs0, bpb, c, fuel, None);
                        assert(spec_fat_entry(da, bs0, bpb, last) == spec_fat_entry(d0, bs0, bpb, last));
                        assert(search_state(walk_init()));
                        lemma_walk_chain_search(d0, bs0, bpb, c, fuel, walk_init(), tg);
                        assert(rows(file_metadata.long@).len() == file_metadata.long@.len());
                        let rec = entry_record(rows(file_metadata.long@), file_metadata.short@);
                        let (k2, da2) = choose|k2: u32, da2: Seq<u8>|
                            appended_at(da, d1, bs0, bpb, rec, last, k2, da2) && (k2 < old_max + 2 || (old_hint matches Some(h)
                                && k2 < h));
                        assert(fat_sector(bpb, k2) < bpb.reserved_sector_count + bpb.fat_size_32);
                        lemma_created_entry_appended(da, d1, bs0, bpb, c, nm, cluster, attr, last, k2, da2);
                        vstd::bytes::lemma_auto_spec_u16_to_from_le_bytes();
                        assert(entry_attr(short_entry_bytes(cluster, attr)) == attr);
                    }
                    if attr != ATTR_DIRECTORY && attr != ATTR_LONG_NAME && plain_name(nm) && alloc_within(
                        bpb,
                        bs0,
                        d0.len() as int,
                        old_max,
                        old_hint,
                    ) && entry_goes_in(d0, bs0, bpb, directory_cluster, nm) {
                        self.lemma_wf_facts();
                        let units = encode_utf16(nm);
                        let need = (long_entries(units).len() + 1) as int;
                        let tg = (vstd::utf8::encode_utf8(nm), units);
                        let fuel = DIR_CHAIN_LIMIT as nat;
                        assert(fat_sector(bpb, cluster) < bpb.reserved_sector_count + bpb.fat_size_32);
                        lemma_alloc_frame(d0, da, bs0, bpb, cluster);
                        assert(search_state(walk_init()));
                        lemma_walk_chain_search(d0, bs0, bpb, directory_cluster, fuel, walk_init(), tg);
                        lemma_until_room_of_search(d0, bs0, bpb, directory_cluster, fuel, walk_init(), tg, entries_per_sector(bpb), need);
                        lemma_chain_after_alloc(d0, da, bs0, bpb, cluster, directory_cluster, need, fuel, walk_init(), Some(tg));
                        assert(rows(file_metadata.long@).len() == file_metadata.long@.len());
                        lemma_created_entry_found_walk(da, self.spec_device().spec_data(), bs0, bpb, directory_cluster, nm, cluster, attr);
                        vstd::bytes::lemma_auto_spec_u16_to_from_le_bytes();
                        assert(entry_attr(short_entry_bytes(cluster, attr)) == attr);
                    }
                }
                Ok(())
            },
            Err(e) => {
                if attr == ATTR_DIRECTORY {
                    let _ = self.free_cluster(cluster);
                    Err(e)
                } else {
                    match self.free_cluster(cluster) {
                        Ok(_) => Err(e),
                        Err(e2) => Err(e2),
                    }
                }
            },
        }
    }
}

/// `size` is the room the cluster chain from `c` takes: its clusters times
/// the bytes of a cluster.
pub open spec fn allocated_as(data: Seq<u8>, bs: int, bpb: Bpb, c: u32, size: u64) -> bool {
    chain_length(data, bs, bpb, c, DIR_CHAIN_LIMIT as nat) matches Some(k) && size == k * bpb.bytes_per_sector
        * bpb.sectors_per_cluster
}

/// The cluster of the directory a lookup of a parent path gives: its start
/// cluster, or the root cluster for the empty path; `None` when the lookup
/// failed or gave a file's entry.
pub open spec fn dst_cluster(l: Option<Result<Option<EntryView>, FileSystemError>>, root: u32) -> Option<u32> {
    match l {
        Some(Ok(Some(m))) => Some(entry_cluster(m.short)),
        Some(Ok(None)) => Some(root),
        _ => None,
    }
}

/// The byte at position `q` of what the cluster chain from `c` holds: the
/// chain's clusters one after another, each sector of a cluster giving its
/// first `bytes_per_sector` bytes; `None` past the chain's end, and for a
/// position inside a cluster that no data sector has.
pub open spec fn chain_byte(data: Seq<u8>, bs: int, bpb: Bpb, c: u32, q: int) -> Option<u8>
    decreases q,
{
    let bps = bpb.bytes_per_sector as int;
    let bpc = bps * bpb.sectors_per_cluster as int;
    if q < 0 || bpc <= 0 || c == FAT_ENTRY_FREE || c >= FAT_ENTRY_EOC_START {
        None
    } else if q < bpc {
        if c < 2 {
            None
        } else {
            Some(block_of(data, bs, spec_cluster_sector(bpb, c) + q / bps)[q % bps])
        }
    } else {
        chain_byte(data, bs, bpb, spec_fat_entry(data, bs, bpb, c), q - bpc)
    }
}

/// The bytes of `buf` before `len` are those of the chain from `start`
/// from position `p` on.
pub open spec fn read_into(data: Seq<u8>, bs: int, bpb: Bpb, start: u32, p: int, buf: Seq<u8>, len: int) -> bool {
    forall|k: int| 0 <= k < len ==> chain_byte(data, bs, bpb, start, p + k) == Some(#[trigger] buf[k])
}

/// The bytes of `after` from `len` on are those of `before`.
pub open spec fn unread_kept(before: Seq<u8>, after: Seq<u8>, len: int) -> bool {
    forall|k: int| len <= k < before.len() ==> #[trigger] after[k] == before[k]
}

/// Past the first cluster, the chain goes on from the next one.
proof fn lemma_chain_byte_next(data: Seq<u8>, bs: int, bpb: Bpb, c: u32, x: int)
    requires
        bpb.bytes_per_sector as int * bpb.sectors_per_cluster as int > 0,
        c != FAT_ENTRY_FREE,
        c < FAT_ENTRY_EOC_START,
        x >= bpb.bytes_per_sector as int * bpb.sectors_per_cluster as int,
    ensures
        chain_byte(data, bs, bpb, c, x) == chain_byte(
            data,
            bs,
            bpb,
            spec_fat_entry(data, bs, bpb, c),
            x - bpb.bytes_per_sector as int * bpb.sectors_per_cluster as int,
        ),
{
}

/// Byte `x` of sector `i` of cluster `c` is byte `i * bps + x` of the
/// chain from `c`.
proof fn lemma_sector_byte(data: Seq<u8>, bs: int, bpb: Bpb, c: u32, i: int, x: int)
    requires
        2 <= c < FAT_ENTRY_EOC_START,
        bpb.bytes_per_sector > 0,
        0 <= i < bpb.sectors_per_cluster,
        0 <= x < bpb.bytes_per_sector,
    ensures
        chain_byte(data, bs, bpb, c, i * bpb.bytes_per_sector + x) == Some(
            block_of(data, bs, spec_cluster_sector(bpb, c) + i)[x],
        ),
{
    let bps = bpb.bytes_per_sector as int;
    let spc = bpb.sectors_per_cluster as int;
    vstd::arithmetic::div_mod::lemma_fundamental_div_mod_converse(i * bps + x, bps, i, x);
    assert(i * bps + x < bps * spc) by (nonlinear_arith)
        requires
            0 <= i < spc,
            0 <= x < bps,
    ;
    assert(bps * spc > 0) by (nonlinear_arith)
        requires
            bps > 0,
            spc > i >= 0,
    ;
}

/// An open file of a FAT32 file system.
pub struct Fat32FileHandle<D> {
    metadata: Fat32FileMetadata,
    pointer: u64,
    closed: bool,
    device: core::marker::PhantomData<D>,
}

impl<D> Fat32FileHandle<D> {
    pub closed spec fn spec_pointer(&self) -> u64 {
        self.pointer
    }

    pub closed spec fn spec_closed(&self) -> bool {
        self.closed
    }

    /// The size of the file, as its entry says.
    pub closed spec fn spec_file_size(&self) -> u32 {
        entry_file_size(self.metadata.short@)
    }

    /// The entry of the file.
    pub closed spec fn spec_metadata(&self) -> EntryView {
        self.metadata.view()
    }

    #[verifier::type_invariant]
    spec fn wf(&self) -> bool {
        self.metadata.ok()
    }
}

impl<D: BlockDevice> FileSystem for Fat32FileSystem<D> {
    type Handle = Fat32FileHandle<D>;

    open spec fn fs_ready(&self) -> bool {
        self.wf()
    }

    fn total_space(&self) -> (r: Result<u64, FileSystemError>)
        ensures
            r == Ok::<u64, FileSystemError>(
                (self.spec_max_cluster() * self.spec_bpb().bytes_per_sector * self.spec_bpb().sectors_per_cluster) as u64,
            ),
    {
        Ok(self.cluster_bytes_total())
    }

    fn free_space(&self) -> (r: Result<u64, FileSystemError>)
        ensures
            r == Ok::<u64, FileSystemError>(
                (match self.spec_free_count() {
                    Some(n) => n as int,
                    None => 0int,
                } * self.spec_bpb().bytes_per_sector * self.spec_bpb().sectors_per_cluster) as u64,
            ),
    {
        Ok(self.cluster_bytes_free())
    }

    fn create_file(&mut self, path: Path<'_>) -> (r: Result<(), FileSystemError>)
        ensures
            final(self).spec_bpb() == old(self).spec_bpb(),
            final(self).spec_occupied() == old(self).spec_occupied(),
            ({
                let data = old(self).spec_device().spec_data();
                let bs = old(self).spec_device().spec_block_size() as int;
                let bpb = old(self).spec_bpb();
                let segs = path.spec_segments();
                let d = resolve_dir(data, bs, bpb, segs.drop_last());
                &&& segs.len() == 0 ==> r == Err::<(), FileSystemError>(FileSystemError::FileExists)
                &&& r is Ok ==> (segs.len() > 0 && (d matches Some(Ok(c)) && find_in_dir(data, bs, bpb, c, segs.last())
                    == Some(None::<EntryView>)))
                &&& segs.len() > 0 ==> (d matches Some(Err(_)) ==> r is Err)
                &&& segs.len() > 0 ==> (d matches Some(Ok(c)) ==> (find_in_dir(data, bs, bpb, c, segs.last()) matches Some(Some(_)) ==> r is Err))
                &&& segs.len() > 0 ==> (d == Some(Err::<u32, FileSystemError>(FileSystemError::FileNotFound)) ==> (r is Err && (r->Err_0 is FileNotFound
                    || r->Err_0 is IoError)))
                &&& segs.len() > 0 ==> (d matches Some(Ok(c)) ==> (find_in_dir(data, bs, bpb, c, segs.last()) matches Some(Some(_)) ==> (r is Err && (r->Err_0 is FileExists
                    || r->Err_0 is IoError))))
                &&& segs.len() > 0 ==> (d matches Some(Ok(c)) ==> (find_in_dir(data, bs, bpb, c, segs.last()) == Some(None::<EntryView>)
                    ==> (long_entries(encode_utf16(segs.last())).len() + 1 > bpb.bytes_per_sector / 32 ==> (r is Err && (r->Err_0 is NameTooLang
                    || r->Err_0 is IoError || r->Err_0 is DiskFull)))))
            }),
            ({
                let data = old(self).spec_device().spec_data();
                let bs = old(self).spec_device().spec_block_size() as int;
                let bpb = old(self).spec_bpb();
                let segs = path.spec_segments();
                let d = resolve_dir(data, bs, bpb, segs.drop_last());
                r is Ok && plain_name(segs.last()) && alloc_within(
                    bpb,
                    bs,
                    data.len() as int,
                    old(self).spec_max_cluster(),
                    old(self).spec_next_free(),
                ) && (d matches Some(Ok(c)) ==> (entry_goes_in(data, bs, bpb, c, segs.last()) || (entry_appended_in(
                    data,
                    bs,
                    bpb,
                    c,
                    segs.last(),
                ) && link_within(bpb, old(self).spec_max_cluster(), old(self).spec_next_free())))) ==> (d matches Some(Ok(c))
                    && find_in_dir(final(self).spec_device().spec_data(), bs, bpb, c, segs.last()) matches Some(Some(e))
                    && e.long == long_entries(encode_utf16(segs.last())) && entry_attr(e.short) == ATTR_ARCHIVE)
            }),
            r == Err::<(), FileSystemError>(FileSystemError::NameTooLang) ==> final(self).spec_free_count()
                == old(self).spec_free_count(),
    {
        self.create_entry(path, ATTR_ARCHIVE)
    }

    fn create_directory(&mut self, path: Path<'_>) -> (r: Result<(), FileSystemError>)
        ensures
            final(self).spec_bpb() == old(self).spec_bpb(),
            final(self).spec_occupied() == old(self).spec_occupied(),
            ({
                let data = old(self).spec_device().spec_data();
                let bs = old(self).spec_device().spec_block_size() as int;
                let bpb = old(self).spec_bpb();
                let segs = path.spec_segments();
                let d = resolve_dir(data, bs, bpb, segs.drop_last());
                &&& segs.len() == 0 ==> r == Err::<(), FileSystemError>(FileSystemError::FileExists)
                &&& r is Ok ==> (segs.len() > 0 && (d matches Some(Ok(c)) && find_in_dir(data, bs, bpb, c, segs.last())
                    == Some(None::<EntryView>)))
                &&& segs.len() > 0 ==> (d matches Some(Err(_)) ==> r is Err)
                &&& segs.len() > 0 ==> (d matches Some(Ok(c)) ==> (find_in_dir(data, bs, bpb, c, segs.last()) matches Some(Some(_)) ==> r is Err))
                &&& segs.len() > 0 ==> (d == Some(Err::<u32, FileSystemError>(FileSystemError::FileNotFound)) ==> (r is Err && (r->Err_0 is FileNotFound
                    || r->Err_0 is IoError)))
                &&& segs.len() > 0 ==> (d matches Some(Ok(c)) ==> (find_in_dir(data, bs, bpb, c, segs.last()) matches Some(Some(_)) ==> (r is Err && (r->Err_0 is FileExists
                    || r->Err_0 is IoError))))
                &&& segs.len() > 0 ==> (d matches Some(Ok(c)) ==> (find_in_dir(data, bs, bpb, c, segs.last()) == Some(None::<EntryView>)
                    ==> (long_entries(encode_utf16(segs.last())).len() + 1 > bpb.bytes_per_sector / 32 ==> (r is Err && (r->Err_0 is NameTooLang
                    || r->Err_0 is IoError || r->Err_0 is DiskFull)))))
            }),
    {
        self.create_entry(path, ATTR_DIRECTORY)
    }

    fn open_file(&mut self, path: Path<'_>) -> (r: Result<Fat32FileHandle<D>, FileSystemError>)
        ensures
            final(self).spec_device() == old(self).spec_device(),
            ({
                let l = lookup_path(
                    old(self).spec_device().spec_data(),
                    old(self).spec_device().spec_block_size() as int,
                    old(self).spec_bpb(),
                    old(self).spec_bpb().root_cluster,
                    path.spec_segments(),
                    None,
                );
                &&& r matches Ok(h) ==> {
                    &&& l == Some(Ok::<Option<EntryView>, FileSystemError>(Some(h.spec_metadata())))
                    &&& !is_dir_entry(h.spec_metadata().short)
                    &&& !old(self).spec_occupied().contains(entry_cluster(h.spec_metadata().short))
                    &&& final(self).spec_occupied().to_set() == old(self).spec_occupied().to_set().insert(
                        entry_cluster(h.spec_metadata().short),
                    )
                    &&& h.spec_pointer() == 0
                    &&& !h.spec_closed()
                }
                &&& r is Err ==> final(self).spec_occupied() == old(self).spec_occupied()
                &&& l == Some(Ok::<Option<EntryView>, FileSystemError>(None)) ==> r is Err
                &&& l matches Some(Ok(Some(m))) ==> (is_dir_entry(m.short) ==> r is Err)
                &&& l matches Some(Ok(Some(m))) ==> (old(self).spec_occupied().contains(entry_cluster(m.short)) ==> r is Err)
                &&& l matches Some(Err(_)) ==> r is Err
            }),
    {
        let file = match self.get_file_metadata(path) {
            Ok(Some(f)) => f,
            Ok(None) => return Err(FileSystemError::FileTypeMismatch),
            Err(e) => return Err(e),
        };
        if file.is_directory() {
            return Err(FileSystemError::FileTypeMismatch);
        }
        let start = file.start_cluster();
        if !self.occupy(start) {
            return Err(FileSystemError::FileOccupied);
        }
        let h = Fat32FileHandle { metadata: file, pointer: 0, closed: false, device: core::marker::PhantomData };
        Ok(h)
    }

    fn delete_file(&mut self, path: Path<'_>) -> (r: Result<(), FileSystemError>)
        ensures
            final(self).spec_bpb() == old(self).spec_bpb(),
            final(self).spec_occupied() == old(self).spec_occupied(),
            ({
                let l = lookup_path(
                    old(self).spec_device().spec_data(),
                    old(self).spec_device().spec_block_size() as int,
                    old(self).spec_bpb(),
                    old(self).spec_bpb().root_cluster,
                    path.spec_segments(),
                    None,
                );
                &&& r is Ok ==> (l matches Some(Ok(Some(m))) && !is_dir_entry(m.short)
                    && !old(self).spec_occupied().contains(entry_cluster(m.short)))
                &&& r is Ok ==> (l matches Some(Ok(Some(m))) && exists|mid: Seq<u8>|
                    only_cleared(old(self).spec_device().spec_data(), mid) && (view_in_one_cluster(
                        old(self).spec_bpb(),
                        m,
                    ) ==> slot_zeroed(
                        mid,
                        old(self).spec_device().spec_block_size() as int,
                        m.pos.1 as int,
                        m.pos.2 as int,
                    )) && chain_freed(
                        mid,
                        final(self).spec_device().spec_data(),
                        old(self).spec_device().spec_block_size() as int,
                        old(self).spec_bpb(),
                        entry_cluster(m.short),
                        DIR_CHAIN_LIMIT as nat,
                    ))
                &&& l == Some(Ok::<Option<EntryView>, FileSystemError>(None)) ==> r is Err
                &&& l matches Some(Ok(Some(m))) ==> (is_dir_entry(m.short) ==> r is Err)
                &&& l matches Some(Ok(Some(m))) ==> (old(self).spec_occupied().contains(entry_cluster(m.short)) ==> r is Err)
                &&& r == Err::<(), FileSystemError>(FileSystemError::FileOccupied) ==> (l matches Some(Ok(Some(m)))
                    && old(self).spec_occupied().contains(entry_cluster(m.short)))
                &&& r == Err::<(), FileSystemError>(FileSystemError::FileTypeMismatch) ==> (l == Some(
                    Ok::<Option<EntryView>, FileSystemError>(None),
                ) || (l matches Some(Ok(Some(m))) && is_dir_entry(m.short)))
                &&& l matches Some(Err(_)) ==> r is Err
            }),
    {
        let file = match self.get_file_metadata(path) {
            Ok(Some(f)) => f,
            Ok(None) => return Err(FileSystemError::FileTypeMismatch),
            Err(e) => return Err(e),
        };
        if file.is_directory() {
            return Err(FileSystemError::FileTypeMismatch);
        }
        let start = file.start_cluster();
        if self.is_occupied(start) {
            return Err(FileSystemError::FileOccupied);
        }
        match self.delete_file_meta(&file) {
            Ok(_) => {},
            Err(e) => return Err(e),
        }
        let ghost mid = self.spec_device().spec_data();
        let r = self.free_chain(start);
        proof {
            if r is Ok {
                assert(only_cleared(old(self).spec_device().spec_data(), mid));
                assert(entry_in_one_cluster(self.spec_bpb(), file) == view_in_one_cluster(self.spec_bpb(), file.view()));
            }
        }
        r
    }

    fn delete_directory(&mut self, path: Path<'_>) -> (r: Result<(), FileSystemError>)
        ensures
            final(self).spec_bpb() == old(self).spec_bpb(),
            final(self).spec_occupied() == old(self).spec_occupied(),
            ({
                let data = old(self).spec_device().spec_data();
                let bs = old(self).spec_device().spec_block_size() as int;
                let l = lookup_path(data, bs, old(self).spec_bpb(), old(self).spec_bpb().root_cluster, path.spec_segments(), None);
                &&& r is Ok ==> (l matches Some(Ok(Some(m))) && is_dir_entry(m.short) && list_dir(
                    data,
                    bs,
                    old(self).spec_bpb(),
                    entry_cluster(m.short),
                ) == Some(Seq::<EntryView>::empty()))
                &&& r is Ok ==> (l matches Some(Ok(Some(m))) && exists|mid: Seq<u8>|
                    only_cleared(data, mid) && (view_in_one_cluster(old(self).spec_bpb(), m) ==> slot_zeroed(
                        mid,
                        bs,
                        m.pos.1 as int,
                        m.pos.2 as int,
                    )) && chain_freed(
                        mid,
                        final(self).spec_device().spec_data(),
                        bs,
                        old(self).spec_bpb(),
                        entry_cluster(m.short),
                        DIR_CHAIN_LIMIT as nat,
                    ))
                &&& l == Some(Ok::<Option<EntryView>, FileSystemError>(None)) ==> r is Err
                &&& r == Err::<(), FileSystemError>(FileSystemError::OperationNotSupport) ==> l == Some(
                    Ok::<Option<EntryView>, FileSystemError>(None),
                )
                &&& l matches Some(Ok(Some(m))) ==> (!is_dir_entry(m.short) ==> r is Err)
                &&& r == Err::<(), FileSystemError>(FileSystemError::FileTypeMismatch) ==> (l matches Some(Ok(Some(m)))
                    && !is_dir_entry(m.short))
                &&& l matches Some(Ok(Some(m))) ==> (is_dir_entry(m.short) ==> (list_dir(data, bs, old(self).spec_bpb(), entry_cluster(m.short)) matches Some(es) && es.len() > 0 ==> r is Err))
                &&& l matches Some(Err(_)) ==> r is Err
            }),
    {
        let file = match self.get_file_metadata(path) {
            Ok(Some(f)) => f,
            Ok(None) => return Err(FileSystemError::OperationNotSupport),
            Err(e) => return Err(e),
        };
        if !file.is_directory() {
            return Err(FileSystemError::FileTypeMismatch);
        }
        let start = file.start_cluster();
        let files = match self.get_all_filemeta_by_cluster(start) {
            Ok(f) => f,
            Err(e) => return Err(e),
        };
        if files.len() != 0 {
            return Err(FileSystemError::FileExists);
        }
        match self.delete_file_meta(&file) {
            Ok(_) => {},
            Err(e) => return Err(e),
        }
        let ghost mid = self.spec_device().spec_data();
        let r = self.free_chain(start);
        proof {
            if r is Ok {
                assert(only_cleared(old(self).spec_device().spec_data(), mid));
                assert(entry_in_one_cluster(self.spec_bpb(), file) == view_in_one_cluster(self.spec_bpb(), file.view()));
            }
        }
        r
    }

    /// Moves the entry at `old_path` to `new_path`: its slots are cleared,
    /// and an entry with the same short entry (start cluster, attribute,
    /// size) under the last segment of `new_path` is written in the
    /// directory that `new_path`'s parent names.
    fn rename(&mut self, old_path: Path<'_>, new_path: Path<'_>) -> (r: Result<(), FileSystemError>)
        ensures
            final(self).spec_bpb() == old(self).spec_bpb(),
            final(self).spec_occupied() == old(self).spec_occupied(),
            ({
                let data = old(self).spec_device().spec_data();
                let bs = old(self).spec_device().spec_block_size() as int;
                let bpb = old(self).spec_bpb();
                let src = lookup_path(data, bs, bpb, bpb.root_cluster, old_path.spec_segments(), None);
                let segs = new_path.spec_segments();
                let dst = lookup_path(data, bs, bpb, bpb.root_cluster, segs.drop_last(), None);
                &&& src == Some(Ok::<Option<EntryView>, FileSystemError>(None)) ==> (r is Err && (r->Err_0 is OperationNotSupport
                    || r->Err_0 is IoError))
                &&& src matches Some(Err(_)) ==> r is Err
                &&& r is Ok ==> (src matches Some(Ok(Some(_))) && segs.len() > 0)
                &&& (src is Some && src->Some_0 is Ok && src->Some_0->Ok_0 is Some && segs.len() > 0) ==> (dst_cluster(
                    dst,
                    bpb.root_cluster,
                ) matches Some(c) ==> (find_in_dir(data, bs, bpb, c, segs.last()) matches Some(Some(_)) ==> (r is Err && (
                r->Err_0 is FileExists || r->Err_0 is IoError))))
                &&& r is Ok ==> (src matches Some(Ok(Some(m))) && dst_cluster(dst, bpb.root_cluster) matches Some(c) && find_in_dir(
                    data,
                    bs,
                    bpb,
                    c,
                    segs.last(),
                ) == Some(None::<EntryView>) && exists|mid: Seq<u8>|
                    only_cleared(data, mid) && (view_in_one_cluster(bpb, m) ==> slot_zeroed(
                        mid,
                        bs,
                        m.pos.1 as int,
                        m.pos.2 as int,
                    )) && (chain_has_room(
                        mid,
                        bs,
                        bpb,
                        c,
                        (bpb.bytes_per_sector / 32) as int,
                        (long_entries(encode_utf16(segs.last())).len() + 1) as int,
                        DIR_CHAIN_LIMIT as nat,
                    ) ==> placed_in_chain(
                        mid,
                        final(self).spec_device().spec_data(),
                        bs,
                        bpb,
                        c,
                        (bpb.bytes_per_sector / 32) as int,
                        entry_record(long_entries(encode_utf16(segs.last())), m.short),
                        DIR_CHAIN_LIMIT as nat,
                    )))
            }),
    {
        let ghost d0 = self.spec_device().spec_data();
        let src = match self.get_file_metadata(old_path) {
            Ok(Some(f)) => f,
            Ok(None) => return Err(FileSystemError::OperationNotSupport),
            Err(e) => return Err(e),
        };
        let dst_parent = match self.get_file_metadata(new_path.parent()) {
            Ok(p) => p,
            Err(e) => return Err(e),
        };
        let dst_parent_cluster = match &dst_parent {
            Some(p) => p.start_cluster(),
            None => self.bpb().root_cluster,
        };
        let last_segment = match new_path.last_segment() {
            Some(s) => s,
            None => return Err(FileSystemError::OperationNotSupport),
        };
        match self.get_file_metadata_by_cluster(dst_parent_cluster, last_segment) {
            Ok(_) => return Err(FileSystemError::FileExists),
            Err(FileSystemError::FileNotFound) => {},
            Err(e) => return Err(e),
        }
        let units = encode_utf16_str(last_segment);
        let moved = Fat32FileMetadata {
            short: src.short.clone(),
            long: build_long_entries(&units),
            start_cluster: 0,
            start_sector: 0,
            start_sector_offset: 0,
            short_cluster: 0,
            short_sector: 0,
            short_sector_offset: 0,
        };
        proof {
            assert(rows(moved.long@) =~= long_entries(encode_utf16(last_segment@)));
        }
        match self.delete_file_meta(&src) {
            Ok(_) => {},
            Err(e) => return Err(e),
        }
        let ghost mid = self.spec_device().spec_data();
        let r = self.create_file_meta(dst_parent_cluster, &moved);
        proof {
            if r is Ok {
                assert(rows(moved.long@).len() == moved.long@.len());
                assert(only_cleared(d0, mid));
                assert(entry_in_one_cluster(self.spec_bpb(), src) == view_in_one_cluster(self.spec_bpb(), src.view()));
            }
        }
        r
    }

    fn get_metadata(&self, path: Path<'_>) -> (r: Result<FileMetadata, FileSystemError>)
        ensures
            ({
                let data = self.spec_device().spec_data();
                let bs = self.spec_device().spec_block_size() as int;
                let l = lookup_path(data, bs, self.spec_bpb(), self.spec_bpb().root_cluster, path.spec_segments(), None);
                &&& r matches Ok(fm) ==> (l matches Some(Ok(Some(m))) && fm.name@ == crate::fs::dirent::entry_name(m.short, m.long)
                    && fm.size == entry_file_size(m.short) && fm.is_directory == is_dir_entry(m.short) && allocated_as(
                    data,
                    bs,
                    self.spec_bpb(),
                    entry_cluster(m.short),
                    fm.allocated_size,
                ))
                &&& l == Some(Ok::<Option<EntryView>, FileSystemError>(None)) ==> r is Err
                &&& r == Err::<FileMetadata, FileSystemError>(FileSystemError::OperationNotSupport) ==> l == Some(
                    Ok::<Option<EntryView>, FileSystemError>(None),
                )
                &&& l matches Some(Err(_)) ==> r is Err
                &&& l is None ==> r is Err
            }),
    {
        let file = match self.get_file_metadata(path) {
            Ok(Some(f)) => f,
            Ok(None) => return Err(FileSystemError::OperationNotSupport),
            Err(e) => return Err(e),
        };
        self.get_fs_metadata(&file)
    }

    #[verifier::spinoff_prover]
    fn list_directory(&self, path: Path<'_>) -> (r: Result<Vec<FileMetadata>, FileSystemError>)
        ensures
            ({
                let data = self.spec_device().spec_data();
                let bs = self.spec_device().spec_block_size() as int;
                let d = resolve_dir(data, bs, self.spec_bpb(), path.spec_segments());
                &&& r matches Ok(v) ==> (d matches Some(Ok(c)) && list_dir(data, bs, self.spec_bpb(), c) matches Some(es)
                    && v@.len() == es.len() && forall|i: int| 0 <= i < v@.len() ==> #[trigger] v@[i].name@
                    == crate::fs::dirent::entry_name(es[i].short, es[i].long))
                &&& r matches Ok(v) ==> (d matches Some(Ok(c)) && list_dir(data, bs, self.spec_bpb(), c) matches Some(es)
                    && v@.len() == es.len() && forall|i: int| 0 <= i < v@.len() ==> {
                    &&& (#[trigger] v@[i]).is_directory == is_dir_entry(es[i].short)
                    &&& v@[i].size == entry_file_size(es[i].short)
                    &&& allocated_as(data, bs, self.spec_bpb(), entry_cluster(es[i].short), v@[i].allocated_size)
                })
                &&& d matches Some(Err(_)) ==> r is Err
                &&& d is None ==> r is Err
            }),
    {
        let c = match self.dir_cluster(path) {
            Ok(c) => c,
            Err(e) => return Err(e),
        };
        let files = match self.get_all_filemeta_by_cluster(c) {
            Ok(f) => f,
            Err(e) => return Err(e),
        };
        let mut result: Vec<FileMetadata> = Vec::new();
        let mut i: usize = 0;
        while i < files.len()
            invariant
                i <= files@.len(),
                result@.len() == i,
                forall|k: int| 0 <= k < i ==> #[trigger] result@[k].name@ == crate::fs::dirent::entry_name(
                    files@[k].short@,
                    rows(files@[k].long@),
                ),
                self.wf(),
                forall|k: int| 0 <= k < i ==> {
                    &&& (#[trigger] result@[k]).is_directory == is_dir_entry(files@[k].short@)
                    &&& result@[k].size == entry_file_size(files@[k].short@)
                    &&& allocated_as(
                        self.spec_device().spec_data(),
                        self.spec_device().spec_block_size() as int,
                        self.spec_bpb(),
                        entry_cluster(files@[k].short@),
                        result@[k].allocated_size,
                    )
                },
                forall|k: int| 0 <= k < files@.len() ==> #[trigger] files@[k].ok(),
            decreases files@.len() - i,
        {
            let m = match self.get_fs_metadata(&files[i]) {
                Ok(m) => m,
                Err(e) => return Err(e),
            };
            result.push(m);
            i = i + 1;
        }
        Ok(result)
    }

    fn unmount(&self) -> (r: Result<(), FileSystemError>)
        ensures
            r is Ok,
    {
        Ok(())
    }
}

impl<D: BlockDevice> FileHandle<Fat32FileSystem<D>> for Fat32FileHandle<D> {
    /// Closes the file: the start cluster that opening it occupied is
    /// released, so that it can be opened again.
    fn close(&mut self, fs: &mut Fat32FileSystem<D>) -> (r: Result<(), FileSystemError>)
        ensures
            old(self).spec_closed() ==> r == Err::<(), FileSystemError>(FileSystemError::FileClosed) && *final(fs)
                == *old(fs),
            !old(self).spec_closed() ==> r is Ok && final(self).spec_closed() && final(fs).spec_occupied().to_set()
                == old(fs).spec_occupied().to_set().remove(entry_cluster(old(self).spec_metadata().short)),
            final(self).spec_metadata() == old(self).spec_metadata(),
            final(self).spec_pointer() == old(self).spec_pointer(),
            final(fs).spec_device() == old(fs).spec_device(),
    {
        proof {
            use_type_invariant(&*self);
        }
        if self.closed {
            return Err(FileSystemError::FileClosed);
        }
        fs.release(self.metadata.start_cluster());
        self.closed = true;
        Ok(())
    }

    fn move_pointer(&mut self, position: u64) -> (r: Result<(), FileSystemError>)
        ensures
            old(self).spec_closed() ==> r == Err::<(), FileSystemError>(FileSystemError::FileClosed) && *final(self)
                == *old(self),
            !old(self).spec_closed() ==> r is Ok && final(self).spec_pointer() == position,
            final(self).spec_metadata() == old(self).spec_metadata(),
            final(self).spec_closed() == old(self).spec_closed(),
    {
        proof {
            use_type_invariant(&*self);
        }
        if self.closed {
            return Err(FileSystemError::FileClosed);
        }
        self.pointer = position;
        Ok(())
    }

    fn get_pointer(&mut self) -> (r: Result<u64, FileSystemError>)
        ensures
            *final(self) == *old(self),
            old(self).spec_closed() ==> r == Err::<u64, FileSystemError>(FileSystemError::FileClosed),
            !old(self).spec_closed() ==> r == Ok::<u64, FileSystemError>(old(self).spec_pointer()),
    {
        if self.closed {
            return Err(FileSystemError::FileClosed);
        }
        Ok(self.pointer)
    }

    fn read(&mut self, fs: &Fat32FileSystem<D>, buf: &mut Vec<u8>) -> (r: Result<u64, FileSystemError>)
        ensures
            final(buf)@.len() == old(buf)@.len(),
            final(self).spec_metadata() == old(self).spec_metadata(),
            final(self).spec_closed() == old(self).spec_closed(),
            old(self).spec_closed() ==> r == Err::<u64, FileSystemError>(FileSystemError::FileClosed)
                && *final(self) == *old(self) && final(buf)@ == old(buf)@,
            !old(self).spec_closed() && old(self).spec_pointer() >= old(self).spec_file_size() ==> r == Ok::<
                u64,
                FileSystemError,
            >(0) && *final(self) == *old(self) && final(buf)@ == old(buf)@,
            old(self).spec_pointer() < old(self).spec_file_size() ==> old(self).spec_pointer()
                <= final(self).spec_pointer() <= final(self).spec_file_size(),
            r matches Ok(n) ==> n == (if old(self).spec_pointer() >= old(self).spec_file_size() {
                0
            } else if old(buf)@.len() <= old(self).spec_file_size() - old(self).spec_pointer() {
                old(buf)@.len() as int
            } else {
                old(self).spec_file_size() - old(self).spec_pointer()
            }),
            r matches Ok(n) ==> old(self).spec_pointer() <= final(self).spec_pointer() <= old(self).spec_pointer()
                + n,
            r is Ok ==> read_into(
                fs.spec_device().spec_data(),
                fs.spec_device().spec_block_size() as int,
                fs.spec_bpb(),
                entry_cluster(old(self).spec_metadata().short),
                old(self).spec_pointer() as int,
                final(buf)@,
                final(self).spec_pointer() - old(self).spec_pointer(),
            ),
            r is Ok ==> unread_kept(old(buf)@, final(buf)@, final(self).spec_pointer() - old(self).spec_pointer()),
            r matches Ok(n) && final(self).spec_pointer() < old(self).spec_pointer() + n ==> chain_byte(
                fs.spec_device().spec_data(),
                fs.spec_device().spec_block_size() as int,
                fs.spec_bpb(),
                entry_cluster(old(self).spec_metadata().short),
                final(self).spec_pointer() as int,
            ) is None,
            r matches Err(e) ==> e is IoError || e is FileClosed,
            r matches Err(e) ==> (e is FileClosed <==> old(self).spec_closed()),
            !old(self).spec_closed() && old(buf)@.len() == 0 ==> r == Ok::<u64, FileSystemError>(0) && *final(self)
                == *old(self),
    {
        proof {
            fs.lemma_wf_facts();
            use_type_invariant(&*self);
        }
        if self.closed {
            return Err(FileSystemError::FileClosed);
        }
        let file_size = crate::bytes::read_u32_le_checked(&self.metadata.short, 28) as u64;
        if self.pointer >= file_size {
            return Ok(0);
        }
        let ghost data = fs.spec_device().spec_data();
        let ghost bsz = fs.spec_device().spec_block_size() as int;
        let ghost bpb = fs.spec_bpb();
        let ghost b0 = buf@;
        let avail = file_size - self.pointer;
        let blen = buf.len();
        let read_length: u64 = if (blen as u64) <= avail {
            blen as u64
        } else {
            avail
        };
        let bps = fs.bpb().bytes_per_sector as u64;
        let spc = fs.bpb().sectors_per_cluster as u64;
        proof {
            assert(bps * spc <= 0xFFFFu64 * 0xFF) by (nonlinear_arith)
                requires
                    bps <= 0xFFFF,
                    spc <= 0xFF,
            ;
            assert(bps * spc > 0) by (nonlinear_arith)
                requires
                    bps >= 512,
                    spc >= 1,
            ;
        }
        let bpc = bps * spc;
        let mut assign: u64 = 0;
        let mut offset: u64 = 0;
        let mut remain: u64 = read_length;
        let mut cluster = self.metadata.start_cluster();
        let ghost start = cluster;
        let mut fuel: u64 = DIR_CHAIN_LIMIT;
        let ghost p0 = self.pointer;
        while cluster != FAT_ENTRY_FREE && cluster < crate::fs::fat32::FAT_ENTRY_EOC_START && remain > 0
            invariant
                fs.wf(),
                self.metadata == old(self).metadata,
                self.metadata.ok(),
                self.closed == old(self).closed,
                !old(self).closed,
                file_size == entry_file_size(self.metadata.short@),
                p0 == old(self).pointer,
                p0 <= self.pointer,
                self.pointer + remain <= file_size,
                assign + remain == read_length,
                self.pointer == p0 + assign,
                read_length <= buf@.len(),
                buf@.len() == old(buf)@.len(),
                buf@.len() <= usize::MAX,
                bps == fs.spec_bpb().bytes_per_sector,
                spc == fs.spec_bpb().sectors_per_cluster,
                512 <= bps <= fs.spec_device().spec_block_size(),
                bps <= 0xFFFF,
                1 <= spc <= 0xFF,
                bpc == bps * spc,
                bpc > 0,
                bpc <= 0xFFFFu64 * 0xFF,
                file_size <= 0xFFFF_FFFF,
                fuel <= DIR_CHAIN_LIMIT,
                offset <= (DIR_CHAIN_LIMIT - fuel) * bpc,
                data == fs.spec_device().spec_data(),
                bsz == fs.spec_device().spec_block_size(),
                bpb == fs.spec_bpb(),
                start == entry_cluster(old(self).metadata.short@),
                b0 == old(buf)@,
                remain > 0 ==> offset <= self.pointer,
                remain > 0 ==> forall|q: int|
                    q >= offset ==> #[trigger] chain_byte(data, bsz, bpb, start, q) == chain_byte(
                        data,
                        bsz,
                        bpb,
                        cluster,
                        q - offset,
                    ),
                read_into(data, bsz, bpb, start, p0 as int, buf@, assign as int),
                forall|k: int| assign <= k < buf@.len() ==> #[trigger] buf@[k] == b0[k],
            decreases fuel,
        {
            if fuel == 0 {
                return Err(corrupt_chain());
            }
            proof {
                assert(offset + bpc <= (DIR_CHAIN_LIMIT - (fuel - 1)) * bpc) by (nonlinear_arith)
                    requires
                        offset <= (DIR_CHAIN_LIMIT - fuel) * bpc,
                        fuel >= 1,
                ;
                assert((DIR_CHAIN_LIMIT - (fuel - 1)) * bpc <= DIR_CHAIN_LIMIT * (0xFFFFu64 * 0xFF)) by (nonlinear_arith)
                    requires
                        fuel >= 1,
                        fuel <= DIR_CHAIN_LIMIT,
                        bpc <= 0xFFFFu64 * 0xFF,
                ;
            }
            fuel = fuel - 1;
            if offset + bpc <= self.pointer {
                let ghost c0 = cluster;
                let ghost o0 = offset;
                offset = offset + bpc;
                cluster = match fs.get_next_cluster(cluster) {
                    Ok(n) => n,
                    Err(e) => return Err(e),
                };
                proof {
                    assert forall|q: int| q >= offset implies #[trigger] chain_byte(data, bsz, bpb, start, q)
                        == chain_byte(data, bsz, bpb, cluster, q - offset) by {
                        assert(chain_byte(data, bsz, bpb, start, q) == chain_byte(data, bsz, bpb, c0, q - o0));
                        lemma_chain_byte_next(data, bsz, bpb, c0, q - o0);
                    }
                }
                continue;
            }
            if cluster < 2 {
                return Err(corrupt_chain());
            }
            let first = fs.get_sector_by_cluster(cluster);
            proof {
                assert((cluster - 2) * spc <= 0xFFFF_FFFFu64 * 0xFF) by (nonlinear_arith)
                    requires
                        0 <= cluster - 2 <= 0xFFFF_FFFF,
                        0 <= spc <= 0xFF,
                ;
            }
            let mut i: u64 = 0;
            while i < spc && remain > 0
                invariant
                    fs.wf(),
                    self.metadata == old(self).metadata,
                    self.metadata.ok(),
                    self.closed == old(self).closed,
                    !old(self).closed,
                    file_size == entry_file_size(self.metadata.short@),
                    p0 == old(self).pointer,
                    p0 <= self.pointer,
                    self.pointer + remain <= file_size,
                    assign + remain == read_length,
                    self.pointer == p0 + assign,
                    read_length <= buf@.len(),
                    buf@.len() == old(buf)@.len(),
                    buf@.len() <= usize::MAX,
                    bps == fs.spec_bpb().bytes_per_sector,
                    spc == fs.spec_bpb().sectors_per_cluster,
                    512 <= bps <= fs.spec_device().spec_block_size(),
                    bps <= 0xFFFF,
                    1 <= spc <= 0xFF,
                    i <= spc,
                    bpc == bps * spc,
                    file_size <= 0xFFFF_FFFF,
                    offset + bpc <= DIR_CHAIN_LIMIT * (0xFFFFu64 * 0xFF),
                    first + spc <= 0x1_0000_0000_0000,
                    data == fs.spec_device().spec_data(),
                    bsz == fs.spec_device().spec_block_size(),
                    bpb == fs.spec_bpb(),
                    start == entry_cluster(old(self).metadata.short@),
                    b0 == old(buf)@,
                    2 <= cluster < FAT_ENTRY_EOC_START,
                    first == spec_cluster_sector(bpb, cluster),
                    offset <= self.pointer,
                    remain > 0 ==> offset + i * bps <= self.pointer,
                    forall|q: int|
                        q >= offset ==> #[trigger] chain_byte(data, bsz, bpb, start, q) == chain_byte(
                            data,
                            bsz,
                            bpb,
                            cluster,
                            q - offset,
                        ),
                    read_into(data, bsz, bpb, start, p0 as int, buf@, assign as int),
                    forall|k: int| assign <= k < buf@.len() ==> #[trigger] buf@[k] == b0[k],
                decreases spc - i,
            {
                proof {
                    assert(i * bps <= bpc) by (nonlinear_arith)
                        requires
                            i <= spc,
                            bpc == bps * spc,
                            bps >= 0,
                    ;
                    assert((i + 1) * bps == i * bps + bps) by (nonlinear_arith);
                }
                let sector_start = offset + i * bps;
                if sector_start + bps > self.pointer && sector_start <= self.pointer {
                    let block = match fs.device().read_block(first + i) {
                        Ok(b) => b,
                        Err(e) => return Err(FileSystemError::IoError(e)),
                    };
                    let copy_start = self.pointer - sector_start;
                    let copy_length = if bps - copy_start <= remain {
                        bps - copy_start
                    } else {
                        remain
                    };
                    let ghost bb = buf@;
                    let mut k: u64 = 0;
                    while k < copy_length
                        invariant
                            k <= copy_length,
                            copy_start + copy_length <= bps,
                            bps <= block@.len(),
                            assign + copy_length <= buf@.len(),
                            buf@.len() == old(buf)@.len(),
                            buf@.len() <= usize::MAX,
                            bb.len() == buf@.len(),
                            forall|j: int| 0 <= j < assign ==> #[trigger] buf@[j] == bb[j],
                            forall|j: int| assign + k <= j < buf@.len() ==> #[trigger] buf@[j] == bb[j],
                            forall|j: int| 0 <= j < k ==> #[trigger] buf@[assign + j] == block@[copy_start + j],
                        decreases copy_length - k,
                    {
                        buf.set((assign + k) as usize, block[(copy_start + k) as usize]);
                        k = k + 1;
                    }
                    proof {
                        assert forall|j: int| 0 <= j < assign + copy_length implies chain_byte(
                            data,
                            bsz,
                            bpb,
                            start,
                            p0 + j,
                        ) == Some(#[trigger] buf@[j]) by {
                            if j < assign {
                                assert(buf@[j] == bb[j]);
                            } else {
                                let x = copy_start + (j - assign);
                                assert(buf@[assign + (j - assign)] == block@[x]);
                                assert(chain_byte(data, bsz, bpb, start, p0 + j) == chain_byte(
                                    data,
                                    bsz,
                                    bpb,
                                    cluster,
                                    p0 + j - offset,
                                ));
                                assert(p0 + j - offset == i * bps + x);
                                lemma_sector_byte(data, bsz, bpb, cluster, i as int, x);
                            }
                        }
                        assert forall|j: int| assign + copy_length <= j < buf@.len() implies #[trigger] buf@[j]
                            == b0[j] by {
                            assert(buf@[j] == bb[j]);
                        }
                    }
                    assign = assign + copy_length;
                    self.pointer = self.pointer + copy_length;
                    remain = remain - copy_length;
                }
                i = i + 1;
            }
            proof {
                if remain > 0 {
                    assert(spc * bps == bpc) by (nonlinear_arith)
                        requires
                            bpc == bps * spc,
                    ;
                }
            }
            let ghost c0 = cluster;
            let ghost o0 = offset;
            offset = offset + bpc;
            if remain > 0 {
                cluster = match fs.get_next_cluster(cluster) {
                    Ok(n) => n,
                    Err(e) => return Err(e),
                };
                proof {
                    assert forall|q: int| q >= offset implies #[trigger] chain_byte(data, bsz, bpb, start, q)
                        == chain_byte(data, bsz, bpb, cluster, q - offset) by {
                        assert(chain_byte(data, bsz, bpb, start, q) == chain_byte(data, bsz, bpb, c0, q - o0));
                        lemma_chain_byte_next(data, bsz, bpb, c0, q - o0);
                    }
                }
            }
        }
        proof {
            if remain > 0 {
                assert(chain_byte(data, bsz, bpb, start, self.pointer as int) == chain_byte(
                    data,
                    bsz,
                    bpb,
                    cluster,
                    self.pointer - offset,
                ));
            }
        }
        Ok(read_length)
    }

    fn write(&mut self, fs: &mut Fat32FileSystem<D>, buf: &[u8]) -> (r: Result<(), FileSystemError>)
        ensures
            r == Err::<(), FileSystemError>(FileSystemError::OperationNotSupport),
            *final(fs) == *old(fs),
            *final(self) == *old(self),
    {
        Err(FileSystemError::OperationNotSupport)
    }
}

} // verus!
