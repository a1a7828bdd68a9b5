use vstd::prelude::*;

use crate::bytes::{le16_at, read_u16_le};
use crate::fs::device::{block_of, BlockDevice, BlockDeviceError};
use crate::fs::dirent::{
    all_long_arrays, entry_attr, entry_is_free, entry_slice, long_array_of, long_arrays, long_name_matches,
    long_unit_offset, match_arrays, match_prefix, match_with_array_u16, match_with_array_u8,
    short_name_matches, ATTR_LONG_NAME, ATTR_DIRECTORY, entry_cluster, encode_utf16, encode_utf16_str,
    append_str, build_long_entries, build_short_entry, collect_long_units, entry_file_size, entry_name,
    long_entries, short_entry_bytes, trim_ascii_vec, utf16_lossy_to_string, utf8_lossy_to_string,
};
use crate::fs::fat32::{
    spec_cluster_sector, Bpb, Fat32FileSystem, FAT_ENTRY_FREE, FAT_ENTRY_RESERVED_START,
};
use crate::fs::{FileMetadata, FileSystemError};
use crate::fs::path::Path;
use vstd::utf8::encode_utf8;
use vstd::string::StringSliceAdditionalSpecFns;

verus! {

/// Most clusters a directory chain is followed through; a longer chain
/// loops.
pub const DIR_CHAIN_LIMIT: u64 = 0x0FFFFFF0;

/// The bytes of each row.
pub open spec fn rows(v: Seq<Vec<u8>>) -> Seq<Seq<u8>> {
    v.map_values(|r: Vec<u8>| r@)
}

/// A directory entry as the walk finds it: its short entry, the long name
/// entries before it, where the first of those lies and where the short
/// entry lies (cluster, sector, index in the sector).
pub struct Fat32FileMetadata {
    pub short: Vec<u8>,
    pub long: Vec<Vec<u8>>,
    pub start_cluster: u32,
    pub start_sector: u64,
    pub start_sector_offset: u32,
    pub short_cluster: u32,
    pub short_sector: u64,
    pub short_sector_offset: u32,
}

/// A directory entry in the walk's terms.
pub struct EntryView {
    pub short: Seq<u8>,
    pub long: Seq<Seq<u8>>,
    pub start: (u32, u64, u32),
    pub pos: (u32, u64, u32),
}

impl Fat32FileMetadata {
    /// Every entry held is 32 bytes.
    pub open spec fn ok(&self) -> bool {
        &&& self.short@.len() == 32
        &&& forall|i: int| 0 <= i < self.long@.len() ==> #[trigger] self.long@[i]@.len() == 32
    }

    pub open spec fn view(&self) -> EntryView {
        EntryView {
            short: self.short@,
            long: rows(self.long@),
            start: (self.start_cluster, self.start_sector, self.start_sector_offset),
            pos: (self.short_cluster, self.short_sector, self.short_sector_offset),
        }
    }
}

/// The views of a list of entries.
pub open spec fn views(v: Seq<Fat32FileMetadata>) -> Seq<EntryView> {
    v.map_values(|m: Fat32FileMetadata| m.view())
}

/// The state of a directory walk: the entries kept so far, the long name
/// entries waiting for their short entry, where the first of those lies,
/// and whether the walk has stopped at its target.
pub struct WalkState {
    pub found: Seq<EntryView>,
    pub pending: Seq<Seq<u8>>,
    pub start: (u32, u64, u32),
    pub stopped: bool,
}

/// The state a walk starts in.
pub open spec fn walk_init() -> WalkState {
    WalkState { found: Seq::empty(), pending: Seq::empty(), start: (0, 0, 0), stopped: false }
}

/// `e` inserted into `s` after the entries whose order byte is not above its own.
pub open spec fn insert_by_order(s: Seq<Seq<u8>>, e: Seq<u8>) -> Seq<Seq<u8>>
    decreases s.len(),
{
    if s.len() == 0 {
        seq![e]
    } else if s.last()[0] <= e[0] {
        s.push(e)
    } else {
        insert_by_order(s.drop_last(), e).push(s.last())
    }
}

/// Long name entries sorted by their order byte, equal ones kept in place.
pub open spec fn sort_by_order(s: Seq<Seq<u8>>) -> Seq<Seq<u8>>
    decreases s.len(),
{
    if s.len() == 0 {
        s
    } else {
        insert_by_order(sort_by_order(s.drop_last()), s.last())
    }
}

/// An entry is named `name` (its bytes and its UTF-16 units): by its long
/// name entries, sorted, when it has some, else by its short entry.
pub open spec fn entry_named(short: Seq<u8>, long: Seq<Seq<u8>>, name: (Seq<u8>, Seq<u16>)) -> bool {
    if long.len() == 0 {
        short_name_matches(short, name.0)
    } else {
        long_name_matches(sort_by_order(long), name.1)
    }
}

/// One directory slot taken into the walk. Long name entries wait; an unused
/// slot drops them; a short entry closes an entry. Without a target every
/// entry is kept; with one, the walk keeps the first entry of that name, its
/// long entries sorted, and stops.
pub open spec fn walk_step(
    st: WalkState,
    e: Seq<u8>,
    at: (u32, u64, u32),
    target: Option<(Seq<u8>, Seq<u16>)>,
) -> WalkState {
    if st.stopped {
        st
    } else if entry_attr(e) == ATTR_LONG_NAME {
        WalkState {
            pending: st.pending.push(e),
            start: if st.pending.len() == 0 {
                at
            } else {
                st.start
            },
            ..st
        }
    } else if entry_is_free(e) {
        WalkState { pending: Seq::empty(), ..st }
    } else {
        match target {
            None => WalkState {
                found: st.found.push(EntryView { short: e, long: st.pending, start: st.start, pos: at }),
                pending: Seq::empty(),
                ..st
            },
            Some(name) => if entry_named(e, st.pending, name) {
                WalkState {
                    found: seq![
                        EntryView {
                            short: e,
                            long: sort_by_order(st.pending),
                            start: st.start,
                            pos: at,
                        },
                    ],
                    pending: Seq::empty(),
                    stopped: true,
                    ..st
                }
            } else {
                WalkState { pending: Seq::empty(), ..st }
            },
        }
    }
}

/// Entries per sector.
pub open spec fn entries_per_sector(bpb: Bpb) -> int {
    (bpb.bytes_per_sector as int) / 32
}

/// Slot `k` of cluster `c`: sector `k / per`, index `k % per`.
pub open spec fn slot_bytes(data: Seq<u8>, bs: int, bpb: Bpb, c: u32, k: int) -> Seq<u8> {
    let per = entries_per_sector(bpb);
    let sector = spec_cluster_sector(bpb, c) + k / per;
    block_of(data, bs, sector).subrange((k % per) * 32, (k % per) * 32 + 32)
}

/// Where slot `k` of cluster `c` lies.
pub open spec fn slot_pos(bpb: Bpb, c: u32, k: int) -> (u32, u64, u32) {
    let per = entries_per_sector(bpb);
    (c, (spec_cluster_sector(bpb, c) + k / per) as u64, (k % per) as u32)
}

/// The walk through the first `n` slots of cluster `c`.
pub open spec fn walk_slots(
    data: Seq<u8>,
    bs: int,
    bpb: Bpb,
    c: u32,
    n: nat,
    st: WalkState,
    target: Option<(Seq<u8>, Seq<u16>)>,
) -> WalkState
    decreases n,
{
    if n == 0 {
        st
    } else {
        walk_step(
            walk_slots(data, bs, bpb, c, (n - 1) as nat, st, target),
            slot_bytes(data, bs, bpb, c, n - 1),
            slot_pos(bpb, c, n - 1),
            target,
        )
    }
}

/// The walk through a directory chain from cluster `c`, following the FAT,
/// for at most `fuel` clusters. It ends at a free or reserved FAT value, or
/// where the target is found; `None` when the chain runs through cluster 1
/// or longer than the fuel.
pub open spec fn walk_chain(
    data: Seq<u8>,
    bs: int,
    bpb: Bpb,
    c: u32,
    fuel: nat,
    st: WalkState,
    target: Option<(Seq<u8>, Seq<u16>)>,
) -> Option<WalkState>
    decreases fuel,
{
    if c == FAT_ENTRY_FREE || c >= FAT_ENTRY_RESERVED_START {
        Some(st)
    } else if c < 2 || fuel == 0 {
        None
    } else {
        let per = entries_per_sector(bpb);
        let st2 = walk_slots(
            data,
            bs,
            bpb,
            c,
            (bpb.sectors_per_cluster * per) as nat,
            st,
            target,
        );
        if st2.stopped {
            Some(st2)
        } else {
            walk_chain(
                data,
                bs,
                bpb,
                crate::fs::fat32::spec_fat_entry(data, bs, bpb, c),
                (fuel - 1) as nat,
                st2,
                target,
            )
        }
    }
}

/// `e` inserted into `v` after the entries whose order byte is not above its own.
fn insert_by_order_vec(v: Vec<Vec<u8>>, e: Vec<u8>) -> (r: Vec<Vec<u8>>)
    requires
        e@.len() == 32,
        forall|i: int| 0 <= i < v@.len() ==> #[trigger] v@[i]@.len() == 32,
    ensures
        rows(r@) == insert_by_order(rows(v@), e@),
        forall|i: int| 0 <= i < r@.len() ==> #[trigger] r@[i]@.len() == 32,
    decreases v@.len(),
{
    let mut v = v;
    let n = v.len();
    if n == 0 {
        v.push(e);
        proof {
            assert(rows(v@) =~= seq![e@]);
        }
        return v;
    }
    let last_order = v[n - 1][0];
    if last_order <= e[0] {
        let ghost v0 = v@;
        v.push(e);
        proof {
            assert(rows(v@) =~= rows(v0).push(e@));
        }
        v
    } else {
        let ghost v0 = v@;
        let last = v.pop().unwrap();
        proof {
            assert(rows(v@) =~= rows(v0).drop_last());
            assert(rows(v0).last() == last@);
        }
        let mut r = insert_by_order_vec(v, e);
        let ghost r0 = r@;
        r.push(last);
        proof {
            assert(rows(r@) =~= rows(r0).push(last@));
        }
        r
    }
}

/// Long name entries sorted by their order byte, equal ones kept in place.
fn sort_by_order_vec(v: Vec<Vec<u8>>) -> (r: Vec<Vec<u8>>)
    requires
        forall|i: int| 0 <= i < v@.len() ==> #[trigger] v@[i]@.len() == 32,
    ensures
        rows(r@) == sort_by_order(rows(v@)),
        forall|i: int| 0 <= i < r@.len() ==> #[trigger] r@[i]@.len() == 32,
    decreases v@.len(),
{
    let mut v = v;
    if v.len() == 0 {
        return v;
    }
    let ghost v0 = v@;
    let last = v.pop().unwrap();
    proof {
        assert(rows(v@) =~= rows(v0).drop_last());
        assert(rows(v0).last() == last@);
        assert(v0[v0.len() - 1]@.len() == 32);
    }
    let sorted = sort_by_order_vec(v);
    insert_by_order_vec(sorted, last)
}

/// Long name entries, in the order given, spell `units`.
pub fn name_match_long(es: &Vec<Vec<u8>>, units: &[u16]) -> (r: bool)
    requires
        forall|i: int| 0 <= i < es@.len() ==> #[trigger] es@[i]@.len() == 32,
    ensures
        r == long_name_matches(rows(es@), units@),
{
    let mut pos: usize = 0;
    let mut k: usize = 0;
    let _n = units.len();
    proof {
        assert(units@.skip(0) =~= units@);
        assert(rows(es@).skip(0) =~= rows(es@));
    }
    while k < es.len()
        invariant
            k <= es@.len(),
            pos <= units@.len(),
            units@.len() <= usize::MAX,
            forall|i: int| 0 <= i < es@.len() ==> #[trigger] es@[i]@.len() == 32,
            long_name_matches(rows(es@), units@) == match_arrays(
                units@.skip(pos as int),
                all_long_arrays(rows(es@).skip(k as int)),
            ),
        decreases es@.len() - k,
    {
        let ghost rest = rows(es@).skip(k as int);
        proof {
            assert(rest.drop_first() =~= rows(es@).skip(k + 1));
            assert(rest[0] == es@[k as int]@);
        }
        let ghost arrays = all_long_arrays(rest);
        let ghost tail = all_long_arrays(rest.drop_first());
        proof {
            assert(arrays == long_arrays(rest[0]) + tail);
            assert(arrays.drop_first() =~= seq![long_arrays(rest[0])[1], long_arrays(rest[0])[2]] + tail);
            assert(arrays.drop_first().drop_first() =~= seq![long_arrays(rest[0])[2]] + tail);
            assert(arrays.drop_first().drop_first().drop_first() =~= tail);
        }
        let mut which: usize = 0;
        proof {
            assert(arrays.skip(0) =~= arrays);
            assert(long_arrays(rest[0]).skip(0) =~= long_arrays(rest[0]));
        }
        while which < 3
            invariant
                which <= 3,
                k < es@.len(),
                pos <= units@.len(),
                units@.len() <= usize::MAX,
                es@[k as int]@.len() == 32,
                rest == rows(es@).skip(k as int),
                rest[0] == es@[k as int]@,
                arrays == all_long_arrays(rest),
                tail == all_long_arrays(rest.drop_first()),
                arrays.skip(which as int) =~= long_arrays(rest[0]).skip(which as int) + tail,
                long_name_matches(rows(es@), units@) == match_arrays(
                    units@.skip(pos as int),
                    arrays.skip(which as int),
                ),
            decreases 3 - which,
        {
            let a = long_array_of(&es[k], which);
            let ghost sk = arrays.skip(which as int);
            proof {
                assert(sk[0] == a@);
                assert(sk.drop_first() =~= arrays.skip(which + 1));
                assert(units@.skip(pos as int).len() == units@.len() - pos);
            }
            match match_with_array_u16(units, pos, a.as_slice()) {
                Some(p) => {
                    proof {
                        let mp = match_prefix(units@.skip(pos as int), a@, 0u16);
                        assert(mp is Some);
                        let k2 = mp->0 as int;
                        assert(k2 <= units@.skip(pos as int).len());
                        assert(pos + k2 <= units@.len());
                        assert(units@.len() <= usize::MAX);
                        assert(p == pos + k2);
                        assert(units@.skip(pos as int).skip(k2) =~= units@.skip(p as int));
                    }
                    pos = p;
                },
                None => {
                    return false;
                },
            }
            which = which + 1;
            proof {
                assert(arrays.skip(which as int) =~= long_arrays(rest[0]).skip(which as int) + tail);
            }
        }
        proof {
            assert(long_arrays(rest[0]).skip(3) =~= Seq::<Seq<u16>>::empty());
            assert(arrays.skip(3) =~= tail);
        }
        k = k + 1;
    }
    proof {
        assert(rows(es@).skip(k as int) =~= Seq::<Seq<u8>>::empty());
        assert(all_long_arrays(Seq::<Seq<u8>>::empty()) =~= Seq::<Seq<u16>>::empty());
    }
    pos == units.len()
}

/// A name matches a short entry: see [`short_name_matches`].
pub fn name_match_short(e: &Vec<u8>, name: &[u8]) -> (r: bool)
    requires
        e@.len() == 32,
    ensures
        r == short_name_matches(e@, name@),
{
    let base = entry_slice(e, 0, 8);
    proof {
        assert(name@.skip(0) =~= name@);
    }
    let k = match match_with_array_u8(name, 0, base.as_slice()) {
        Some(k) => k,
        None => return false,
    };
    proof {
        assert(name@.skip(0) =~= name@);
    }
    let name_has_dot = k < name.len() && name[k] == 0x2e;
    let next = if k < name.len() {
        k + 1
    } else {
        k
    };
    let entry_has_ext = e[8] != 0;
    proof {
        let rest = name@.skip(k as int);
        if rest.len() > 0 {
            assert(rest.skip(1) =~= name@.skip(next as int));
            assert(rest[0] == name@[k as int]);
        } else {
            assert(rest =~= name@.skip(next as int));
        }
    }
    if name_has_dot != entry_has_ext {
        return false;
    }
    if name_has_dot {
        let ext = entry_slice(e, 8, 11);
        match match_with_array_u8(name, next, ext.as_slice()) {
            Some(k2) => {
                proof {
                    assert(name@.skip(next as int).len() == name@.len() - next);
                }
                k2 == name.len()
            },
            None => false,
        }
    } else {
        next == name.len()
    }
}


proof fn lemma_insert_by_order_len(s: Seq<Seq<u8>>, e: Seq<u8>)
    ensures
        insert_by_order(s, e).len() == s.len() + 1,
    decreases s.len(),
{
    if s.len() > 0 && !(s.last()[0] <= e[0]) {
        lemma_insert_by_order_len(s.drop_last(), e);
    }
}

proof fn lemma_sort_by_order_len(s: Seq<Seq<u8>>)
    ensures
        sort_by_order(s).len() == s.len(),
    decreases s.len(),
{
    if s.len() > 0 {
        lemma_sort_by_order_len(s.drop_last());
        lemma_insert_by_order_len(sort_by_order(s.drop_last()), s.last());
    }
}

/// The target of a walk as the spec sees it: the name's bytes and UTF-16 units.
pub open spec fn target_view(t: Option<(&[u8], &[u16])>) -> Option<(Seq<u8>, Seq<u16>)> {
    match t {
        Some((b, u)) => Some((b@, u@)),
        None => None,
    }
}

/// The running state of a directory walk.
pub struct DirWalk {
    pub found: Vec<Fat32FileMetadata>,
    pub pending: Vec<Vec<u8>>,
    pub start: (u32, u64, u32),
    pub stopped: bool,
}

impl DirWalk {
    pub open spec fn view(&self) -> WalkState {
        WalkState {
            found: views(self.found@),
            pending: rows(self.pending@),
            start: self.start,
            stopped: self.stopped,
        }
    }

    /// Every entry held is 32 bytes.
    pub open spec fn inv(&self) -> bool {
        &&& forall|i: int| 0 <= i < self.pending@.len() ==> #[trigger] self.pending@[i]@.len() == 32
        &&& forall|i: int| 0 <= i < self.found@.len() ==> #[trigger] self.found@[i].ok()
    }

    pub fn new() -> (w: DirWalk)
        ensures
            w.view() == walk_init(),
            w.inv(),
    {
        let w = DirWalk { found: Vec::new(), pending: Vec::new(), start: (0, 0, 0), stopped: false };
        proof {
            assert(w.view().found =~= Seq::<EntryView>::empty());
            assert(w.view().pending =~= Seq::<Seq<u8>>::empty());
        }
        w
    }

    /// Takes one directory slot into the walk: see [`walk_step`].
    pub fn step(&mut self, e: Vec<u8>, at: (u32, u64, u32), target: Option<(&[u8], &[u16])>)
        requires
            e@.len() == 32,
            old(self).inv(),
        ensures
            final(self).view() == walk_step(old(self).view(), e@, at, target_view(target)),
            final(self).inv(),
    {
        if self.stopped {
            return;
        }
        if e[11] == ATTR_LONG_NAME {
            if self.pending.len() == 0 {
                self.start = at;
            }
            let ghost p0 = self.pending@;
            self.pending.push(e);
            proof {
                assert(rows(self.pending@) =~= rows(p0).push(e@));
            }
            return;
        }
        if e[0] == 0 || e[0] == 0xE5 {
            self.pending = Vec::new();
            proof {
                assert(rows(self.pending@) =~= Seq::<Seq<u8>>::empty());
            }
            return;
        }
        let mut pending: Vec<Vec<u8>> = Vec::new();
        std::mem::swap(&mut pending, &mut self.pending);
        proof {
            assert(rows(self.pending@) =~= Seq::<Seq<u8>>::empty());
        }
        match target {
            None => {
                let m = Fat32FileMetadata {
                    short: e,
                    long: pending,
                    start_cluster: self.start.0,
                    start_sector: self.start.1,
                    start_sector_offset: self.start.2,
                    short_cluster: at.0,
                    short_sector: at.1,
                    short_sector_offset: at.2,
                };
                let ghost f0 = self.found@;
                self.found.push(m);
                proof {
                    assert(views(self.found@) =~= views(f0).push(m.view()));
                }
            },
            Some((bytes, units)) => {
                let ghost unsorted = rows(pending@);
                let sorted = sort_by_order_vec(pending);
                proof {
                    lemma_sort_by_order_len(unsorted);
                }
                let named = if sorted.len() == 0 {
                    name_match_short(&e, bytes)
                } else {
                    name_match_long(&sorted, units)
                };
                if named {
                    let m = Fat32FileMetadata {
                        short: e,
                        long: sorted,
                        start_cluster: self.start.0,
                        start_sector: self.start.1,
                        start_sector_offset: self.start.2,
                        short_cluster: at.0,
                        short_sector: at.1,
                        short_sector_offset: at.2,
                    };
                    let mut found: Vec<Fat32FileMetadata> = Vec::new();
                    found.push(m);
                    self.found = found;
                    self.stopped = true;
                    proof {
                        assert(views(self.found@) =~= seq![m.view()]);
                    }
                }
            },
        }
    }
}

pub(crate) proof fn lemma_walk_slots_stopped(
    data: Seq<u8>,
    bs: int,
    bpb: Bpb,
    c: u32,
    k: nat,
    n: nat,
    st: WalkState,
    target: Option<(Seq<u8>, Seq<u16>)>,
)
    requires
        k <= n,
        walk_slots(data, bs, bpb, c, k, st, target).stopped,
    ensures
        walk_slots(data, bs, bpb, c, n, st, target) == walk_slots(data, bs, bpb, c, k, st, target),
    decreases n,
{
    if n > k {
        lemma_walk_slots_stopped(data, bs, bpb, c, k, (n - 1) as nat, st, target);
    }
}

/// The error of a directory chain that loops or runs through cluster 1.
pub fn corrupt_chain() -> (e: FileSystemError)
    ensures
        e == FileSystemError::IoError(BlockDeviceError::IoError),
{
    FileSystemError::IoError(BlockDeviceError::IoError)
}

impl<D: BlockDevice> Fat32FileSystem<D> {
    /// Takes the slots of cluster `c` into the walk, sector by sector; stops
    /// reading once the walk has stopped.
    fn walk_cluster(&self, c: u32, st: &mut DirWalk, target: Option<(&[u8], &[u16])>) -> (r: Result<(), FileSystemError>)
        requires
            self.wf(),
            2 <= c,
            old(st).inv(),
        ensures
            final(st).inv(),
            r is Ok ==> final(st).view() == walk_slots(
                self.spec_device().spec_data(),
                self.spec_device().spec_block_size() as int,
                self.spec_bpb(),
                c,
                (self.spec_bpb().sectors_per_cluster * entries_per_sector(self.spec_bpb())) as nat,
                old(st).view(),
                target_view(target),
            ),
            r matches Err(e) ==> e is IoError,
    {
        proof {
            self.lemma_wf_facts();
        }
        let bpb = self.bpb();
        let per: u64 = bpb.bytes_per_sector as u64 / 32;
        let spc: u64 = bpb.sectors_per_cluster as u64;
        let first = self.get_sector_by_cluster(c);
        let ghost data = self.spec_device().spec_data();
        let ghost bs = self.spec_device().spec_block_size() as int;
        let ghost st0 = st.view();
        let ghost t = target_view(target);
        let ghost total = (spc * per) as nat;
        if st.stopped {
            proof {
                lemma_walk_slots_stopped(data, bs, self.spec_bpb(), c, 0, total, st0, t);
            }
            return Ok(());
        }
        proof {
            assert((c - 2) * spc <= 0xFFFF_FFFFu64 * 0xFF) by (nonlinear_arith)
                requires
                    0 <= c - 2 <= 0xFFFF_FFFF,
                    0 <= spc <= 0xFF,
            ;
        }
        let mut i: u64 = 0;
        while i < spc
            invariant
                i <= spc,
                first + spc <= 0x1_0000_0000_0000,
                spc == self.spec_bpb().sectors_per_cluster,
                per == entries_per_sector(self.spec_bpb()),
                16 <= per <= 2048,
                first == spec_cluster_sector(self.spec_bpb(), c),
                data == self.spec_device().spec_data(),
                bs == self.spec_device().spec_block_size() as int,
                self.spec_bpb().bytes_per_sector <= bs,
                bs <= usize::MAX,
                st0 == old(st).view(),
                t == target_view(target),
                total == spc * per,
                st.inv(),
                !st.view().stopped,
                st.view() == walk_slots(data, bs, self.spec_bpb(), c, (i * per) as nat, st0, t),
            decreases spc - i,
        {
            proof {
                assert(i * per + per <= spc * per) by (nonlinear_arith)
                    requires
                        i < spc,
                        per >= 0,
                ;
            }
            let block = match self.device().read_block(first + i) {
                Ok(b) => b,
                Err(e) => return Err(FileSystemError::IoError(e)),
            };
            let mut j: u64 = 0;
            while j < per
                invariant
                    j <= per,
                    i < spc,
                    first + spc <= 0x1_0000_0000_0000,
                    spc == self.spec_bpb().sectors_per_cluster,
                    per == entries_per_sector(self.spec_bpb()),
                    16 <= per <= 2048,
                    first == spec_cluster_sector(self.spec_bpb(), c),
                    data == self.spec_device().spec_data(),
                    bs == self.spec_device().spec_block_size() as int,
                    self.spec_bpb().bytes_per_sector <= bs,
                    bs <= usize::MAX,
                    block@ == block_of(data, bs, first + i),
                    block@.len() == bs,
                    st0 == old(st).view(),
                    t == target_view(target),
                    total == spc * per,
                    st.inv(),
                    i * per + per <= spc * per,
                    st.view() == walk_slots(data, bs, self.spec_bpb(), c, (i * per + j) as nat, st0, t),
                decreases per - j,
            {
                if st.stopped {
                    proof {
                        lemma_walk_slots_stopped(data, bs, self.spec_bpb(), c, (i * per + j) as nat, total, st0, t);
                    }
                    return Ok(());
                }
                proof {
                    assert(j * 32 + 32 <= per * 32);
                    assert(per * 32 <= self.spec_bpb().bytes_per_sector);
                    let k = i * per + j;
                    assert(k / (per as int) == i && k % (per as int) == j) by (nonlinear_arith)
                        requires
                            k == i * per + j,
                            j < per,
                            per > 0,
                            i >= 0,
                    ;
                }
                let e = entry_slice(&block, (j * 32) as usize, (j * 32 + 32) as usize);
                let at = (c, first + i, j as u32);
                proof {
                    let k = (i * per + j) as int;
                    assert(e@ == slot_bytes(data, bs, self.spec_bpb(), c, k));
                    assert(at == slot_pos(self.spec_bpb(), c, k));
                }
                st.step(e, at, target);
                j = j + 1;
            }
            if st.stopped {
                proof {
                    lemma_walk_slots_stopped(data, bs, self.spec_bpb(), c, (i * per + per) as nat, total, st0, t);
                }
                return Ok(());
            }
            proof {
                assert((i + 1) * per == i * per + per) by (nonlinear_arith);
            }
            i = i + 1;
        }
        Ok(())
    }
}

impl<D: BlockDevice> Fat32FileSystem<D> {
    /// Walks the directory whose chain starts at `cluster`: every entry
    /// without a target, else the first entry of that name (or none).
    pub fn walk_dir(&self, cluster: u32, target: Option<(&[u8], &[u16])>) -> (r: Result<Vec<Fat32FileMetadata>, FileSystemError>)
        requires
            self.wf(),
        ensures
            ({
                let w = walk_chain(
                    self.spec_device().spec_data(),
                    self.spec_device().spec_block_size() as int,
                    self.spec_bpb(),
                    cluster,
                    DIR_CHAIN_LIMIT as nat,
                    walk_init(),
                    target_view(target),
                );
                &&& r matches Ok(v) ==> w matches Some(ws) && views(v@) == ws.found
                &&& w is None ==> r is Err
                &&& r matches Err(e) ==> e is IoError
            }),
            r matches Ok(v) ==> forall|i: int| 0 <= i < v@.len() ==> #[trigger] v@[i].ok(),
    {
        let ghost data = self.spec_device().spec_data();
        let ghost bs = self.spec_device().spec_block_size() as int;
        let ghost t = target_view(target);
        let mut st = DirWalk::new();
        let mut c = cluster;
        let mut fuel: u64 = DIR_CHAIN_LIMIT;
        while c != FAT_ENTRY_FREE && c < FAT_ENTRY_RESERVED_START
            invariant
                self.wf(),
                fuel <= DIR_CHAIN_LIMIT,
                data == self.spec_device().spec_data(),
                bs == self.spec_device().spec_block_size() as int,
                t == target_view(target),
                st.inv(),
                !st.view().stopped,
                walk_chain(data, bs, self.spec_bpb(), cluster, DIR_CHAIN_LIMIT as nat, walk_init(), t)
                    == walk_chain(data, bs, self.spec_bpb(), c, fuel as nat, st.view(), t),
            decreases fuel,
        {
            if c < 2 || fuel == 0 {
                return Err(corrupt_chain());
            }
            match self.walk_cluster(c, &mut st, target) {
                Ok(_) => {},
                Err(e) => return Err(e),
            }
            if st.stopped {
                return Ok(st.found);
            }
            c = match self.get_next_cluster(c) {
                Ok(n) => n,
                Err(e) => return Err(e),
            };
            fuel = fuel - 1;
        }
        Ok(st.found)
    }
}

/// What a search for `name` in the directory at `cluster` finds: `None` when
/// the chain is corrupt, else the entry, if there is one.
pub open spec fn find_in_dir(data: Seq<u8>, bs: int, bpb: Bpb, cluster: u32, name: Seq<char>) -> Option<Option<EntryView>> {
    match walk_chain(
        data,
        bs,
        bpb,
        cluster,
        DIR_CHAIN_LIMIT as nat,
        walk_init(),
        Some((encode_utf8(name), encode_utf16(name))),
    ) {
        None => None,
        Some(ws) => Some(
            if ws.found.len() > 0 {
                Some(ws.found[0])
            } else {
                None
            },
        ),
    }
}

/// The entries of the directory at `cluster`; `None` when its chain is corrupt.
pub open spec fn list_dir(data: Seq<u8>, bs: int, bpb: Bpb, cluster: u32) -> Option<Seq<EntryView>> {
    match walk_chain(data, bs, bpb, cluster, DIR_CHAIN_LIMIT as nat, walk_init(), None) {
        None => None,
        Some(ws) => Some(ws.found),
    }
}

/// An entry describes a directory.
pub open spec fn is_dir_entry(short: Seq<u8>) -> bool {
    entry_attr(short) & ATTR_DIRECTORY != 0
}

/// An entry describes a directory exactly when the directory bit (0x10) of
/// its attribute byte, byte 11, is set; every other bit of that byte is
/// irrelevant to it.
pub proof fn lemma_dir_entry_bit(short: Seq<u8>)
    requires
        short.len() == 32,
    ensures
        is_dir_entry(short) <==> (short[11] & 0x10u8) == 0x10u8,
        forall|other: u8| (other & 0x10u8) == (short[11] & 0x10u8) ==> (is_dir_entry(short) <==> is_dir_entry(
            short.update(11, other),
        )),
{
    let a = short[11];
    assert((a & 0x10u8 != 0) <==> (a & 0x10u8) == 0x10u8) by (bit_vector);
    assert forall|other: u8| (other & 0x10u8) == (short[11] & 0x10u8) implies (is_dir_entry(short) <==> is_dir_entry(
        short.update(11, other),
    )) by {
        assert(short.update(11, other)[11] == other);
    }
}

/// Looks the segments up one after another from the directory at
/// `cluster`, `cur` being the entry reached so far (none at the root):
/// `None` when a chain is corrupt; `FileNotFound` when a segment is missing
/// or something before it is no directory.
pub open spec fn lookup_path(
    data: Seq<u8>,
    bs: int,
    bpb: Bpb,
    cluster: u32,
    segs: Seq<Seq<char>>,
    cur: Option<EntryView>,
) -> Option<Result<Option<EntryView>, FileSystemError>>
    decreases segs.len(),
{
    if segs.len() == 0 {
        Some(Ok(cur))
    } else if cur matches Some(m) && !is_dir_entry(m.short) {
        Some(Err(FileSystemError::FileNotFound))
    } else {
        match find_in_dir(data, bs, bpb, cluster, segs[0]) {
            None => None,
            Some(None) => Some(Err(FileSystemError::FileNotFound)),
            Some(Some(m)) => lookup_path(data, bs, bpb, entry_cluster(m.short), segs.drop_first(), Some(m)),
        }
    }
}

impl Fat32FileMetadata {
    /// The first cluster of the file.
    pub fn start_cluster(&self) -> (c: u32)
        requires
            self.short@.len() == 32,
        ensures
            c == entry_cluster(self.short@),
    {
        let low = read_u16_le(self.short.as_slice(), 26);
        let high = read_u16_le(self.short.as_slice(), 20);
        proof {
            assert((low as u32) | ((high as u32) << 16) == (low + high * 0x10000) as u32) by (bit_vector);
        }
        (low as u32) | ((high as u32) << 16)
    }

    /// Whether the entry describes a directory.
    pub fn is_directory(&self) -> (r: bool)
        requires
            self.short@.len() == 32,
        ensures
            r == is_dir_entry(self.short@),
    {
        (self.short[11] & ATTR_DIRECTORY) != 0
    }
}

impl<D: BlockDevice> Fat32FileSystem<D> {
    /// The entry named `name` in the directory at `cluster`.
    pub fn get_file_metadata_by_cluster(&self, cluster: u32, name: &str) -> (r: Result<Fat32FileMetadata, FileSystemError>)
        requires
            self.wf(),
        ensures
            ({
                let f = find_in_dir(
                    self.spec_device().spec_data(),
                    self.spec_device().spec_block_size() as int,
                    self.spec_bpb(),
                    cluster,
                    name@,
                );
                &&& r matches Ok(m) ==> f == Some(Some(m.view())) && m.ok()
                &&& r == Err::<Fat32FileMetadata, FileSystemError>(FileSystemError::FileNotFound) ==> f == Some(
                    None::<EntryView>,
                )
                &&& f == Some(None::<EntryView>) ==> r is Err
                &&& f is None ==> r is Err
                &&& r matches Err(e) ==> e is IoError || e is FileNotFound
            }),
    {
        let bytes = name.as_bytes();
        let units = encode_utf16_str(name);
        let found = self.walk_dir(cluster, Some((bytes, units.as_slice())));
        match found {
            Ok(v) => {
                let mut v = v;
                if v.len() > 0 {
                    proof {
                        assert(views(v@)[0] == v@[0].view());
                        assert(v@[0].ok());
                    }
                    let m = v.swap_remove(0);
                    Ok(m)
                } else {
                    Err(FileSystemError::FileNotFound)
                }
            },
            Err(e) => Err(e),
        }
    }

    /// Every entry of the directory at `cluster`.
    pub fn get_all_filemeta_by_cluster(&self, cluster: u32) -> (r: Result<Vec<Fat32FileMetadata>, FileSystemError>)
        requires
            self.wf(),
        ensures
            ({
                let l = list_dir(
                    self.spec_device().spec_data(),
                    self.spec_device().spec_block_size() as int,
                    self.spec_bpb(),
                    cluster,
                );
                &&& r matches Ok(v) ==> l == Some(views(v@))
                &&& l is None ==> r is Err
                &&& r matches Err(e) ==> e is IoError
            }),
            r matches Ok(v) ==> forall|i: int| 0 <= i < v@.len() ==> #[trigger] v@[i].ok(),
    {
        self.walk_dir(cluster, None)
    }

    /// The entry at `path`: `None` for the root.
    pub fn get_file_metadata(&self, path: Path<'_>) -> (r: Result<Option<Fat32FileMetadata>, FileSystemError>)
        requires
            self.wf(),
        ensures
            ({
                let l = lookup_path(
                    self.spec_device().spec_data(),
                    self.spec_device().spec_block_size() as int,
                    self.spec_bpb(),
                    self.spec_bpb().root_cluster,
                    path.spec_segments(),
                    None,
                );
                &&& r matches Ok(Some(m)) ==> l == Some(Ok::<Option<EntryView>, FileSystemError>(Some(m.view())))
                    && m.ok()
                &&& r matches Ok(None) ==> l == Some(Ok::<Option<EntryView>, FileSystemError>(None))
                &&& r == Err::<Option<Fat32FileMetadata>, FileSystemError>(FileSystemError::FileNotFound)
                    ==> l == Some(Err::<Option<EntryView>, FileSystemError>(FileSystemError::FileNotFound))
                &&& l matches Some(Err(_)) ==> r is Err
                &&& l is None ==> r is Err
                &&& r matches Err(e) ==> e is IoError || e is FileNotFound
            }),
    {
        let ghost data = self.spec_device().spec_data();
        let ghost bs = self.spec_device().spec_block_size() as int;
        let mut cluster = self.bpb().root_cluster;
        let mut file_metadata: Option<Fat32FileMetadata> = None;
        let mut it = path.iter();
        loop
            invariant
                self.wf(),
                data == self.spec_device().spec_data(),
                bs == self.spec_device().spec_block_size() as int,
                file_metadata matches Some(m) ==> m.ok(),
                lookup_path(data, bs, self.spec_bpb(), self.spec_bpb().root_cluster, path.spec_segments(), None)
                    == lookup_path(
                    data,
                    bs,
                    self.spec_bpb(),
                    cluster,
                    it.spec_rest(),
                    match file_metadata {
                        Some(m) => Some(m.view()),
                        None => None,
                    },
                ),
            ensures
                it.spec_rest().len() == 0,
            decreases it.spec_rest().len(),
        {
            let name = match it.next() {
                Some(n) => n,
                None => break,
            };
            match &file_metadata {
                Some(m) => {
                    if !m.is_directory() {
                        return Err(FileSystemError::FileNotFound);
                    }
                },
                None => {},
            }
            let next = match self.get_file_metadata_by_cluster(cluster, name) {
                Ok(n) => n,
                Err(e) => return Err(e),
            };
            cluster = next.start_cluster();
            file_metadata = Some(next);
        }
        Ok(file_metadata)
    }
}

/// The clusters of the chain from `c` up to a free or reserved FAT value;
/// `None` when it is longer than `fuel`.
pub open spec fn chain_length(data: Seq<u8>, bs: int, bpb: Bpb, c: u32, fuel: nat) -> Option<nat>
    decreases fuel,
{
    if c == FAT_ENTRY_FREE || c >= FAT_ENTRY_RESERVED_START {
        Some(0)
    } else if fuel == 0 {
        None
    } else {
        match chain_length(data, bs, bpb, crate::fs::fat32::spec_fat_entry(data, bs, bpb, c), (fuel - 1) as nat) {
            Some(n) => Some(n + 1),
            None => None,
        }
    }
}

impl Fat32FileMetadata {
    /// A new entry named `name`, starting at `start_cluster`, with attribute
    /// `attr`. The short entry is fixed ("????????.???"); the name is kept
    /// in long entries, 13 UTF-16 units each.
    pub fn new(name: &str, start_cluster: u32, attr: u8) -> (m: Fat32FileMetadata)
        ensures
            m.short@ == short_entry_bytes(start_cluster, attr),
            rows(m.long@) == long_entries(encode_utf16(name@)),
            m.start_cluster == 0 && m.start_sector == 0 && m.start_sector_offset == 0,
            m.short_cluster == 0 && m.short_sector == 0 && m.short_sector_offset == 0,
            m.ok(),
    {
        let short = build_short_entry(start_cluster, attr);
        let units = encode_utf16_str(name);
        let long = build_long_entries(&units);
        Fat32FileMetadata {
            short,
            long,
            start_cluster: 0,
            start_sector: 0,
            start_sector_offset: 0,
            short_cluster: 0,
            short_sector: 0,
            short_sector_offset: 0,
        }
    }

    /// The name the entry shows: see [`entry_name`].
    pub fn name_to_string(&self) -> (s: String)
        requires
            self.short@.len() == 32,
            forall|i: int| 0 <= i < self.long@.len() ==> #[trigger] self.long@[i]@.len() == 32,
        ensures
            s@ == entry_name(self.short@, rows(self.long@)),
    {
        if self.long.len() == 0 {
            let base = trim_ascii_vec(&entry_slice(&self.short, 0, 8));
            let ext = trim_ascii_vec(&entry_slice(&self.short, 8, 11));
            let s = utf8_lossy_to_string(base.as_slice());
            if ext.len() == 0 {
                s
            } else {
                let dot = ".";
                proof {
                    reveal_strlit(".");
                }
                let s = append_str(s, dot);
                let e = utf8_lossy_to_string(ext.as_slice());
                append_str(s, e.as_str())
            }
        } else {
            let units = collect_long_units(&self.long);
            utf16_lossy_to_string(units.as_slice())
        }
    }
}

impl<D: BlockDevice> Fat32FileSystem<D> {
    /// The bytes taken by the chain from `cluster`: its clusters times the
    /// cluster size.
    pub fn get_allocated_size(&self, cluster: u32) -> (r: Result<u64, FileSystemError>)
        requires
            self.wf(),
        ensures
            ({
                let n = chain_length(
                    self.spec_device().spec_data(),
                    self.spec_device().spec_block_size() as int,
                    self.spec_bpb(),
                    cluster,
                    DIR_CHAIN_LIMIT as nat,
                );
                &&& r matches Ok(s) ==> n matches Some(k) && s == k * self.spec_bpb().bytes_per_sector
                    * self.spec_bpb().sectors_per_cluster
                &&& n is None ==> r is Err
                &&& r matches Err(e) ==> e is IoError
            }),
    {
        let ghost data = self.spec_device().spec_data();
        let ghost bs = self.spec_device().spec_block_size() as int;
        let mut c = cluster;
        let mut count: u64 = 0;
        let mut fuel: u64 = DIR_CHAIN_LIMIT;
        while c != FAT_ENTRY_FREE && c < FAT_ENTRY_RESERVED_START
            invariant
                self.wf(),
                fuel <= DIR_CHAIN_LIMIT,
                count + fuel == DIR_CHAIN_LIMIT,
                data == self.spec_device().spec_data(),
                bs == self.spec_device().spec_block_size() as int,
                chain_length(data, bs, self.spec_bpb(), cluster, DIR_CHAIN_LIMIT as nat) == match chain_length(
                    data,
                    bs,
                    self.spec_bpb(),
                    c,
                    fuel as nat,
                ) {
                    Some(n) => Some((n + count) as nat),
                    None => None::<nat>,
                },
            decreases fuel,
        {
            if fuel == 0 {
                return Err(corrupt_chain());
            }
            count = count + 1;
            c = match self.get_next_cluster(c) {
                Ok(n) => n,
                Err(e) => return Err(e),
            };
            fuel = fuel - 1;
        }
        let bpb = self.bpb();
        proof {
            assert(count * bpb.bytes_per_sector <= 0x0FFF_FFF0u64 * 0xFFFF) by (nonlinear_arith)
                requires
                    count <= 0x0FFF_FFF0,
                    bpb.bytes_per_sector <= 0xFFFF,
            ;
            assert(count * bpb.bytes_per_sector * bpb.sectors_per_cluster <= 0x0FFF_FFF0u64 * 0xFFFF * 0xFF)
                by (nonlinear_arith)
                requires
                    count * bpb.bytes_per_sector <= 0x0FFF_FFF0u64 * 0xFFFF,
                    bpb.sectors_per_cluster <= 0xFF,
            ;
        }
        Ok(count * bpb.bytes_per_sector as u64 * bpb.sectors_per_cluster as u64)
    }

    /// What a listing tells of an entry.
    pub fn get_fs_metadata(&self, file: &Fat32FileMetadata) -> (r: Result<FileMetadata, FileSystemError>)
        requires
            self.wf(),
            file.ok(),
        ensures
            r matches Ok(m) ==> {
                &&& m.name@ == entry_name(file.short@, rows(file.long@))
                &&& m.size == entry_file_size(file.short@)
                &&& m.is_directory == is_dir_entry(file.short@)
                &&& chain_length(
                    self.spec_device().spec_data(),
                    self.spec_device().spec_block_size() as int,
                    self.spec_bpb(),
                    entry_cluster(file.short@),
                    DIR_CHAIN_LIMIT as nat,
                ) matches Some(k) && m.allocated_size == k * self.spec_bpb().bytes_per_sector
                    * self.spec_bpb().sectors_per_cluster
            },
            r matches Err(e) ==> e is IoError,
    {
        let name = file.name_to_string();
        let allocated_size = match self.get_allocated_size(file.start_cluster()) {
            Ok(s) => s,
            Err(e) => return Err(e),
        };
        Ok(FileMetadata {
            name,
            size: crate::bytes::read_u32_le(file.short.as_slice(), 28) as u64,
            is_directory: file.is_directory(),
            allocated_size,
        })
    }
}

/// The directory cluster `segs` names: the root for no segment; `None` when
/// a chain is corrupt; `FileTypeMismatch` when the entry is no directory.
pub open spec fn resolve_dir(data: Seq<u8>, bs: int, bpb: Bpb, segs: Seq<Seq<char>>) -> Option<Result<u32, FileSystemError>> {
    match lookup_path(data, bs, bpb, bpb.root_cluster, segs, None) {
        None => None,
        Some(Err(e)) => Some(Err(e)),
        Some(Ok(None)) => Some(Ok(bpb.root_cluster)),
        Some(Ok(Some(m))) => if is_dir_entry(m.short) {
            Some(Ok(entry_cluster(m.short)))
        } else {
            Some(Err(FileSystemError::FileTypeMismatch))
        },
    }
}

} // verus!
