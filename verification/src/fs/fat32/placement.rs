use vstd::prelude::*;

use crate::bytes::put_at;
use crate::fs::device::{block_of, write_at};
use crate::fs::dirent::{
    encode_utf16, entry_attr, entry_is_free, lemma_long_arrays_of_entry, lemma_long_entries_match, long_entries,
    long_entry_count, short_entry_bytes, utf16_of_char, ATTR_LONG_NAME,
};
use crate::fs::fat32::dir::{
    entries_per_sector, entry_named, find_in_dir, lemma_walk_slots_stopped, slot_bytes, slot_pos, sort_by_order, walk_chain,
    walk_init, walk_slots, walk_step, EntryView, WalkState, DIR_CHAIN_LIMIT,
};
use crate::fs::fat32::ops::{
    block_has_room, chain_has_room, cluster_has_room, concat_rows, entry_record, lemma_concat_rows_len,
    slot_free, window_free, window_taken,
};
use crate::fs::fat32::{
    fat_sector, spec_cluster_sector, spec_fat_entry, Bpb, FAT_ENTRY_FREE, FAT_ENTRY_RESERVED_START,
};
use vstd::utf8::encode_utf8;

verus! {

/// Sector `t` of cluster `c`, window from slot `s`, is where an entry of
/// `need` slots goes: the first sector of the cluster with room, and its first
/// window of free slots.
pub open spec fn room_at(data: Seq<u8>, bs: int, bpb: Bpb, c: u32, per: int, need: int, t: int, s: int) -> bool {
    let blk = block_of(data, bs, spec_cluster_sector(bpb, c) + t);
    &&& 0 <= t < bpb.sectors_per_cluster
    &&& 0 <= s
    &&& s + need <= per
    &&& window_free(blk, s, need)
    &&& forall|u: int|
        0 <= u < t ==> !(#[trigger] block_has_room(block_of(data, bs, spec_cluster_sector(bpb, c) + u), per, need))
    &&& forall|v: int| 0 <= v < s ==> #[trigger] window_taken(blk, v, need)
}

/// The sector and the slot where an entry of `need` slots goes in cluster `c`.
pub open spec fn room_pos(data: Seq<u8>, bs: int, bpb: Bpb, c: u32, per: int, need: int) -> (int, int) {
    choose|t: int, s: int| room_at(data, bs, bpb, c, per, need, t, s)
}

/// `d1` is `d0` with the entry bytes `rec` written where they go in cluster `c`.
pub open spec fn placed_in_cluster(d0: Seq<u8>, d1: Seq<u8>, bs: int, bpb: Bpb, c: u32, per: int, rec: Seq<u8>) -> bool {
    let (t, s) = room_pos(d0, bs, bpb, c, per, (rec.len() / 32) as int);
    let q = spec_cluster_sector(bpb, c) + t;
    d1 == write_at(d0, q * bs, put_at(block_of(d0, bs, q), s * 32, rec))
}

/// `d1` is `d0` with the entry bytes `rec` written into the first cluster with
/// room of the chain from `c`, followed for at most `fuel` clusters.
pub open spec fn placed_in_chain(
    d0: Seq<u8>,
    d1: Seq<u8>,
    bs: int,
    bpb: Bpb,
    c: u32,
    per: int,
    rec: Seq<u8>,
    fuel: nat,
) -> bool
    decreases fuel,
{
    if c == FAT_ENTRY_FREE || c >= FAT_ENTRY_RESERVED_START || c < 2 || fuel == 0 {
        false
    } else if cluster_has_room(d0, bs, bpb, c, per, (rec.len() / 32) as int) {
        placed_in_cluster(d0, d1, bs, bpb, c, per, rec)
    } else {
        placed_in_chain(d0, d1, bs, bpb, spec_fat_entry(d0, bs, bpb, c), per, rec, (fuel - 1) as nat)
    }
}

/// The walk of the chain from `c` up to the place where an entry of `need`
/// slots goes.
pub open spec fn walk_until_room(
    data: Seq<u8>,
    bs: int,
    bpb: Bpb,
    c: u32,
    fuel: nat,
    st: WalkState,
    target: Option<(Seq<u8>, Seq<u16>)>,
    per: int,
    need: int,
) -> WalkState
    decreases fuel,
{
    if c == FAT_ENTRY_FREE || c >= FAT_ENTRY_RESERVED_START || c < 2 || fuel == 0 {
        st
    } else if cluster_has_room(data, bs, bpb, c, per, need) {
        let (t, s) = room_pos(data, bs, bpb, c, per, need);
        walk_slots(data, bs, bpb, c, (t * per + s) as nat, st, target)
    } else {
        walk_until_room(
            data,
            bs,
            bpb,
            spec_fat_entry(data, bs, bpb, c),
            (fuel - 1) as nat,
            walk_slots(data, bs, bpb, c, (bpb.sectors_per_cluster * per) as nat, st, target),
            target,
            per,
            need,
        )
    }
}

/// The first data sector: after the reserved sectors and two FAT copies.
pub open spec fn data_start(bpb: Bpb) -> int {
    bpb.reserved_sector_count + bpb.fat_size_32 * 2
}

/// The clusters of the chain from `c` up to the one with room for `need`
/// slots have their entries in the first FAT, and every sector of theirs,
/// the FAT sectors read included, lies on the device of `data`.
pub open spec fn chain_within(data: Seq<u8>, bs: int, bpb: Bpb, c: u32, per: int, need: int, fuel: nat) -> bool
    decreases fuel,
{
    if c == FAT_ENTRY_FREE || c >= FAT_ENTRY_RESERVED_START || c < 2 || fuel == 0 {
        true
    } else {
        &&& (spec_cluster_sector(bpb, c) + bpb.sectors_per_cluster) * bs <= data.len()
        &&& (cluster_has_room(data, bs, bpb, c, per, need) || {
            &&& fat_sector(bpb, c) < bpb.reserved_sector_count + bpb.fat_size_32
            &&& (fat_sector(bpb, c) + 1) * bs <= data.len()
            &&& chain_within(data, bs, bpb, spec_fat_entry(data, bs, bpb, c), per, need, (fuel - 1) as nat)
        })
    }
}

/// In a search, a walk has found one entry exactly when it has stopped.
pub open spec fn search_state(st: WalkState) -> bool {
    &&& st.stopped ==> st.found.len() == 1
    &&& !st.stopped ==> st.found.len() == 0
}

pub(crate) proof fn lemma_walk_slots_search(
    data: Seq<u8>,
    bs: int,
    bpb: Bpb,
    c: u32,
    n: nat,
    st: WalkState,
    t: (Seq<u8>, Seq<u16>),
)
    requires
        search_state(st),
    ensures
        search_state(walk_slots(data, bs, bpb, c, n, st, Some(t))),
    decreases n,
{
    if n > 0 {
        lemma_walk_slots_search(data, bs, bpb, c, (n - 1) as nat, st, Some(t).unwrap());
    }
}

pub(crate) proof fn lemma_walk_slots_frame(
    d0: Seq<u8>,
    d1: Seq<u8>,
    bs: int,
    bpb: Bpb,
    c: u32,
    n: nat,
    st: WalkState,
    target: Option<(Seq<u8>, Seq<u16>)>,
)
    requires
        forall|k: int| 0 <= k < n ==> #[trigger] slot_bytes(d1, bs, bpb, c, k) == slot_bytes(d0, bs, bpb, c, k),
    ensures
        walk_slots(d1, bs, bpb, c, n, st, target) == walk_slots(d0, bs, bpb, c, n, st, target),
    decreases n,
{
    if n > 0 {
        lemma_walk_slots_frame(d0, d1, bs, bpb, c, (n - 1) as nat, st, target);
        assert(slot_bytes(d1, bs, bpb, c, n - 1) == slot_bytes(d0, bs, bpb, c, n - 1));
    }
}

/// A block other than the one written keeps its bytes.
pub(crate) proof fn lemma_block_frame(d0: Seq<u8>, bs: int, q: int, x: Seq<u8>, sec: int)
    requires
        bs > 0,
        x.len() == bs,
        0 <= q,
        (q + 1) * bs <= d0.len(),
        0 <= sec,
        (sec + 1) * bs <= d0.len(),
        sec != q,
    ensures
        block_of(write_at(d0, q * bs, x), bs, sec) == block_of(d0, bs, sec),
{
    let d1 = write_at(d0, q * bs, x);
    assert((q + 1) * bs == q * bs + bs) by (nonlinear_arith);
    assert((sec + 1) * bs == sec * bs + bs) by (nonlinear_arith);
    if sec < q {
        assert(sec * bs + bs <= q * bs) by (nonlinear_arith)
            requires
                sec < q,
                bs > 0,
        ;
    } else {
        assert(q * bs + bs <= sec * bs) by (nonlinear_arith)
            requires
                q < sec,
                bs > 0,
        ;
    }
    assert(block_of(d1, bs, sec) =~= block_of(d0, bs, sec)) by {
        assert forall|i: int| 0 <= i < bs implies #[trigger] block_of(d1, bs, sec)[i] == block_of(d0, bs, sec)[i] by {
            let p = sec * bs + i;
            if p < q * bs {
                assert(d1[p] == d0[p]);
            } else {
                assert(p >= q * bs + bs);
                assert(d1[p] == d0[p]);
            }
        }
    }
}

/// The block written holds what was written.
pub(crate) proof fn lemma_block_written(d0: Seq<u8>, bs: int, q: int, x: Seq<u8>)
    requires
        bs > 0,
        x.len() == bs,
        0 <= q,
        (q + 1) * bs <= d0.len(),
    ensures
        block_of(write_at(d0, q * bs, x), bs, q) == x,
        write_at(d0, q * bs, x).len() == d0.len(),
{
    let d1 = write_at(d0, q * bs, x);
    assert((q + 1) * bs == q * bs + bs) by (nonlinear_arith);
    assert(block_of(d1, bs, q) =~= x);
}

/// Where slot `k` of a cluster lies: sector `k / per`, index `k % per`.
pub(crate) proof fn lemma_slot_split(k: int, per: int, t: int, j: int)
    requires
        per > 0,
        0 <= t,
        0 <= j < per,
        k == t * per + j,
    ensures
        k / per == t,
        k % per == j,
{
    vstd::arithmetic::div_mod::lemma_fundamental_div_mod_converse(k, per, t, j);
}

/// Sectors of two different clusters differ.
pub(crate) proof fn lemma_cluster_sectors_distinct(bpb: Bpb, c1: u32, c2: u32, u: int, t: int)
    requires
        c1 != c2,
        bpb.sectors_per_cluster > 0,
        0 <= u < bpb.sectors_per_cluster,
        0 <= t < bpb.sectors_per_cluster,
    ensures
        spec_cluster_sector(bpb, c1) + u != spec_cluster_sector(bpb, c2) + t,
{
    let spc = bpb.sectors_per_cluster as int;
    assert((c1 - 2) * spc + u != (c2 - 2) * spc + t) by (nonlinear_arith)
        requires
            c1 != c2,
            spc > 0,
            0 <= u < spc,
            0 <= t < spc,
    {
        if c1 < c2 {
            assert((c1 - 2) * spc + spc <= (c2 - 2) * spc);
        } else {
            assert((c2 - 2) * spc + spc <= (c1 - 2) * spc);
        }
    }
}

/// A write to block `q` leaves the slots of cluster `c` as they were when no
/// sector of `c` is `q`.
proof fn lemma_slots_other_cluster(d0: Seq<u8>, bs: int, bpb: Bpb, q: int, x: Seq<u8>, c: u32)
    requires
        bs > 0,
        x.len() == bs,
        0 <= q,
        (q + 1) * bs <= d0.len(),
        bpb.bytes_per_sector >= 512,
        bpb.sectors_per_cluster > 0,
        c >= 2,
        (spec_cluster_sector(bpb, c) + bpb.sectors_per_cluster) * bs <= d0.len(),
        forall|u: int| 0 <= u < bpb.sectors_per_cluster ==> #[trigger] (spec_cluster_sector(bpb, c) + u) != q,
    ensures
        forall|k: int|
            0 <= k < bpb.sectors_per_cluster * (bpb.bytes_per_sector / 32) ==> #[trigger] slot_bytes(
                write_at(d0, q * bs, x),
                bs,
                bpb,
                c,
                k,
            ) == slot_bytes(d0, bs, bpb, c, k),
{
    let per = (bpb.bytes_per_sector / 32) as int;
    let spc = bpb.sectors_per_cluster as int;
    assert forall|k: int| 0 <= k < spc * per implies #[trigger] slot_bytes(write_at(d0, q * bs, x), bs, bpb, c, k)
        == slot_bytes(d0, bs, bpb, c, k) by {
        let u = k / per;
        vstd::arithmetic::div_mod::lemma_fundamental_div_mod(k, per);
        assert(0 <= u < spc) by (nonlinear_arith)
            requires
                k == per * u + k % per,
                0 <= k % per < per,
                0 <= k < spc * per,
                per > 0,
        ;
        let sec = spec_cluster_sector(bpb, c) + u;
        assert(sec != q);
        assert((sec + 1) * bs <= d0.len()) by (nonlinear_arith)
            requires
                sec + 1 <= spec_cluster_sector(bpb, c) + spc,
                (spec_cluster_sector(bpb, c) + spc) * bs <= d0.len(),
                bs > 0,
        ;
        assert(0 <= sec);
        lemma_block_frame(d0, bs, q, x, sec);
    }
}

/// Writing `rec` over the window from slot `s` of sector `t` of cluster `c`
/// leaves the slots before it as they were and puts `rec` in the slots of
/// the window.
proof fn lemma_slots_written_cluster(d0: Seq<u8>, bs: int, bpb: Bpb, c: u32, t: int, s: int, rec: Seq<u8>, need: int)
    requires
        bpb.bytes_per_sector >= 512,
        bpb.bytes_per_sector <= bs,
        0 <= t < bpb.sectors_per_cluster,
        0 <= s,
        1 <= need,
        s + need <= bpb.bytes_per_sector / 32,
        rec.len() == need * 32,
        c >= 2,
        (spec_cluster_sector(bpb, c) + bpb.sectors_per_cluster) * bs <= d0.len(),
    ensures
        ({
            let q = spec_cluster_sector(bpb, c) + t;
            let d1 = write_at(d0, q * bs, put_at(block_of(d0, bs, q), s * 32, rec));
            let per = (bpb.bytes_per_sector / 32) as int;
            &&& d1.len() == d0.len()
            &&& forall|k: int| 0 <= k < t * per + s ==> #[trigger] slot_bytes(d1, bs, bpb, c, k) == slot_bytes(d0, bs, bpb, c, k)
            &&& forall|i: int| 0 <= i < need ==> #[trigger] slot_bytes(d1, bs, bpb, c, t * per + s + i) == rec.subrange(i * 32, i * 32 + 32)
        }),
{
    let q = spec_cluster_sector(bpb, c) + t;
    let per = (bpb.bytes_per_sector / 32) as int;
    let spc = bpb.sectors_per_cluster as int;
    let b = block_of(d0, bs, q);
    let x = put_at(b, s * 32, rec);
    let d1 = write_at(d0, q * bs, x);
    assert(per * 32 <= bpb.bytes_per_sector);
    assert((q + 1) * bs <= d0.len()) by (nonlinear_arith)
        requires
            q + 1 <= spec_cluster_sector(bpb, c) + spc,
            (spec_cluster_sector(bpb, c) + spc) * bs <= d0.len(),
            bs > 0,
    ;
    assert(0 <= q);
    assert(q * bs + bs <= d0.len()) by (nonlinear_arith)
        requires
            (q + 1) * bs <= d0.len(),
    ;
    assert(b.len() == bs);
    assert(x.len() == bs);
    lemma_block_written(d0, bs, q, x);
    assert forall|k: int| 0 <= k < t * per + s implies #[trigger] slot_bytes(d1, bs, bpb, c, k) == slot_bytes(d0, bs, bpb, c, k) by {
        let u = k / per;
        let j = k % per;
        vstd::arithmetic::div_mod::lemma_fundamental_div_mod(k, per);
        assert(0 <= u <= t) by (nonlinear_arith)
            requires
                k == per * u + j,
                0 <= j < per,
                0 <= k < t * per + s,
                s < per,
                per > 0,
        ;
        if u < t {
            let sec = spec_cluster_sector(bpb, c) + u;
            assert((sec + 1) * bs <= d0.len()) by (nonlinear_arith)
                requires
                    sec + 1 <= spec_cluster_sector(bpb, c) + spc,
                    (spec_cluster_sector(bpb, c) + spc) * bs <= d0.len(),
                    bs > 0,
            ;
            lemma_block_frame(d0, bs, q, x, sec);
        } else {
            assert(j < s) by (nonlinear_arith)
                requires
                    k == per * u + j,
                    u == t,
                    k < t * per + s,
            ;
            assert(x.subrange(j * 32, j * 32 + 32) =~= b.subrange(j * 32, j * 32 + 32));
        }
    }
    assert forall|i: int| 0 <= i < need implies #[trigger] slot_bytes(d1, bs, bpb, c, t * per + s + i) == rec.subrange(i * 32, i * 32 + 32) by {
        lemma_slot_split(t * per + s + i, per, t, s + i);
        assert(x.subrange((s + i) * 32, (s + i) * 32 + 32) =~= rec.subrange(i * 32, i * 32 + 32));
    }
}

/// Row `i` of rows of 32 bytes joined.
proof fn lemma_concat_rows_row(rows: Seq<Seq<u8>>, i: int)
    requires
        forall|j: int| 0 <= j < rows.len() ==> #[trigger] rows[j].len() == 32,
        0 <= i < rows.len(),
    ensures
        concat_rows(rows).subrange(i * 32, i * 32 + 32) == rows[i],
    decreases rows.len(),
{
    let init = rows.drop_last();
    lemma_concat_rows_len(init);
    assert(concat_rows(rows) == concat_rows(init) + rows.last());
    if i < rows.len() - 1 {
        lemma_concat_rows_row(init, i);
        assert(concat_rows(rows).subrange(i * 32, i * 32 + 32) =~= concat_rows(init).subrange(i * 32, i * 32 + 32));
    } else {
        assert(concat_rows(rows).subrange(i * 32, i * 32 + 32) =~= rows.last());
    }
}

/// Slot `i` of an entry's bytes: its long entries, then its short entry.
pub(crate) proof fn lemma_entry_record_slot(longs: Seq<Seq<u8>>, short: Seq<u8>, i: int)
    requires
        forall|j: int| 0 <= j < longs.len() ==> #[trigger] longs[j].len() == 32,
        short.len() == 32,
        0 <= i <= longs.len(),
    ensures
        entry_record(longs, short).len() == (longs.len() + 1) * 32,
        i < longs.len() ==> entry_record(longs, short).subrange(i * 32, i * 32 + 32) == longs[i],
        i == longs.len() ==> entry_record(longs, short).subrange(i * 32, i * 32 + 32) == short,
{
    lemma_concat_rows_len(longs);
    let r = entry_record(longs, short);
    if i < longs.len() {
        lemma_concat_rows_row(longs, i);
        assert(r.subrange(i * 32, i * 32 + 32) =~= concat_rows(longs).subrange(i * 32, i * 32 + 32));
    } else {
        assert(r.subrange(i * 32, i * 32 + 32) =~= short);
    }
}

/// The walk through the long entries of a written entry gathers them.
proof fn lemma_walk_longs(
    d1: Seq<u8>,
    bs: int,
    bpb: Bpb,
    c: u32,
    k0: nat,
    st: WalkState,
    tg: (Seq<u8>, Seq<u16>),
    longs: Seq<Seq<u8>>,
    short: Seq<u8>,
    i: nat,
)
    requires
        i <= longs.len(),
        forall|j: int| 0 <= j < longs.len() ==> #[trigger] longs[j].len() == 32,
        forall|j: int| 0 <= j < longs.len() ==> #[trigger] entry_attr(longs[j]) == ATTR_LONG_NAME,
        short.len() == 32,
        forall|j: int|
            0 <= j <= longs.len() ==> #[trigger] slot_bytes(d1, bs, bpb, c, k0 + j) == entry_record(longs, short).subrange(
                j * 32,
                j * 32 + 32,
            ),
        !walk_slots(d1, bs, bpb, c, k0, st, Some(tg)).stopped,
        walk_slots(d1, bs, bpb, c, k0, st, Some(tg)).pending.len() == 0,
    ensures
        ({
            let w0 = walk_slots(d1, bs, bpb, c, k0, st, Some(tg));
            let w = walk_slots(d1, bs, bpb, c, k0 + i, st, Some(tg));
            &&& !w.stopped
            &&& w.found == w0.found
            &&& w.pending == longs.take(i as int)
        }),
    decreases i,
{
    if i == 0 {
        assert(longs.take(0) =~= Seq::<Seq<u8>>::empty());
    } else {
        let j = (i - 1) as nat;
        lemma_walk_longs(d1, bs, bpb, c, k0, st, tg, longs, short, j);
        lemma_entry_record_slot(longs, short, j as int);
        let e = slot_bytes(d1, bs, bpb, c, (k0 + j) as int);
        assert(e == longs[j as int]);
        assert((k0 + i) as nat == (k0 + j + 1) as nat);
        assert(walk_slots(d1, bs, bpb, c, k0 + i, st, Some(tg)) == walk_step(
            walk_slots(d1, bs, bpb, c, k0 + j, st, Some(tg)),
            e,
            slot_pos(bpb, c, (k0 + j) as int),
            Some(tg),
        ));
        assert(longs.take(j as int).push(longs[j as int]) =~= longs.take(i as int));
    }
}

/// After the long entries, the short entry of a written entry named as the
/// search asks ends the search with that entry.
pub(crate) proof fn lemma_walk_window(
    d1: Seq<u8>,
    bs: int,
    bpb: Bpb,
    c: u32,
    k0: nat,
    st: WalkState,
    tg: (Seq<u8>, Seq<u16>),
    longs: Seq<Seq<u8>>,
    short: Seq<u8>,
)
    requires
        forall|j: int| 0 <= j < longs.len() ==> #[trigger] longs[j].len() == 32,
        forall|j: int| 0 <= j < longs.len() ==> #[trigger] entry_attr(longs[j]) == ATTR_LONG_NAME,
        short.len() == 32,
        entry_attr(short) != ATTR_LONG_NAME,
        !entry_is_free(short),
        entry_named(short, longs, tg),
        forall|j: int|
            0 <= j <= longs.len() ==> #[trigger] slot_bytes(d1, bs, bpb, c, k0 + j) == entry_record(longs, short).subrange(
                j * 32,
                j * 32 + 32,
            ),
        !walk_slots(d1, bs, bpb, c, k0, st, Some(tg)).stopped,
        walk_slots(d1, bs, bpb, c, k0, st, Some(tg)).pending.len() == 0,
    ensures
        ({
            let w = walk_slots(d1, bs, bpb, c, (k0 + longs.len() + 1) as nat, st, Some(tg));
            &&& w.stopped
            &&& w.found.len() == 1
            &&& w.found[0].short == short
            &&& w.found[0].long == sort_by_order(longs)
        }),
{
    let n = longs.len();
    lemma_walk_longs(d1, bs, bpb, c, k0, st, tg, longs, short, n);
    lemma_entry_record_slot(longs, short, n as int);
    assert(longs.take(n as int) =~= longs);
    let e = slot_bytes(d1, bs, bpb, c, (k0 + n) as int);
    assert(e == short);
    assert(walk_slots(d1, bs, bpb, c, (k0 + n + 1) as nat, st, Some(tg)) == walk_step(
        walk_slots(d1, bs, bpb, c, k0 + n, st, Some(tg)),
        e,
        slot_pos(bpb, c, (k0 + n) as int),
        Some(tg),
    ));
}

/// The first sector from `u` on of cluster `c` with room.
proof fn lemma_first_room_sector(data: Seq<u8>, bs: int, bpb: Bpb, c: u32, per: int, need: int, u: int) -> (t: int)
    requires
        0 <= u,
        forall|v: int|
            0 <= v < u ==> !(#[trigger] block_has_room(block_of(data, bs, spec_cluster_sector(bpb, c) + v), per, need)),
        exists|k: int|
            u <= k < bpb.sectors_per_cluster && #[trigger] block_has_room(
                block_of(data, bs, spec_cluster_sector(bpb, c) + k),
                per,
                need,
            ),
    ensures
        u <= t < bpb.sectors_per_cluster,
        block_has_room(block_of(data, bs, spec_cluster_sector(bpb, c) + t), per, need),
        forall|v: int|
            0 <= v < t ==> !(#[trigger] block_has_room(block_of(data, bs, spec_cluster_sector(bpb, c) + v), per, need)),
    decreases bpb.sectors_per_cluster - u,
{
    if block_has_room(block_of(data, bs, spec_cluster_sector(bpb, c) + u), per, need) {
        u
    } else {
        let k = choose|k: int|
            u <= k < bpb.sectors_per_cluster && #[trigger] block_has_room(
                block_of(data, bs, spec_cluster_sector(bpb, c) + k),
                per,
                need,
            );
        assert(k != u);
        assert forall|v: int| 0 <= v < u + 1 implies !(#[trigger] block_has_room(
            block_of(data, bs, spec_cluster_sector(bpb, c) + v),
            per,
            need,
        )) by {
            if v < u {
            }
        }
        lemma_first_room_sector(data, bs, bpb, c, per, need, u + 1)
    }
}

/// The first window from `v` on of `need` free slots among the first `per`
/// slots of `b`.
proof fn lemma_first_window(b: Seq<u8>, per: int, need: int, v: int) -> (s: int)
    requires
        0 <= v,
        forall|w: int| 0 <= w < v ==> #[trigger] window_taken(b, w, need),
        exists|w: int| v <= w && w + need <= per && #[trigger] window_free(b, w, need),
    ensures
        v <= s,
        s + need <= per,
        window_free(b, s, need),
        forall|w: int| 0 <= w < s ==> #[trigger] window_taken(b, w, need),
    decreases per - v,
{
    if window_free(b, v, need) {
        v
    } else {
        let w0 = choose|w: int| v <= w && w + need <= per && #[trigger] window_free(b, w, need);
        assert(w0 != v);
        assert(window_taken(b, v, need));
        assert forall|w: int| 0 <= w < v + 1 implies #[trigger] window_taken(b, w, need) by {
            if w < v {
            }
        }
        lemma_first_window(b, per, need, v + 1)
    }
}

/// A cluster with room has a place where an entry goes.
pub(crate) proof fn lemma_room_pos(data: Seq<u8>, bs: int, bpb: Bpb, c: u32, per: int, need: int)
    requires
        cluster_has_room(data, bs, bpb, c, per, need),
    ensures
        ({
            let (t, s) = room_pos(data, bs, bpb, c, per, need);
            room_at(data, bs, bpb, c, per, need, t, s)
        }),
{
    let t = lemma_first_room_sector(data, bs, bpb, c, per, need, 0);
    let blk = block_of(data, bs, spec_cluster_sector(bpb, c) + t);
    let s = lemma_first_window(blk, per, need, 0);
    assert(room_at(data, bs, bpb, c, per, need, t, s));
}

/// The place where an entry goes is unique.
pub(crate) proof fn lemma_room_unique(
    data: Seq<u8>,
    bs: int,
    bpb: Bpb,
    c: u32,
    per: int,
    need: int,
    t1: int,
    s1: int,
    t2: int,
    s2: int,
)
    requires
        room_at(data, bs, bpb, c, per, need, t1, s1),
        room_at(data, bs, bpb, c, per, need, t2, s2),
    ensures
        t1 == t2,
        s1 == s2,
{
    let b1 = block_of(data, bs, spec_cluster_sector(bpb, c) + t1);
    let b2 = block_of(data, bs, spec_cluster_sector(bpb, c) + t2);
    if t1 < t2 {
        assert(block_has_room(b1, per, need));
        assert(!block_has_room(b1, per, need));
    } else if t2 < t1 {
        assert(block_has_room(b2, per, need));
        assert(!block_has_room(b2, per, need));
    }
    if s1 < s2 {
        assert(window_taken(b1, s1, need));
        let k = choose|k: int| s1 <= k < s1 + need && !slot_free(b1, k);
        assert(slot_free(b1, k));
    } else if s2 < s1 {
        assert(window_taken(b1, s2, need));
        let k = choose|k: int| s2 <= k < s2 + need && !slot_free(b1, k);
        assert(slot_free(b1, k));
    }
}

/// The block an entry was written to, and what it holds after.
proof fn lemma_placed_block(d0: Seq<u8>, d1: Seq<u8>, bs: int, bpb: Bpb, c: u32, per: int, rec: Seq<u8>, fuel: nat) -> (r: (u32, int, Seq<u8>))
    requires
        placed_in_chain(d0, d1, bs, bpb, c, per, rec, fuel),
        chain_within(d0, bs, bpb, c, per, (rec.len() / 32) as int, fuel),
        bpb.bytes_per_sector >= 512,
        bpb.bytes_per_sector <= bs,
        per == bpb.bytes_per_sector / 32,
        rec.len() % 32 == 0,
    ensures
        r.0 >= 2,
        cluster_has_room(d0, bs, bpb, r.0, per, (rec.len() / 32) as int),
        0 <= r.1 < bpb.sectors_per_cluster,
        (spec_cluster_sector(bpb, r.0) + bpb.sectors_per_cluster) * bs <= d0.len(),
        r.2.len() == bs,
        d1 == write_at(d0, (spec_cluster_sector(bpb, r.0) + r.1) * bs, r.2),
    decreases fuel,
{
    let need = (rec.len() / 32) as int;
    if cluster_has_room(d0, bs, bpb, c, per, need) {
        lemma_room_pos(d0, bs, bpb, c, per, need);
        let (t, s) = room_pos(d0, bs, bpb, c, per, need);
        let q = spec_cluster_sector(bpb, c) + t;
        let x = put_at(block_of(d0, bs, q), s * 32, rec);
        vstd::arithmetic::div_mod::lemma_fundamental_div_mod(rec.len() as int, 32);
        assert(rec.len() == need * 32);
        assert((q + 1) * bs <= d0.len()) by (nonlinear_arith)
            requires
                q + 1 <= spec_cluster_sector(bpb, c) + bpb.sectors_per_cluster,
                (spec_cluster_sector(bpb, c) + bpb.sectors_per_cluster) * bs <= d0.len(),
                bs > 0,
        ;
        assert(q >= 0);
        assert(q * bs + bs <= d0.len()) by (nonlinear_arith)
            requires
                (q + 1) * bs <= d0.len(),
        ;
        assert(per * 32 <= bpb.bytes_per_sector);
        assert(x.len() == bs);
        (c, t, x)
    } else {
        lemma_placed_block(d0, d1, bs, bpb, spec_fat_entry(d0, bs, bpb, c), per, rec, (fuel - 1) as nat)
    }
}

/// A search keeps finding one entry exactly when it has stopped.
pub(crate) proof fn lemma_walk_chain_search(
    data: Seq<u8>,
    bs: int,
    bpb: Bpb,
    c: u32,
    fuel: nat,
    st: WalkState,
    tg: (Seq<u8>, Seq<u16>),
)
    requires
        search_state(st),
    ensures
        walk_chain(data, bs, bpb, c, fuel, st, Some(tg)) matches Some(w) ==> search_state(w),
    decreases fuel,
{
    if c == FAT_ENTRY_FREE || c >= FAT_ENTRY_RESERVED_START {
    } else if c < 2 || fuel == 0 {
    } else {
        let per = (bpb.bytes_per_sector as int) / 32;
        let n = (bpb.sectors_per_cluster * per) as nat;
        lemma_walk_slots_search(data, bs, bpb, c, n, st, tg);
        let st2 = walk_slots(data, bs, bpb, c, n, st, Some(tg));
        if !st2.stopped {
            lemma_walk_chain_search(data, bs, bpb, spec_fat_entry(data, bs, bpb, c), (fuel - 1) as nat, st2, tg);
        }
    }
}

/// A stopped walk stays stopped.
proof fn lemma_until_room_stopped(
    data: Seq<u8>,
    bs: int,
    bpb: Bpb,
    c: u32,
    fuel: nat,
    st: WalkState,
    target: Option<(Seq<u8>, Seq<u16>)>,
    per: int,
    need: int,
)
    requires
        st.stopped,
    ensures
        walk_until_room(data, bs, bpb, c, fuel, st, target, per, need).stopped,
    decreases fuel,
{
    if c == FAT_ENTRY_FREE || c >= FAT_ENTRY_RESERVED_START || c < 2 || fuel == 0 {
    } else if cluster_has_room(data, bs, bpb, c, per, need) {
        let (t, s) = room_pos(data, bs, bpb, c, per, need);
        lemma_walk_slots_stopped(data, bs, bpb, c, 0, (t * per + s) as nat, st, target);
    } else {
        let n = (bpb.sectors_per_cluster * per) as nat;
        lemma_walk_slots_stopped(data, bs, bpb, c, 0, n, st, target);
        lemma_until_room_stopped(data, bs, bpb, spec_fat_entry(data, bs, bpb, c), (fuel - 1) as nat, walk_slots(data, bs, bpb, c, n, st, target), target, per, need);
    }
}

/// A search that ends without finding has not found anything by the place
/// where an entry goes.
pub(crate) proof fn lemma_until_room_of_search(
    data: Seq<u8>,
    bs: int,
    bpb: Bpb,
    c: u32,
    fuel: nat,
    st: WalkState,
    tg: (Seq<u8>, Seq<u16>),
    per: int,
    need: int,
)
    requires
        per == entries_per_sector(bpb),
        per > 0,
        need >= 1,
        walk_chain(data, bs, bpb, c, fuel, st, Some(tg)) matches Some(w) && !w.stopped,
    ensures
        !walk_until_room(data, bs, bpb, c, fuel, st, Some(tg), per, need).stopped,
    decreases fuel,
{
    if c == FAT_ENTRY_FREE || c >= FAT_ENTRY_RESERVED_START || c < 2 || fuel == 0 {
    } else {
        let n = (bpb.sectors_per_cluster * per) as nat;
        let st2 = walk_slots(data, bs, bpb, c, n, st, Some(tg));
        if cluster_has_room(data, bs, bpb, c, per, need) {
            lemma_room_pos(data, bs, bpb, c, per, need);
            let (t, s) = room_pos(data, bs, bpb, c, per, need);
            assert(t * per + s <= n) by (nonlinear_arith)
                requires
                    0 <= t < bpb.sectors_per_cluster,
                    0 <= s,
                    s + need <= per,
                    need >= 0,
                    n == bpb.sectors_per_cluster * per,
            ;
            assert(t * per + s >= 0) by (nonlinear_arith)
                requires
                    0 <= t,
                    0 <= s,
                    per > 0,
            ;
            if walk_slots(data, bs, bpb, c, (t * per + s) as nat, st, Some(tg)).stopped {
                lemma_walk_slots_stopped(data, bs, bpb, c, (t * per + s) as nat, n, st, Some(tg));
            }
        } else {
            lemma_until_room_of_search(data, bs, bpb, spec_fat_entry(data, bs, bpb, c), (fuel - 1) as nat, st2, tg, per, need);
        }
    }
}

/// The walk of the chain over the data with the entry written finds it.
#[verifier::rlimit(50)]
proof fn lemma_walk_chain_placed(
    d0: Seq<u8>,
    d1: Seq<u8>,
    bs: int,
    bpb: Bpb,
    c: u32,
    fuel: nat,
    st: WalkState,
    tg: (Seq<u8>, Seq<u16>),
    longs: Seq<Seq<u8>>,
    short: Seq<u8>,
    cstar: u32,
    tq: int,
    x: Seq<u8>,
)
    requires
        bpb.bytes_per_sector >= 512,
        bpb.bytes_per_sector <= bs,
        bpb.sectors_per_cluster > 0,
        longs.len() + 1 <= bpb.bytes_per_sector / 32,
        forall|j: int| 0 <= j < longs.len() ==> #[trigger] longs[j].len() == 32,
        forall|j: int| 0 <= j < longs.len() ==> #[trigger] entry_attr(longs[j]) == ATTR_LONG_NAME,
        short.len() == 32,
        entry_attr(short) != ATTR_LONG_NAME,
        !entry_is_free(short),
        entry_named(short, longs, tg),
        chain_has_room(d0, bs, bpb, c, entries_per_sector(bpb), (longs.len() + 1) as int, fuel),
        placed_in_chain(d0, d1, bs, bpb, c, entries_per_sector(bpb), entry_record(longs, short), fuel),
        chain_within(d0, bs, bpb, c, entries_per_sector(bpb), (longs.len() + 1) as int, fuel),
        !walk_until_room(d0, bs, bpb, c, fuel, st, Some(tg), entries_per_sector(bpb), (longs.len() + 1) as int).stopped,
        search_state(st),
        !st.stopped,
        walk_until_room(d0, bs, bpb, c, fuel, st, Some(tg), entries_per_sector(bpb), (longs.len() + 1) as int).pending.len()
            == 0,
        cstar >= 2,
        cluster_has_room(d0, bs, bpb, cstar, entries_per_sector(bpb), (longs.len() + 1) as int),
        0 <= tq < bpb.sectors_per_cluster,
        (spec_cluster_sector(bpb, cstar) + bpb.sectors_per_cluster) * bs <= d0.len(),
        x.len() == bs,
        d1 == write_at(d0, (spec_cluster_sector(bpb, cstar) + tq) * bs, x),
    ensures
        walk_chain(d1, bs, bpb, c, fuel, st, Some(tg)) matches Some(w) && w.stopped && w.found.len() == 1
            && w.found[0].short == short && w.found[0].long == sort_by_order(longs),
    decreases fuel,
{
    let per = (bpb.bytes_per_sector / 32) as int;
    let spc = bpb.sectors_per_cluster as int;
    let need = longs.len() + 1;
    let rec = entry_record(longs, short);
    let n = (bpb.sectors_per_cluster * per) as nat;
    lemma_entry_record_slot(longs, short, 0);
    vstd::arithmetic::div_mod::lemma_fundamental_div_mod_converse(rec.len() as int, 32, need as int, 0);
    assert(rec.len() / 32 == need);
    let st0 = walk_slots(d0, bs, bpb, c, n, st, Some(tg));
    if cluster_has_room(d0, bs, bpb, c, per, need as int) {
        lemma_room_pos(d0, bs, bpb, c, per, need as int);
        let (t, s) = room_pos(d0, bs, bpb, c, per, need as int);
        let q = spec_cluster_sector(bpb, c) + t;
        let k0 = (t * per + s) as nat;
        assert(t * per + s >= 0) by (nonlinear_arith)
            requires
                t >= 0,
                s >= 0,
                per > 0,
        ;
        assert(k0 + need <= n) by (nonlinear_arith)
            requires
                k0 == t * per + s,
                s + need <= per,
                t + 1 <= spc,
                n == spc * per,
                per > 0,
        ;
        lemma_slots_written_cluster(d0, bs, bpb, c, t, s, rec, need as int);
        // the slots before the entry are as they were
        lemma_walk_slots_frame(d0, d1, bs, bpb, c, k0, st, Some(tg));
        assert(walk_until_room(d0, bs, bpb, c, fuel, st, Some(tg), per, need as int) == walk_slots(
            d0,
            bs,
            bpb,
            c,
            k0,
            st,
            Some(tg),
        ));
        assert forall|j: int| 0 <= j <= longs.len() implies #[trigger] slot_bytes(d1, bs, bpb, c, k0 + j)
            == rec.subrange(j * 32, j * 32 + 32) by {
            assert(slot_bytes(d1, bs, bpb, c, t * per + s + j) == rec.subrange(j * 32, j * 32 + 32));
        }
        lemma_walk_window(d1, bs, bpb, c, k0, st, tg, longs, short);
        lemma_walk_slots_stopped(d1, bs, bpb, c, (k0 + need) as nat, n, st, Some(tg));
    } else {
        assert(c != cstar);
        let next = spec_fat_entry(d0, bs, bpb, c);
        let q = spec_cluster_sector(bpb, cstar) + tq;
        assert((q + 1) * bs <= d0.len()) by (nonlinear_arith)
            requires
                q + 1 <= spec_cluster_sector(bpb, cstar) + spc,
                (spec_cluster_sector(bpb, cstar) + spc) * bs <= d0.len(),
                bs > 0,
        ;
        assert forall|u: int| 0 <= u < bpb.sectors_per_cluster implies #[trigger] (spec_cluster_sector(bpb, c) + u) != q by {
            lemma_cluster_sectors_distinct(bpb, c, cstar, u, tq);
        }
        lemma_slots_other_cluster(d0, bs, bpb, q, x, c);
        assert forall|k: int| 0 <= k < n implies #[trigger] slot_bytes(d1, bs, bpb, c, k) == slot_bytes(d0, bs, bpb, c, k) by {
            assert(slot_bytes(write_at(d0, q * bs, x), bs, bpb, c, k) == slot_bytes(d0, bs, bpb, c, k));
        }
        lemma_walk_slots_frame(d0, d1, bs, bpb, c, n, st, Some(tg));
        // the FAT entry read is not in the block written
        let fs = fat_sector(bpb, c);
        assert(fs >= 0);
        assert(q >= data_start(bpb)) by (nonlinear_arith)
            requires
                q == spec_cluster_sector(bpb, cstar) + tq,
                cstar >= 2,
                tq >= 0,
                spc > 0,
                spec_cluster_sector(bpb, cstar) == data_start(bpb) + (cstar - 2) * spc,
        ;
        lemma_block_frame(d0, bs, q, x, fs);
        assert(spec_fat_entry(d1, bs, bpb, c) == next);
        lemma_walk_slots_search(d0, bs, bpb, c, n, st, tg);
        if st0.stopped {
            lemma_until_room_stopped(d0, bs, bpb, next, (fuel - 1) as nat, st0, Some(tg), per, need as int);
        }
        lemma_walk_chain_placed(d0, d1, bs, bpb, next, (fuel - 1) as nat, st0, tg, longs, short, cstar, tq, x);
    }
}

/// The search for an entry written where it goes finds it, when the walk
/// has not found the name before that place.
pub(crate) proof fn lemma_placed_entry_found_walk(
    d0: Seq<u8>,
    d1: Seq<u8>,
    bs: int,
    bpb: Bpb,
    c: u32,
    name: Seq<char>,
    longs: Seq<Seq<u8>>,
    short: Seq<u8>,
)
    requires
        bpb.bytes_per_sector >= 512,
        bpb.bytes_per_sector <= bs,
        bpb.sectors_per_cluster > 0,
        longs.len() + 1 <= entries_per_sector(bpb),
        forall|j: int| 0 <= j < longs.len() ==> #[trigger] longs[j].len() == 32,
        forall|j: int| 0 <= j < longs.len() ==> #[trigger] entry_attr(longs[j]) == ATTR_LONG_NAME,
        short.len() == 32,
        entry_attr(short) != ATTR_LONG_NAME,
        !entry_is_free(short),
        entry_named(short, longs, (encode_utf8(name), encode_utf16(name))),
        !walk_until_room(
            d0,
            bs,
            bpb,
            c,
            DIR_CHAIN_LIMIT as nat,
            walk_init(),
            Some((encode_utf8(name), encode_utf16(name))),
            entries_per_sector(bpb),
            (longs.len() + 1) as int,
        ).stopped,
        chain_has_room(d0, bs, bpb, c, entries_per_sector(bpb), (longs.len() + 1) as int, DIR_CHAIN_LIMIT as nat),
        placed_in_chain(d0, d1, bs, bpb, c, entries_per_sector(bpb), entry_record(longs, short), DIR_CHAIN_LIMIT as nat),
        chain_within(d0, bs, bpb, c, entries_per_sector(bpb), (longs.len() + 1) as int, DIR_CHAIN_LIMIT as nat),
        walk_until_room(
            d0,
            bs,
            bpb,
            c,
            DIR_CHAIN_LIMIT as nat,
            walk_init(),
            Some((encode_utf8(name), encode_utf16(name))),
            entries_per_sector(bpb),
            (longs.len() + 1) as int,
        ).pending.len() == 0,
    ensures
        find_in_dir(d1, bs, bpb, c, name) matches Some(Some(e)) && e.short == short && e.long == sort_by_order(longs),
{
    let tg = (encode_utf8(name), encode_utf16(name));
    let fuel = DIR_CHAIN_LIMIT as nat;
    let rec = entry_record(longs, short);
    let need = (longs.len() + 1) as int;
    lemma_entry_record_slot(longs, short, 0);
    vstd::arithmetic::div_mod::lemma_fundamental_div_mod_converse(rec.len() as int, 32, need, 0);
    assert(rec.len() / 32 == need);
    assert(rec.len() % 32 == 0);
    let r = lemma_placed_block(d0, d1, bs, bpb, c, entries_per_sector(bpb), rec, fuel);
    assert(search_state(walk_init()));
    lemma_walk_chain_placed(d0, d1, bs, bpb, c, fuel, walk_init(), tg, longs, short, r.0, r.1, r.2);
}

/// An entry written into the directory at `c` where `create_file_meta`
/// writes it, in place in the first cluster of the chain with room, is what a
/// search for its name then finds: its short entry, and its long entries
/// sorted. This holds when the name was not in the directory before, when no
/// long entry waits where the entry goes (the walk reaches that slot with
/// nothing pending), and when the chain before it lies within the volume.
pub proof fn lemma_placed_entry_found(
    d0: Seq<u8>,
    d1: Seq<u8>,
    bs: int,
    bpb: Bpb,
    c: u32,
    name: Seq<char>,
    longs: Seq<Seq<u8>>,
    short: Seq<u8>,
)
    requires
        bpb.bytes_per_sector >= 512,
        bpb.bytes_per_sector <= bs,
        bpb.sectors_per_cluster > 0,
        longs.len() + 1 <= entries_per_sector(bpb),
        forall|j: int| 0 <= j < longs.len() ==> #[trigger] longs[j].len() == 32,
        forall|j: int| 0 <= j < longs.len() ==> #[trigger] entry_attr(longs[j]) == ATTR_LONG_NAME,
        short.len() == 32,
        entry_attr(short) != ATTR_LONG_NAME,
        !entry_is_free(short),
        entry_named(short, longs, (encode_utf8(name), encode_utf16(name))),
        find_in_dir(d0, bs, bpb, c, name) == Some(None::<EntryView>),
        chain_has_room(d0, bs, bpb, c, entries_per_sector(bpb), (longs.len() + 1) as int, DIR_CHAIN_LIMIT as nat),
        placed_in_chain(d0, d1, bs, bpb, c, entries_per_sector(bpb), entry_record(longs, short), DIR_CHAIN_LIMIT as nat),
        chain_within(d0, bs, bpb, c, entries_per_sector(bpb), (longs.len() + 1) as int, DIR_CHAIN_LIMIT as nat),
        walk_until_room(
            d0,
            bs,
            bpb,
            c,
            DIR_CHAIN_LIMIT as nat,
            walk_init(),
            Some((encode_utf8(name), encode_utf16(name))),
            entries_per_sector(bpb),
            (longs.len() + 1) as int,
        ).pending.len() == 0,
    ensures
        find_in_dir(d1, bs, bpb, c, name) matches Some(Some(e)) && e.short == short && e.long == sort_by_order(longs),
{
    let tg = (encode_utf8(name), encode_utf16(name));
    let fuel = DIR_CHAIN_LIMIT as nat;
    let need = (longs.len() + 1) as int;
    assert(search_state(walk_init()));
    lemma_walk_chain_search(d0, bs, bpb, c, fuel, walk_init(), tg);
    lemma_until_room_of_search(d0, bs, bpb, c, fuel, walk_init(), tg, entries_per_sector(bpb), need);
    lemma_placed_entry_found_walk(d0, d1, bs, bpb, c, name, longs, short);
}

/// Entries whose order bytes never go down are already sorted.
proof fn lemma_sorted_by_order(es: Seq<Seq<u8>>)
    requires
        forall|i: int| 0 <= i < es.len() ==> #[trigger] es[i].len() > 0,
        forall|i: int, j: int| 0 <= i < j < es.len() ==> es[i][0] <= es[j][0],
    ensures
        sort_by_order(es) == es,
    decreases es.len(),
{
    if es.len() > 0 {
        let init = es.drop_last();
        lemma_sorted_by_order(init);
        if init.len() == 0 {
            assert(es =~= seq![es.last()]);
        } else {
            assert(init.last()[0] <= es.last()[0]);
            assert(init.push(es.last()) =~= es);
        }
    }
}

/// A string without NUL characters has no 0 unit in UTF-16, and a nonempty
/// one has some unit.
pub(crate) proof fn lemma_utf16_nonzero(name: Seq<char>)
    requires
        forall|i: int| 0 <= i < name.len() ==> name[i] != '\0',
    ensures
        forall|i: int| 0 <= i < encode_utf16(name).len() ==> #[trigger] encode_utf16(name)[i] != 0,
        name.len() > 0 ==> encode_utf16(name).len() > 0,
    decreases name.len(),
{
    if name.len() > 0 {
        let c = name[0];
        let rest = name.drop_first();
        lemma_utf16_nonzero(rest);
        let x = c as u32;
        vstd::utf8::char_is_scalar(c);
        vstd::utf8::char_u32_cast(c, x);
        let h = utf16_of_char(c);
        if x < 0x10000 {
            assert(x != 0);
            assert((x as u16) as int == x as int);
            assert(h[0] != 0);
        } else {
            assert(h[0] != 0 && h[1] != 0);
        }
        let e = encode_utf16(name);
        assert(e == h + encode_utf16(rest));
    }
}

/// The long entries built for a name: 32 bytes each, marked long, numbered
/// in order, and spelling the name.
pub(crate) proof fn lemma_built_long_entries(name: Seq<char>)
    requires
        name.len() > 0,
        forall|i: int| 0 <= i < name.len() ==> name[i] != '\0',
        long_entry_count(encode_utf16(name).len() as int) <= 256,
    ensures
        ({
            let longs = long_entries(encode_utf16(name));
            &&& longs.len() > 0
            &&& forall|j: int| 0 <= j < longs.len() ==> #[trigger] longs[j].len() == 32
            &&& forall|j: int| 0 <= j < longs.len() ==> #[trigger] entry_attr(longs[j]) == ATTR_LONG_NAME
            &&& sort_by_order(longs) == longs
        }),
{
    let units = encode_utf16(name);
    let longs = long_entries(units);
    lemma_utf16_nonzero(name);
    vstd::arithmetic::div_mod::lemma_fundamental_div_mod(units.len() as int, 13);
    assert(longs.len() > 0);
    assert forall|j: int| 0 <= j < longs.len() implies #[trigger] longs[j].len() == 32 && longs[j][0] == j as u8
        && entry_attr(longs[j]) == ATTR_LONG_NAME by {
        lemma_long_arrays_of_entry(j as u8, crate::fs::dirent::entry_units(units, j));
    }
    assert forall|j: int| 0 <= j < longs.len() implies #[trigger] entry_attr(longs[j]) == ATTR_LONG_NAME by {
        assert(longs[j].len() == 32);
    }
    assert forall|i: int, j: int| 0 <= i < j < longs.len() implies longs[i][0] <= longs[j][0] by {
        assert(longs[i][0] == i as u8);
        assert(longs[j][0] == j as u8);
    }
    lemma_sorted_by_order(longs);
}

/// The entry made for `name` and written where it goes is found, when the
/// walk has not found the name before that place.
pub(crate) proof fn lemma_created_entry_found_walk(
    d0: Seq<u8>,
    d1: Seq<u8>,
    bs: int,
    bpb: Bpb,
    c: u32,
    name: Seq<char>,
    start_cluster: u32,
    attr: u8,
)
    requires
        bpb.bytes_per_sector >= 512,
        bpb.bytes_per_sector <= bs,
        bpb.sectors_per_cluster > 0,
        name.len() > 0,
        forall|i: int| 0 <= i < name.len() ==> name[i] != '\0',
        long_entry_count(encode_utf16(name).len() as int) <= 256,
        long_entries(encode_utf16(name)).len() + 1 <= entries_per_sector(bpb),
        attr != ATTR_LONG_NAME,
        !walk_until_room(
            d0,
            bs,
            bpb,
            c,
            DIR_CHAIN_LIMIT as nat,
            walk_init(),
            Some((encode_utf8(name), encode_utf16(name))),
            entries_per_sector(bpb),
            (long_entries(encode_utf16(name)).len() + 1) as int,
        ).stopped,
        chain_has_room(
            d0,
            bs,
            bpb,
            c,
            entries_per_sector(bpb),
            (long_entries(encode_utf16(name)).len() + 1) as int,
            DIR_CHAIN_LIMIT as nat,
        ),
        placed_in_chain(
            d0,
            d1,
            bs,
            bpb,
            c,
            entries_per_sector(bpb),
            entry_record(long_entries(encode_utf16(name)), short_entry_bytes(start_cluster, attr)),
            DIR_CHAIN_LIMIT as nat,
        ),
        chain_within(
            d0,
            bs,
            bpb,
            c,
            entries_per_sector(bpb),
            (long_entries(encode_utf16(name)).len() + 1) as int,
            DIR_CHAIN_LIMIT as nat,
        ),
        walk_until_room(
            d0,
            bs,
            bpb,
            c,
            DIR_CHAIN_LIMIT as nat,
            walk_init(),
            Some((encode_utf8(name), encode_utf16(name))),
            entries_per_sector(bpb),
            (long_entries(encode_utf16(name)).len() + 1) as int,
        ).pending.len() == 0,
    ensures
        find_in_dir(d1, bs, bpb, c, name) matches Some(Some(e)) && e.short == short_entry_bytes(start_cluster, attr)
            && e.long == long_entries(encode_utf16(name)),
{
    let units = encode_utf16(name);
    let longs = long_entries(units);
    let short = short_entry_bytes(start_cluster, attr);
    lemma_built_long_entries(name);
    lemma_utf16_nonzero(name);
    lemma_long_entries_match(units);
    vstd::bytes::lemma_auto_spec_u16_to_from_le_bytes();
    assert(short.len() == 32);
    assert(short[0] == 0x3fu8);
    assert(entry_attr(short) == attr);
    assert(entry_named(short, longs, (encode_utf8(name), units)));
    lemma_placed_entry_found_walk(d0, d1, bs, bpb, c, name, longs, short);
}

/// The entry made for `name` (its long entries and the fixed short entry,
/// as `Fat32FileMetadata::new` builds them), once `create_file_meta` has
/// written it in place into the directory at `c`, is what a search for
/// `name` finds. This holds for a nonempty name without NUL characters whose
/// long entries fit in one sector and number at most 256, when the name was
/// not in the directory before, no long entry waits where the entry goes,
/// and the chain before it lies within the volume.
pub proof fn lemma_created_entry_found(
    d0: Seq<u8>,
    d1: Seq<u8>,
    bs: int,
    bpb: Bpb,
    c: u32,
    name: Seq<char>,
    start_cluster: u32,
    attr: u8,
)
    requires
        bpb.bytes_per_sector >= 512,
        bpb.bytes_per_sector <= bs,
        bpb.sectors_per_cluster > 0,
        name.len() > 0,
        forall|i: int| 0 <= i < name.len() ==> name[i] != '\0',
        long_entry_count(encode_utf16(name).len() as int) <= 256,
        long_entries(encode_utf16(name)).len() + 1 <= entries_per_sector(bpb),
        attr != ATTR_LONG_NAME,
        find_in_dir(d0, bs, bpb, c, name) == Some(None::<EntryView>),
        chain_has_room(
            d0,
            bs,
            bpb,
            c,
            entries_per_sector(bpb),
            (long_entries(encode_utf16(name)).len() + 1) as int,
            DIR_CHAIN_LIMIT as nat,
        ),
        placed_in_chain(
            d0,
            d1,
            bs,
            bpb,
            c,
            entries_per_sector(bpb),
            entry_record(long_entries(encode_utf16(name)), short_entry_bytes(start_cluster, attr)),
            DIR_CHAIN_LIMIT as nat,
        ),
        chain_within(
            d0,
            bs,
            bpb,
            c,
            entries_per_sector(bpb),
            (long_entries(encode_utf16(name)).len() + 1) as int,
            DIR_CHAIN_LIMIT as nat,
        ),
        walk_until_room(
            d0,
            bs,
            bpb,
            c,
            DIR_CHAIN_LIMIT as nat,
            walk_init(),
            Some((encode_utf8(name), encode_utf16(name))),
            entries_per_sector(bpb),
            (long_entries(encode_utf16(name)).len() + 1) as int,
        ).pending.len() == 0,
    ensures
        find_in_dir(d1, bs, bpb, c, name) matches Some(Some(e)) && e.short == short_entry_bytes(start_cluster, attr)
            && e.long == long_entries(encode_utf16(name)),
{
    let tg = (encode_utf8(name), encode_utf16(name));
    let fuel = DIR_CHAIN_LIMIT as nat;
    let need = (long_entries(encode_utf16(name)).len() + 1) as int;
    assert(search_state(walk_init()));
    lemma_walk_chain_search(d0, bs, bpb, c, fuel, walk_init(), tg);
    lemma_until_room_of_search(d0, bs, bpb, c, fuel, walk_init(), tg, entries_per_sector(bpb), need);
    lemma_created_entry_found_walk(d0, d1, bs, bpb, c, name, start_cluster, attr);
}

/// A name whose entry can be built and looked up: nonempty, without NUL
/// characters, and with at most 256 long entries.
pub open spec fn plain_name(name: Seq<char>) -> bool {
    &&& name.len() > 0
    &&& forall|i: int| 0 <= i < name.len() ==> name[i] != '\0'
    &&& long_entry_count(encode_utf16(name).len() as int) <= 256
}

/// The directory at `c` has room for the entry of `name` in a sector of its
/// chain, the chain up to there lies within the volume, and no long entry
/// waits where the entry goes.
pub open spec fn entry_goes_in(data: Seq<u8>, bs: int, bpb: Bpb, c: u32, name: Seq<char>) -> bool {
    let need = (long_entries(encode_utf16(name)).len() + 1) as int;
    let per = entries_per_sector(bpb);
    &&& chain_has_room(data, bs, bpb, c, per, need, DIR_CHAIN_LIMIT as nat)
    &&& chain_within(data, bs, bpb, c, per, need, DIR_CHAIN_LIMIT as nat)
    &&& walk_until_room(
        data,
        bs,
        bpb,
        c,
        DIR_CHAIN_LIMIT as nat,
        walk_init(),
        Some((encode_utf8(name), encode_utf16(name))),
        per,
        need,
    ).pending.len() == 0
}

/// Every cluster below `n` has its entry in the first FAT.
pub open spec fn fat_covers(bpb: Bpb, n: int) -> bool {
    forall|x: u32| x < n ==> #[trigger] fat_sector(bpb, x) < bpb.reserved_sector_count + bpb.fat_size_32
}

/// Taking a cluster touches no data sector: at most two FAT copies, the
/// information sector among the reserved ones, the FAT sectors on the
/// device, and every cluster the search for a free one may reach (below the
/// last cluster, and below the hint `hint`) with its entry in the first FAT.
pub open spec fn alloc_within(bpb: Bpb, bs: int, data_len: int, max_cluster: u32, hint: Option<u32>) -> bool {
    &&& bpb.num_fats <= 2
    &&& bpb.fs_info < bpb.reserved_sector_count
    &&& data_start(bpb) * bs <= data_len
    &&& fat_covers(bpb, max_cluster + 2)
    &&& (hint matches Some(h) ==> fat_covers(bpb, h as int))
}

} // verus!
