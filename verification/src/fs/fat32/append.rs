use vstd::prelude::*;

use crate::bytes::put_at;
use crate::fs::device::{block_of, write_at, zero_blocks};
use crate::fs::dirent::{
    encode_utf16, entry_attr, entry_is_free, lemma_long_entries_match, long_entries, short_entry_bytes, ATTR_LONG_NAME,
};
use crate::fs::fat32::dir::{
    entries_per_sector, entry_named, find_in_dir, lemma_walk_slots_stopped, slot_bytes, sort_by_order, walk_chain,
    walk_init, walk_slots, EntryView, WalkState, DIR_CHAIN_LIMIT,
};
use crate::fs::fat32::ops::entry_record;
use crate::fs::fat32::placement::{
    data_start, lemma_built_long_entries, lemma_entry_record_slot, lemma_utf16_nonzero, lemma_walk_slots_frame,
    lemma_walk_slots_search, lemma_walk_window, plain_name, search_state,
};
use crate::fs::fat32::{
    block_replaced, fat_entry_set, fat_sector, spec_cluster_sector, spec_fat_entry, Bpb, FAT_ENTRY_EOC_START,
    FAT_ENTRY_FREE, FAT_ENTRY_RESERVED_START,
};

verus! {

/// The last cluster of the chain from `c`, followed for at most `fuel`
/// clusters: `prev` when `c` ends the chain at once, `None` when the chain
/// runs through cluster 0 or 1 or is longer than the fuel.
pub open spec fn chain_last(data: Seq<u8>, bs: int, bpb: Bpb, c: u32, fuel: nat, prev: Option<u32>) -> Option<u32>
    decreases fuel,
{
    if c == FAT_ENTRY_FREE || c >= FAT_ENTRY_RESERVED_START {
        prev
    } else if c < 2 || fuel == 0 {
        None
    } else {
        chain_last(data, bs, bpb, spec_fat_entry(data, bs, bpb, c), (fuel - 1) as nat, Some(c))
    }
}

/// Every cluster of the chain from `c`, followed for at most `fuel`
/// clusters, has its sectors on the device of `data` and its entry in the
/// first FAT.
pub open spec fn chain_inside(data: Seq<u8>, bs: int, bpb: Bpb, c: u32, fuel: nat) -> bool
    decreases fuel,
{
    if c == FAT_ENTRY_FREE || c >= FAT_ENTRY_RESERVED_START || c < 2 || fuel == 0 {
        true
    } else {
        &&& (spec_cluster_sector(bpb, c) + bpb.sectors_per_cluster) * bs <= data.len()
        &&& fat_sector(bpb, c) < bpb.reserved_sector_count + bpb.fat_size_32
        &&& chain_inside(data, bs, bpb, spec_fat_entry(data, bs, bpb, c), (fuel - 1) as nat)
    }
}

/// The FAT value that ends a chain: free, or reserved and above.
pub open spec fn chain_end(v: u32) -> bool {
    v == FAT_ENTRY_FREE || v >= FAT_ENTRY_RESERVED_START
}

/// The last cluster a chain reaches ends it.
proof fn lemma_chain_last_ends(data: Seq<u8>, bs: int, bpb: Bpb, c: u32, fuel: nat, prev: Option<u32>)
    requires
        chain_last(data, bs, bpb, c, fuel, prev) is Some,
        prev matches Some(p) ==> spec_fat_entry(data, bs, bpb, p) == c,
    ensures
        ({
            let l = chain_last(data, bs, bpb, c, fuel, prev)->Some_0;
            chain_end(spec_fat_entry(data, bs, bpb, l))
        }),
    decreases fuel,
{
    if c == FAT_ENTRY_FREE || c >= FAT_ENTRY_RESERVED_START {
    } else {
        lemma_chain_last_ends(data, bs, bpb, spec_fat_entry(data, bs, bpb, c), (fuel - 1) as nat, Some(c));
    }
}

/// The walk of a chain to which cluster `k2`, holding the entry in its first
/// slots, was linked after its last cluster `last` finds the entry, when the
/// walk of the chain before found nothing and left nothing pending.
proof fn lemma_walk_chain_appended(
    d0: Seq<u8>,
    d1: Seq<u8>,
    bs: int,
    bpb: Bpb,
    c: u32,
    fuel: nat,
    st: WalkState,
    tg: (Seq<u8>, Seq<u16>),
    longs: Seq<Seq<u8>>,
    short: Seq<u8>,
    prev: Option<u32>,
    last: u32,
    k2: u32,
)
    requires
        bpb.bytes_per_sector >= 512,
        bpb.bytes_per_sector <= bs,
        bpb.sectors_per_cluster > 0,
        longs.len() + 1 <= entries_per_sector(bpb),
        forall|j: int| 0 <= j < longs.len() ==> #[trigger] longs[j].len() == 32,
        forall|j: int| 0 <= j < longs.len() ==> #[trigger] entry_attr(longs[j]) == ATTR_LONG_NAME,
        short.len() == 32,
        entry_attr(short) != ATTR_LONG_NAME,
        !entry_is_free(short),
        entry_named(short, longs, tg),
        search_state(st),
        !st.stopped,
        walk_chain(d0, bs, bpb, c, fuel, st, Some(tg)) matches Some(w) && !w.stopped && w.pending.len() == 0,
        chain_last(d0, bs, bpb, c, (fuel - 1) as nat, prev) is Some,
        fuel >= 1,
        chain_last(d0, bs, bpb, c, fuel, prev) == Some(last),
        prev matches Some(p) ==> spec_fat_entry(d0, bs, bpb, p) == c,
        !(c == FAT_ENTRY_FREE || c >= FAT_ENTRY_RESERVED_START),
        chain_inside(d0, bs, bpb, c, fuel),
        spec_fat_entry(d0, bs, bpb, last) >= FAT_ENTRY_RESERVED_START,
        spec_fat_entry(d0, bs, bpb, k2) == FAT_ENTRY_FREE,
        2 <= k2 < FAT_ENTRY_RESERVED_START,
        // the data after: the other clusters' sectors kept, the other
        // entries of the first FAT kept, `last` linked to `k2`, and the
        // entry in the first slots of `k2`
        forall|x: u32, j: int|
            x != k2 && x >= 2 && (spec_cluster_sector(bpb, x) + bpb.sectors_per_cluster) * bs <= d0.len() && 0 <= j
                < bpb.sectors_per_cluster * entries_per_sector(bpb) ==> #[trigger] slot_bytes(d1, bs, bpb, x, j)
                == slot_bytes(d0, bs, bpb, x, j),
        forall|x: u32|
            x != last && x != k2 && fat_sector(bpb, x) < bpb.reserved_sector_count + bpb.fat_size_32 ==> #[trigger] spec_fat_entry(
                d1,
                bs,
                bpb,
                x,
            ) == spec_fat_entry(d0, bs, bpb, x),
        spec_fat_entry(d1, bs, bpb, last) == k2,
        forall|j: int|
            0 <= j <= longs.len() ==> #[trigger] slot_bytes(d1, bs, bpb, k2, j) == entry_record(longs, short).subrange(
                j * 32,
                j * 32 + 32,
            ),
    ensures
        walk_chain(d1, bs, bpb, c, fuel, st, Some(tg)) matches Some(w) && w.stopped && w.found.len() == 1
            && w.found[0].short == short && w.found[0].long == sort_by_order(longs),
    decreases fuel,
{
    let per = entries_per_sector(bpb);
    let n = (bpb.sectors_per_cluster * per) as nat;
    let st2 = walk_slots(d0, bs, bpb, c, n, st, Some(tg));
    let nx = spec_fat_entry(d0, bs, bpb, c);
    // c is a cluster of the chain: its slots are kept
    assert(c != k2);
    lemma_walk_slots_frame(d0, d1, bs, bpb, c, n, st, Some(tg));
    lemma_walk_slots_search(d0, bs, bpb, c, n, st, tg);
    assert(!st2.stopped);
    if nx == FAT_ENTRY_FREE || nx >= FAT_ENTRY_RESERVED_START {
        // c is the last cluster; the walk goes on into k2
        assert(chain_last(d0, bs, bpb, nx, (fuel - 1) as nat, Some(c)) == Some(c));
        assert(last == c);
        assert(spec_fat_entry(d1, bs, bpb, c) == k2);
        assert(walk_chain(d0, bs, bpb, nx, (fuel - 1) as nat, st2, Some(tg)) == Some(st2));
        assert(walk_chain(d0, bs, bpb, c, fuel, st, Some(tg)) == Some(st2));
        assert(st2.pending.len() == 0);
        assert(fuel - 1 >= 1) by {
            if fuel == 1 {
                assert(chain_last(d0, bs, bpb, c, 0, prev) is None);
            }
        }
        let f1 = (fuel - 1) as nat;
        assert(walk_slots(d1, bs, bpb, k2, 0, st2, Some(tg)) == st2);
        lemma_walk_window(d1, bs, bpb, k2, 0, st2, tg, longs, short);
        let w = walk_slots(d1, bs, bpb, k2, (longs.len() + 1) as nat, st2, Some(tg));
        assert(longs.len() + 1 <= n) by (nonlinear_arith)
            requires
                longs.len() + 1 <= per,
                n == bpb.sectors_per_cluster * per,
                bpb.sectors_per_cluster >= 1,
        ;
        lemma_walk_slots_stopped(d1, bs, bpb, k2, (longs.len() + 1) as nat, n, st2, Some(tg));
        assert(walk_chain(d1, bs, bpb, k2, f1, st2, Some(tg)) == Some(w));
    } else {
        // c links on within the chain
        lemma_chain_last_ends(d0, bs, bpb, nx, (fuel - 1) as nat, Some(c));
        assert(last != c);
        assert(spec_fat_entry(d1, bs, bpb, c) == nx);
        lemma_walk_chain_appended(
            d0,
            d1,
            bs,
            bpb,
            nx,
            (fuel - 1) as nat,
            st2,
            tg,
            longs,
            short,
            Some(c),
            last,
            k2,
        );
    }
}

/// A block of `bs` zero bytes.
pub open spec fn zero_block(bs: int) -> Seq<u8> {
    Seq::new(bs as nat, |i: int| 0u8)
}

/// `d1` is `d0` with the entry bytes `rec` written into a new cluster `k2`
/// linked after the chain's last cluster `last`: `k2`, free before, is taken
/// (`da` being the data then), its sectors are zeroed, `rec` is written at
/// the start of its first sector, and the FAT entry of `last` is set to
/// `k2`.
pub open spec fn appended_at(
    d0: Seq<u8>,
    d1: Seq<u8>,
    bs: int,
    bpb: Bpb,
    rec: Seq<u8>,
    last: u32,
    k2: u32,
    da: Seq<u8>,
) -> bool {
    let first = spec_cluster_sector(bpb, k2);
    let m = fat_entry_set(d0, bs, bpb, k2, FAT_ENTRY_EOC_START);
    &&& 2 <= k2
    &&& spec_fat_entry(d0, bs, bpb, k2) == FAT_ENTRY_FREE
    &&& (da == m || block_replaced(m, da, bs, bpb.fs_info as int))
    &&& (first + bpb.sectors_per_cluster) * bs <= d0.len()
    &&& d1 == fat_entry_set(
        write_at(
            zero_blocks(da, bs, first, bpb.sectors_per_cluster as nat),
            first * bs,
            put_at(zero_block(bs), 0, rec),
        ),
        bs,
        bpb,
        last,
        k2,
    )
}

/// The blocks that `zero_blocks` does not write keep their bytes; those it
/// writes hold zeros.
pub(crate) proof fn lemma_zero_blocks_frame(data: Seq<u8>, bs: int, first: int, n: nat, sec: int)
    requires
        bs > 0,
        0 <= first,
        (first + n) * bs <= data.len(),
        0 <= sec,
        (sec + 1) * bs <= data.len(),
    ensures
        zero_blocks(data, bs, first, n).len() == data.len(),
        (sec < first || sec >= first + n) ==> block_of(zero_blocks(data, bs, first, n), bs, sec) == block_of(data, bs, sec),
        first <= sec < first + n ==> block_of(zero_blocks(data, bs, first, n), bs, sec) == zero_block(bs),
    decreases n,
{
    if n > 0 {
        let m = (n - 1) as nat;
        assert((first + m) * bs <= data.len()) by (nonlinear_arith)
            requires
                (first + n) * bs <= data.len(),
                m == n - 1,
                bs > 0,
        ;
        lemma_zero_blocks_frame(data, bs, first, m, sec);
        let w = zero_blocks(data, bs, first, m);
        let q = first + m;
        assert((q + 1) * bs <= data.len());
        crate::fs::fat32::placement::lemma_block_written(w, bs, q, zero_block(bs));
        assert(zero_block(bs).len() == bs);
        if sec != q {
            crate::fs::fat32::placement::lemma_block_frame(w, bs, q, zero_block(bs), sec);
        }
    }
}

/// A cluster of the chain that a chain's last cluster was reached from
/// lies within the volume: the last cluster has its entry in the first FAT.
pub(crate) proof fn lemma_chain_last_inside(data: Seq<u8>, bs: int, bpb: Bpb, c: u32, fuel: nat, prev: Option<u32>)
    requires
        chain_last(data, bs, bpb, c, fuel, prev) is Some,
        chain_inside(data, bs, bpb, c, fuel),
        prev matches Some(p) ==> fat_sector(bpb, p) < bpb.reserved_sector_count + bpb.fat_size_32 && p >= 2
            && (spec_cluster_sector(bpb, p) + bpb.sectors_per_cluster) * bs <= data.len(),
    ensures
        ({
            let l = chain_last(data, bs, bpb, c, fuel, prev)->Some_0;
            &&& fat_sector(bpb, l) < bpb.reserved_sector_count + bpb.fat_size_32
            &&& l >= 2
            &&& (spec_cluster_sector(bpb, l) + bpb.sectors_per_cluster) * bs <= data.len()
        }),
    decreases fuel,
{
    if c == FAT_ENTRY_FREE || c >= FAT_ENTRY_RESERVED_START {
    } else {
        lemma_chain_last_inside(data, bs, bpb, spec_fat_entry(data, bs, bpb, c), (fuel - 1) as nat, Some(c));
    }
}

/// What appending an entry in a new cluster leaves and changes: the sectors
/// of the other clusters, the other entries of the first FAT, the link from
/// the last cluster, and the entry in the first slots of the new cluster.
proof fn lemma_appended_frame(
    d0: Seq<u8>,
    d1: Seq<u8>,
    bs: int,
    bpb: Bpb,
    rec: Seq<u8>,
    need: int,
    last: u32,
    k2: u32,
    da: Seq<u8>,
)
    requires
        appended_at(d0, d1, bs, bpb, rec, last, k2, da),
        bpb.bytes_per_sector >= 512,
        bpb.bytes_per_sector <= bs,
        bpb.sectors_per_cluster > 0,
        1 <= bpb.num_fats <= 2,
        bpb.fs_info < bpb.reserved_sector_count,
        data_start(bpb) * bs <= d0.len(),
        fat_sector(bpb, k2) < bpb.reserved_sector_count + bpb.fat_size_32,
        fat_sector(bpb, last) < bpb.reserved_sector_count + bpb.fat_size_32,
        rec.len() == need * 32,
        1 <= need <= entries_per_sector(bpb),
    ensures
        forall|x: u32, j: int|
            x != k2 && x >= 2 && (spec_cluster_sector(bpb, x) + bpb.sectors_per_cluster) * bs <= d0.len() && 0 <= j
                < bpb.sectors_per_cluster * entries_per_sector(bpb) ==> #[trigger] slot_bytes(d1, bs, bpb, x, j)
                == slot_bytes(d0, bs, bpb, x, j),
        forall|x: u32|
            x != last && x != k2 && fat_sector(bpb, x) < bpb.reserved_sector_count + bpb.fat_size_32 ==> #[trigger] spec_fat_entry(
                d1,
                bs,
                bpb,
                x,
            ) == spec_fat_entry(d0, bs, bpb, x),
        spec_fat_entry(d1, bs, bpb, last) == k2,
        forall|j: int| 0 <= j < need ==> #[trigger] slot_bytes(d1, bs, bpb, k2, j) == rec.subrange(j * 32, j * 32 + 32),
{
    let per = entries_per_sector(bpb);
    let spc = bpb.sectors_per_cluster as int;
    let first = spec_cluster_sector(bpb, k2);
    let dz = zero_blocks(da, bs, first, spc as nat);
    let x0 = put_at(zero_block(bs), 0, rec);
    let dw = write_at(dz, first * bs, x0);
    crate::fs::fat32::frame::lemma_alloc_frame(d0, da, bs, bpb, k2);
    assert(first >= data_start(bpb)) by (nonlinear_arith)
        requires
            first == data_start(bpb) + (k2 - 2) * spc,
            k2 >= 2,
            spc > 0,
    ;
    assert((first + 1) * bs <= d0.len()) by (nonlinear_arith)
        requires
            (first + spc) * bs <= d0.len(),
            spc >= 1,
            bs > 0,
    ;
    lemma_zero_blocks_frame(da, bs, first, spc as nat, first);
    assert(per * 32 <= bpb.bytes_per_sector);
    assert(x0.len() == bs);
    crate::fs::fat32::placement::lemma_block_written(dz, bs, first, x0);
    crate::fs::fat32::frame::lemma_fat_set_frame(dw, bs, bpb, last, k2);
    // the data sectors outside the new cluster
    assert forall|sec: int| data_start(bpb) <= sec && (sec + 1) * bs <= d0.len() && (sec < first || sec >= first + spc)
        implies #[trigger] block_of(d1, bs, sec) == block_of(d0, bs, sec) by {
        lemma_zero_blocks_frame(da, bs, first, spc as nat, sec);
        crate::fs::fat32::placement::lemma_block_frame(dz, bs, first, x0, sec);
        assert(block_of(d1, bs, sec) == block_of(dw, bs, sec));
        assert(block_of(da, bs, sec) == block_of(d0, bs, sec));
    }
    assert forall|x: u32, j: int|
        x != k2 && x >= 2 && (spec_cluster_sector(bpb, x) + spc) * bs <= d0.len() && 0 <= j < spc * per implies #[trigger] slot_bytes(
        d1,
        bs,
        bpb,
        x,
        j,
    ) == slot_bytes(d0, bs, bpb, x, j) by {
        let u = j / per;
        vstd::arithmetic::div_mod::lemma_fundamental_div_mod(j, per);
        assert(0 <= u < spc) by (nonlinear_arith)
            requires
                j == per * u + j % per,
                0 <= j % per < per,
                0 <= j < spc * per,
                per > 0,
        ;
        let sec = spec_cluster_sector(bpb, x) + u;
        assert((sec + 1) * bs <= d0.len()) by (nonlinear_arith)
            requires
                sec + 1 <= spec_cluster_sector(bpb, x) + spc,
                (spec_cluster_sector(bpb, x) + spc) * bs <= d0.len(),
                bs > 0,
        ;
        assert(sec >= data_start(bpb)) by (nonlinear_arith)
            requires
                sec == data_start(bpb) + (x - 2) * spc + u,
                x >= 2,
                spc > 0,
                u >= 0,
        ;
        if first <= sec < first + spc {
            crate::fs::fat32::placement::lemma_cluster_sectors_distinct(bpb, x, k2, u, sec - first);
        }
        assert(block_of(d1, bs, sec) == block_of(d0, bs, sec));
    }
    assert forall|x: u32| x != last && x != k2 && fat_sector(bpb, x) < bpb.reserved_sector_count + bpb.fat_size_32 implies #[trigger] spec_fat_entry(
        d1,
        bs,
        bpb,
        x,
    ) == spec_fat_entry(d0, bs, bpb, x) by {
        let fx = fat_sector(bpb, x);
        assert(fx >= 0);
        assert((fx + 1) * bs <= d0.len()) by (nonlinear_arith)
            requires
                fx + 1 <= data_start(bpb),
                data_start(bpb) * bs <= d0.len(),
                bs > 0,
        ;
        lemma_zero_blocks_frame(da, bs, first, spc as nat, fx);
        crate::fs::fat32::placement::lemma_block_frame(dz, bs, first, x0, fx);
        assert(spec_fat_entry(dw, bs, bpb, x) == spec_fat_entry(da, bs, bpb, x));
    }
    assert forall|j: int| 0 <= j < need implies #[trigger] slot_bytes(d1, bs, bpb, k2, j) == rec.subrange(j * 32, j * 32 + 32) by {
        crate::fs::fat32::placement::lemma_slot_split(j, per, 0, j);
        assert(block_of(d1, bs, first) == block_of(dw, bs, first));
        assert(x0.subrange(j * 32, j * 32 + 32) =~= rec.subrange(j * 32, j * 32 + 32));
    }
}

/// The entry made for `name`, written by `create_file_meta` into a new
/// cluster linked after the last cluster of the directory's chain, is what a
/// search for `name` then finds, when the search of the chain before found
/// nothing and left no long entry waiting, the chain ends with an end mark
/// and is shorter than the limit, its clusters and the new one lie within
/// the volume, and there is a FAT copy to link the new cluster in.
pub(crate) proof fn lemma_created_entry_appended(
    d0: Seq<u8>,
    d1: Seq<u8>,
    bs: int,
    bpb: Bpb,
    c: u32,
    name: Seq<char>,
    start_cluster: u32,
    attr: u8,
    last: u32,
    k2: u32,
    da: Seq<u8>,
)
    requires
        bpb.bytes_per_sector >= 512,
        bpb.bytes_per_sector <= bs,
        bpb.sectors_per_cluster > 0,
        1 <= bpb.num_fats <= 2,
        bpb.fs_info < bpb.reserved_sector_count,
        data_start(bpb) * bs <= d0.len(),
        plain_name(name),
        long_entries(encode_utf16(name)).len() + 1 <= entries_per_sector(bpb),
        attr != ATTR_LONG_NAME,
        appended_at(
            d0,
            d1,
            bs,
            bpb,
            entry_record(long_entries(encode_utf16(name)), short_entry_bytes(start_cluster, attr)),
            last,
            k2,
            da,
        ),
        fat_sector(bpb, k2) < bpb.reserved_sector_count + bpb.fat_size_32,
        k2 < FAT_ENTRY_RESERVED_START,
        chain_inside(d0, bs, bpb, c, DIR_CHAIN_LIMIT as nat),
        chain_last(d0, bs, bpb, c, DIR_CHAIN_LIMIT as nat, None) == Some(last),
        spec_fat_entry(d0, bs, bpb, last) >= FAT_ENTRY_RESERVED_START,
        walk_chain(d0, bs, bpb, c, DIR_CHAIN_LIMIT as nat, walk_init(), Some((vstd::utf8::encode_utf8(name), encode_utf16(name))))
            matches Some(w) && !w.stopped && w.pending.len() == 0,
        chain_last(d0, bs, bpb, c, (DIR_CHAIN_LIMIT - 1) as nat, None) is Some,
    ensures
        find_in_dir(d1, bs, bpb, c, name) matches Some(Some(e)) && e.short == short_entry_bytes(start_cluster, attr)
            && e.long == long_entries(encode_utf16(name)),
{
    let units = encode_utf16(name);
    let longs = long_entries(units);
    let short = short_entry_bytes(start_cluster, attr);
    let tg = (vstd::utf8::encode_utf8(name), units);
    let rec = entry_record(longs, short);
    let need = (longs.len() + 1) as int;
    lemma_built_long_entries(name);
    lemma_utf16_nonzero(name);
    lemma_long_entries_match(units);
    vstd::bytes::lemma_auto_spec_u16_to_from_le_bytes();
    assert(short.len() == 32);
    assert(short[0] == 0x3fu8);
    assert(entry_attr(short) == attr);
    assert(entry_named(short, longs, tg));
    lemma_entry_record_slot(longs, short, 0);
    lemma_chain_last_inside(d0, bs, bpb, c, DIR_CHAIN_LIMIT as nat, None);
    lemma_appended_frame(d0, d1, bs, bpb, rec, need, last, k2, da);
    assert forall|j: int| 0 <= j <= longs.len() implies #[trigger] slot_bytes(d1, bs, bpb, k2, j) == rec.subrange(
        j * 32,
        j * 32 + 32,
    ) by {
        assert(slot_bytes(d1, bs, bpb, k2, j) == rec.subrange(j * 32, j * 32 + 32));
    }
    assert(search_state(walk_init()));
    lemma_walk_chain_appended(d0, d1, bs, bpb, c, DIR_CHAIN_LIMIT as nat, walk_init(), tg, longs, short, None, last, k2);
}

/// A chain that ends within some fuel ends the same way with more.
pub(crate) proof fn lemma_chain_last_more(data: Seq<u8>, bs: int, bpb: Bpb, c: u32, fuel: nat, prev: Option<u32>)
    requires
        chain_last(data, bs, bpb, c, fuel, prev) is Some,
    ensures
        chain_last(data, bs, bpb, c, fuel + 1, prev) == chain_last(data, bs, bpb, c, fuel, prev),
    decreases fuel,
{
    if c == FAT_ENTRY_FREE || c >= FAT_ENTRY_RESERVED_START {
    } else {
        lemma_chain_last_more(data, bs, bpb, spec_fat_entry(data, bs, bpb, c), (fuel - 1) as nat, Some(c));
    }
}

/// A chain within the volume for some fuel is within it for less.
pub(crate) proof fn lemma_chain_inside_less(data: Seq<u8>, bs: int, bpb: Bpb, c: u32, fuel: nat)
    requires
        chain_inside(data, bs, bpb, c, fuel + 1),
    ensures
        chain_inside(data, bs, bpb, c, fuel),
    decreases fuel,
{
    if c == FAT_ENTRY_FREE || c >= FAT_ENTRY_RESERVED_START || c < 2 || fuel == 0 {
    } else {
        lemma_chain_inside_less(data, bs, bpb, spec_fat_entry(data, bs, bpb, c), (fuel - 1) as nat);
    }
}

/// After an allocation of a cluster free in `d0`, a chain within the volume
/// that ends with an end mark is followed, walked and searched for room the
/// same way.
pub(crate) proof fn lemma_whole_chain_after_alloc(
    d0: Seq<u8>,
    d1: Seq<u8>,
    bs: int,
    bpb: Bpb,
    k: u32,
    c: u32,
    fuel: nat,
    prev: Option<u32>,
    last: u32,
    st: WalkState,
    target: Option<(Seq<u8>, Seq<u16>)>,
    need: int,
)
    requires
        crate::fs::fat32::frame::alloc_frame(d0, d1, bs, bpb, k),
        spec_fat_entry(d0, bs, bpb, k) == FAT_ENTRY_FREE,
        bpb.bytes_per_sector >= 512,
        bpb.bytes_per_sector <= bs,
        bpb.sectors_per_cluster > 0,
        chain_inside(d0, bs, bpb, c, fuel),
        chain_last(d0, bs, bpb, c, fuel, prev) == Some(last),
        spec_fat_entry(d0, bs, bpb, last) >= FAT_ENTRY_RESERVED_START,
    ensures
        chain_inside(d1, bs, bpb, c, fuel),
        chain_last(d1, bs, bpb, c, fuel, prev) == Some(last),
        walk_chain(d1, bs, bpb, c, fuel, st, target) == walk_chain(d0, bs, bpb, c, fuel, st, target),
        crate::fs::fat32::ops::chain_has_room(d1, bs, bpb, c, entries_per_sector(bpb), need, fuel)
            == crate::fs::fat32::ops::chain_has_room(d0, bs, bpb, c, entries_per_sector(bpb), need, fuel),
    decreases fuel,
{
    if c == FAT_ENTRY_FREE || c >= FAT_ENTRY_RESERVED_START {
    } else {
        let nx = spec_fat_entry(d0, bs, bpb, c);
        let per = entries_per_sector(bpb);
        let n = (bpb.sectors_per_cluster * per) as nat;
        crate::fs::fat32::frame::lemma_cluster_after_alloc(d0, d1, bs, bpb, k, c, need, st, target);
        if nx == FAT_ENTRY_FREE || nx >= FAT_ENTRY_RESERVED_START {
            assert(chain_last(d0, bs, bpb, nx, (fuel - 1) as nat, Some(c)) == Some(c));
            assert(last == c);
        }
        assert(c != k);
        assert(spec_fat_entry(d1, bs, bpb, c) == nx);
        assert(walk_slots(d1, bs, bpb, c, n, st, target) == walk_slots(d0, bs, bpb, c, n, st, target));
        lemma_whole_chain_after_alloc(
            d0,
            d1,
            bs,
            bpb,
            k,
            nx,
            (fuel - 1) as nat,
            Some(c),
            last,
            walk_slots(d0, bs, bpb, c, n, st, target),
            target,
            need,
        );
    }
}

/// The directory at `c` has no room for the entry of `name` in its chain,
/// and its chain lies within the volume, ends with an end mark, is shorter
/// than the limit, and the search for `name` through it finds nothing and
/// leaves no long entry waiting.
pub open spec fn entry_appended_in(data: Seq<u8>, bs: int, bpb: Bpb, c: u32, name: Seq<char>) -> bool {
    let need = (long_entries(encode_utf16(name)).len() + 1) as int;
    let per = entries_per_sector(bpb);
    let tg = (vstd::utf8::encode_utf8(name), encode_utf16(name));
    &&& !crate::fs::fat32::ops::chain_has_room(data, bs, bpb, c, per, need, DIR_CHAIN_LIMIT as nat)
    &&& chain_inside(data, bs, bpb, c, DIR_CHAIN_LIMIT as nat)
    &&& chain_last(data, bs, bpb, c, (DIR_CHAIN_LIMIT - 1) as nat, None) matches Some(l)
        && spec_fat_entry(data, bs, bpb, l) >= FAT_ENTRY_RESERVED_START
    &&& walk_chain(data, bs, bpb, c, DIR_CHAIN_LIMIT as nat, walk_init(), Some(tg)) matches Some(w)
        && w.pending.len() == 0
}

/// A new cluster can be linked into a chain: there is a FAT copy to write
/// the link in, and every cluster the search for a free one may reach is
/// below the reserved values.
pub open spec fn link_within(bpb: Bpb, max_cluster: u32, hint: Option<u32>) -> bool {
    &&& bpb.num_fats >= 1
    &&& max_cluster + 2 <= FAT_ENTRY_RESERVED_START
    &&& (hint matches Some(h) ==> h <= FAT_ENTRY_RESERVED_START)
}

} // verus!
