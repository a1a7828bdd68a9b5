use vstd::prelude::*;

use crate::bytes::{le32_at, put_at};
use crate::fs::device::{block_of, write_at};
use crate::fs::fat32::dir::{entries_per_sector, slot_bytes, walk_slots, WalkState};
use crate::fs::fat32::ops::{block_has_room, chain_has_room, cluster_has_room};
use crate::fs::fat32::placement::{
    chain_within, data_start, lemma_room_pos, lemma_room_unique, lemma_walk_slots_frame, room_at, room_pos,
    walk_until_room,
};
use crate::fs::fat32::{
    block_replaced, chain_freed, fat_entry_written, fat_entry_set, fat_offset, fat_sector, spec_cluster_sector, spec_fat_entry, write_copies, Bpb,
    FAT_ENTRY_EOC_START,
    FAT_ENTRY_FREE, FAT_ENTRY_RESERVED_START,
};

verus! {

/// A FAT value that ends a chain: free, or reserved and above.
pub open spec fn ends_chain(v: u32) -> bool {
    v == FAT_ENTRY_FREE || v >= FAT_ENTRY_RESERVED_START
}

/// `d1` is `d0` after cluster `k` was taken for a new chain: the data
/// sectors are as they were, so are the first FAT's entries of the other
/// clusters, and the entry of `k` still ends a chain.
pub open spec fn alloc_frame(d0: Seq<u8>, d1: Seq<u8>, bs: int, bpb: Bpb, k: u32) -> bool {
    &&& d1.len() == d0.len()
    &&& forall|sec: int|
        data_start(bpb) <= sec && (sec + 1) * bs <= d0.len() ==> #[trigger] block_of(d1, bs, sec) == block_of(d0, bs, sec)
    &&& forall|c: u32|
        c != k && fat_sector(bpb, c) < bpb.reserved_sector_count + bpb.fat_size_32 ==> #[trigger] spec_fat_entry(
            d1,
            bs,
            bpb,
            c,
        ) == spec_fat_entry(d0, bs, bpb, c)
    &&& ends_chain(spec_fat_entry(d1, bs, bpb, k))
}

/// The blocks that `write_copies` does not write keep their bytes.
proof fn lemma_write_copies_frame(data: Seq<u8>, bs: int, first: int, stride: int, n: nat, block: Seq<u8>, sec: int)
    requires
        bs > 0,
        block.len() == bs,
        0 <= first,
        0 <= stride,
        (first + (n - 1) * stride + 1) * bs <= data.len() || n == 0,
        0 <= sec,
        (sec + 1) * bs <= data.len(),
        forall|i: int| 0 <= i < n ==> #[trigger] (first + i * stride) != sec,
    ensures
        write_copies(data, bs, first, stride, n, block).len() == data.len(),
        block_of(write_copies(data, bs, first, stride, n, block), bs, sec) == block_of(data, bs, sec),
    decreases n,
{
    if n > 0 {
        let m = (n - 1) as nat;
        if m > 0 {
            assert((first + (m - 1) * stride + 1) * bs <= data.len()) by (nonlinear_arith)
                requires
                    (first + (n - 1) * stride + 1) * bs <= data.len(),
                    m == n - 1,
                    m > 0,
                    stride >= 0,
                    bs > 0,
            ;
        }
        assert forall|i: int| 0 <= i < m implies #[trigger] (first + i * stride) != sec by {
            assert(first + i * stride != sec);
        }
        lemma_write_copies_frame(data, bs, first, stride, m, block, sec);
        let w = write_copies(data, bs, first, stride, m, block);
        let q = first + m * stride;
        assert(q != sec);
        assert(q >= 0) by (nonlinear_arith)
            requires
                first >= 0,
                stride >= 0,
                m >= 0,
                q == first + m * stride,
        ;
        assert((q + 1) * bs <= data.len()) by (nonlinear_arith)
            requires
                (first + (n - 1) * stride + 1) * bs <= data.len(),
                q == first + m * stride,
                m == n - 1,
        ;
        crate::fs::fat32::placement::lemma_block_frame(w, bs, q, block, sec);
        crate::fs::fat32::placement::lemma_block_written(w, bs, q, block);
    }
}

/// `write_copies` keeps the length of the data.
proof fn lemma_write_copies_len(data: Seq<u8>, bs: int, first: int, stride: int, n: nat, block: Seq<u8>)
    requires
        bs > 0,
        block.len() == bs,
        0 <= first,
        0 <= stride,
        (first + (n - 1) * stride + 1) * bs <= data.len() || n == 0,
    ensures
        write_copies(data, bs, first, stride, n, block).len() == data.len(),
    decreases n,
{
    if n > 0 {
        let m = (n - 1) as nat;
        if m > 0 {
            assert((first + (m - 1) * stride + 1) * bs <= data.len()) by (nonlinear_arith)
                requires
                    (first + (n - 1) * stride + 1) * bs <= data.len(),
                    m == n - 1,
                    m > 0,
                    stride >= 0,
                    bs > 0,
            ;
        }
        lemma_write_copies_len(data, bs, first, stride, m, block);
        let w = write_copies(data, bs, first, stride, m, block);
        let q = first + m * stride;
        assert(q >= 0) by (nonlinear_arith)
            requires
                first >= 0,
                stride >= 0,
                m >= 0,
                q == first + m * stride,
        ;
        assert((q + 1) * bs <= data.len()) by (nonlinear_arith)
            requires
                (first + (n - 1) * stride + 1) * bs <= data.len(),
                q == first + m * stride,
                m == n - 1,
        ;
        crate::fs::fat32::placement::lemma_block_written(w, bs, q, block);
    }
}

/// The block that the first copy of `write_copies` writes holds the block,
/// when the other copies go elsewhere.
proof fn lemma_write_copies_first(data: Seq<u8>, bs: int, first: int, stride: int, n: nat, block: Seq<u8>)
    requires
        bs > 0,
        block.len() == bs,
        0 <= first,
        0 < stride,
        n >= 1,
        (first + (n - 1) * stride + 1) * bs <= data.len(),
    ensures
        block_of(write_copies(data, bs, first, stride, n, block), bs, first) == block,
        write_copies(data, bs, first, stride, n, block).len() == data.len(),
    decreases n,
{
    let m = (n - 1) as nat;
    if m == 0 {
        assert((first + 1) * bs <= data.len()) by (nonlinear_arith)
            requires
                (first + (n - 1) * stride + 1) * bs <= data.len(),
                n == 1,
        ;
        assert((n - 1) * stride == 0) by (nonlinear_arith)
            requires
                n == 1,
        ;
        crate::fs::fat32::placement::lemma_block_written(data, bs, first, block);
    } else {
        assert((first + (m - 1) * stride + 1) * bs <= data.len()) by (nonlinear_arith)
            requires
                (first + (n - 1) * stride + 1) * bs <= data.len(),
                m == n - 1,
                m > 0,
                stride > 0,
                bs > 0,
        ;
        lemma_write_copies_first(data, bs, first, stride, m, block);
        let w = write_copies(data, bs, first, stride, m, block);
        let q = first + m * stride;
        assert(q != first) by (nonlinear_arith)
            requires
                m > 0,
                stride > 0,
                q == first + m * stride,
        ;
        assert(q > 0) by (nonlinear_arith)
            requires
                m > 0,
                stride > 0,
                first >= 0,
                q == first + m * stride,
        ;
        assert((first + 1) * bs <= data.len()) by (nonlinear_arith)
            requires
                (first + (n - 1) * stride + 1) * bs <= data.len(),
                n >= 1,
                stride > 0,
                bs > 0,
        ;
        crate::fs::fat32::placement::lemma_block_frame(w, bs, q, block, first);
        assert((q + 1) * bs <= data.len()) by (nonlinear_arith)
            requires
                (first + (n - 1) * stride + 1) * bs <= data.len(),
                q == first + m * stride,
                m == n - 1,
        ;
        crate::fs::fat32::placement::lemma_block_written(w, bs, q, block);
    }
}

/// Four bytes put over `b` leave the `u32` at a place four bytes away as it
/// was, and read back at their own place.
proof fn lemma_le32_put(b: Seq<u8>, at: int, v: Seq<u8>, other: int)
    requires
        v.len() == 4,
        0 <= at,
        at + 4 <= b.len(),
        0 <= other,
        other + 4 <= b.len(),
    ensures
        le32_at(put_at(b, at, v), at) == vstd::bytes::spec_u32_from_le_bytes(v),
        (other + 4 <= at || at + 4 <= other) ==> le32_at(put_at(b, at, v), other) == le32_at(b, other),
{
    let p = put_at(b, at, v);
    assert(p.subrange(at, at + 4) =~= v);
    if other + 4 <= at || at + 4 <= other {
        assert(p.subrange(other, other + 4) =~= b.subrange(other, other + 4));
    }
}

/// Setting the FAT entry of cluster `x` to `v` in every copy leaves the data
/// sectors and the other entries of the first FAT as they were, and the
/// entry of `x` reads `v` where there is a copy.
pub proof fn lemma_fat_set_frame(d0: Seq<u8>, bs: int, bpb: Bpb, x: u32, v: u32)
    requires
        bpb.bytes_per_sector >= 512,
        bpb.bytes_per_sector <= bs,
        bpb.num_fats <= 2,
        fat_sector(bpb, x) < bpb.reserved_sector_count + bpb.fat_size_32,
        data_start(bpb) * bs <= d0.len(),
    ensures
        ({
            let m = fat_entry_set(d0, bs, bpb, x, v);
            &&& m.len() == d0.len()
            &&& forall|sec: int|
                data_start(bpb) <= sec && (sec + 1) * bs <= d0.len() ==> #[trigger] block_of(m, bs, sec) == block_of(
                    d0,
                    bs,
                    sec,
                )
            &&& forall|c: u32|
                c != x && fat_sector(bpb, c) < bpb.reserved_sector_count + bpb.fat_size_32 ==> #[trigger] spec_fat_entry(
                    m,
                    bs,
                    bpb,
                    c,
                ) == spec_fat_entry(d0, bs, bpb, c)
            &&& bpb.num_fats >= 1 ==> spec_fat_entry(m, bs, bpb, x) == v
            &&& bpb.num_fats == 0 ==> m == d0
        }),
{
    let per4 = (bpb.bytes_per_sector / 4) as int;
    let fs = fat_sector(bpb, x);
    let fsz = bpb.fat_size_32 as int;
    let n = bpb.num_fats as nat;
    let blk = put_at(block_of(d0, bs, fs), fat_offset(bpb, x), vstd::bytes::spec_u32_to_le_bytes(v));
    let m = fat_entry_set(d0, bs, bpb, x, v);
    vstd::bytes::lemma_auto_spec_u32_to_from_le_bytes();
    assert(fsz > 0);
    assert(fs >= bpb.reserved_sector_count);
    assert((fs + 1) * bs <= d0.len()) by (nonlinear_arith)
        requires
            fs + 1 <= data_start(bpb),
            data_start(bpb) * bs <= d0.len(),
            bs > 0,
    ;
    assert(fs * bs + bs <= d0.len() && fs * bs >= 0) by (nonlinear_arith)
        requires
            (fs + 1) * bs <= d0.len(),
            fs >= 0,
            bs > 0,
    ;
    assert(block_of(d0, bs, fs).len() == bs);
    let off = fat_offset(bpb, x);
    vstd::arithmetic::div_mod::lemma_fundamental_div_mod(x as int, per4);
    assert(0 <= off && off + 4 <= bpb.bytes_per_sector) by (nonlinear_arith)
        requires
            off == (x as int % per4) * 4,
            0 <= x as int % per4 < per4,
            per4 == bpb.bytes_per_sector / 4,
    ;
    assert(blk.len() == bs);
    if n > 0 {
        assert(fs + (n - 1) * fsz + 1 <= data_start(bpb)) by (nonlinear_arith)
            requires
                1 <= n <= 2,
                fs < bpb.reserved_sector_count + fsz,
                data_start(bpb) == bpb.reserved_sector_count + fsz * 2,
                fsz > 0,
        ;
        assert((fs + (n - 1) * fsz + 1) * bs <= d0.len()) by (nonlinear_arith)
            requires
                fs + (n - 1) * fsz + 1 <= data_start(bpb),
                data_start(bpb) * bs <= d0.len(),
                bs > 0,
        ;
    }
    assert forall|sec: int| data_start(bpb) <= sec && (sec + 1) * bs <= d0.len() implies #[trigger] block_of(m, bs, sec)
        == block_of(d0, bs, sec) by {
        assert forall|i: int| 0 <= i < n implies #[trigger] (fs + i * fsz) != sec by {
            assert(fs + i * fsz < data_start(bpb)) by (nonlinear_arith)
                requires
                    0 <= i < n,
                    n <= 2,
                    fs < bpb.reserved_sector_count + fsz,
                    data_start(bpb) == bpb.reserved_sector_count + fsz * 2,
                    fsz > 0,
            ;
        }
        lemma_write_copies_frame(d0, bs, fs, fsz, n, blk, sec);
    }
    lemma_write_copies_len(d0, bs, fs, fsz, n, blk);
    assert forall|c: u32| c != x && fat_sector(bpb, c) < bpb.reserved_sector_count + bpb.fat_size_32 implies #[trigger] spec_fat_entry(
        m,
        bs,
        bpb,
        c,
    ) == spec_fat_entry(d0, bs, bpb, c) by {
        let fc = fat_sector(bpb, c);
        assert((fc + 1) * bs <= d0.len()) by (nonlinear_arith)
            requires
                fc + 1 <= data_start(bpb),
                data_start(bpb) * bs <= d0.len(),
                bs > 0,
        ;
        assert(fc >= 0);
        let oc = fat_offset(bpb, c);
        vstd::arithmetic::div_mod::lemma_fundamental_div_mod(c as int, per4);
        assert(0 <= oc && oc + 4 <= bpb.bytes_per_sector) by (nonlinear_arith)
            requires
                oc == (c as int % per4) * 4,
                0 <= c as int % per4 < per4,
                per4 == bpb.bytes_per_sector / 4,
        ;
        if fc == fs {
            if n > 0 {
                lemma_write_copies_first(d0, bs, fs, fsz, n, blk);
                assert(x as int % per4 != c as int % per4) by (nonlinear_arith)
                    requires
                        x as int == per4 * (x as int / per4) + x as int % per4,
                        c as int == per4 * (c as int / per4) + c as int % per4,
                        x as int / per4 == c as int / per4,
                        x != c,
                ;
                assert(oc + 4 <= off || off + 4 <= oc);
                lemma_le32_put(block_of(d0, bs, fs), off, vstd::bytes::spec_u32_to_le_bytes(v), oc);
            }
        } else {
            assert forall|i: int| 0 <= i < n implies #[trigger] (fs + i * fsz) != fc by {
                if i > 0 {
                    assert(fs + i * fsz >= bpb.reserved_sector_count + fsz) by (nonlinear_arith)
                        requires
                            i >= 1,
                            fs >= bpb.reserved_sector_count,
                            fsz > 0,
                    ;
                }
            }
            lemma_write_copies_frame(d0, bs, fs, fsz, n, blk, fc);
        }
    }
    if n > 0 {
        lemma_write_copies_first(d0, bs, fs, fsz, n, blk);
        lemma_le32_put(block_of(d0, bs, fs), off, vstd::bytes::spec_u32_to_le_bytes(v), off);
    }
}

/// Taking cluster `k` (its FAT entry set to the end of a chain in every
/// copy, the information sector perhaps rewritten) leaves the data sectors
/// and the other entries of the first FAT as they were.
pub proof fn lemma_alloc_frame(d0: Seq<u8>, d1: Seq<u8>, bs: int, bpb: Bpb, k: u32)
    requires
        bpb.bytes_per_sector >= 512,
        bpb.bytes_per_sector <= bs,
        bpb.num_fats <= 2,
        bpb.fs_info < bpb.reserved_sector_count,
        fat_sector(bpb, k) < bpb.reserved_sector_count + bpb.fat_size_32,
        data_start(bpb) * bs <= d0.len(),
        d1 == fat_entry_set(d0, bs, bpb, k, FAT_ENTRY_EOC_START) || block_replaced(
            fat_entry_set(d0, bs, bpb, k, FAT_ENTRY_EOC_START),
            d1,
            bs,
            bpb.fs_info as int,
        ),
        spec_fat_entry(d0, bs, bpb, k) == FAT_ENTRY_FREE,
    ensures
        alloc_frame(d0, d1, bs, bpb, k),
{
    let m = fat_entry_set(d0, bs, bpb, k, FAT_ENTRY_EOC_START);
    lemma_fat_set_frame(d0, bs, bpb, k, FAT_ENTRY_EOC_START);
    assert(ends_chain(spec_fat_entry(m, bs, bpb, k)));
    if d1 != m {
        let x = choose|x: Seq<u8>| x.len() == bs && d1 == write_at(m, bpb.fs_info * bs, x);
        let fi = bpb.fs_info as int;
        assert((fi + 1) * bs <= m.len()) by (nonlinear_arith)
            requires
                fi + 1 <= data_start(bpb),
                data_start(bpb) * bs <= m.len(),
                bs > 0,
        ;
        assert(fi >= 0);
        crate::fs::fat32::placement::lemma_block_written(m, bs, fi, x);
        assert forall|sec: int| data_start(bpb) <= sec && (sec + 1) * bs <= d0.len() implies #[trigger] block_of(d1, bs, sec)
            == block_of(d0, bs, sec) by {
            crate::fs::fat32::placement::lemma_block_frame(m, bs, fi, x, sec);
            assert(block_of(m, bs, sec) == block_of(d0, bs, sec));
        }
        assert forall|c: u32| fat_sector(bpb, c) < bpb.reserved_sector_count + bpb.fat_size_32 implies #[trigger] spec_fat_entry(
            d1,
            bs,
            bpb,
            c,
        ) == spec_fat_entry(m, bs, bpb, c) by {
            let fc = fat_sector(bpb, c);
            assert((fc + 1) * bs <= m.len()) by (nonlinear_arith)
                requires
                    fc + 1 <= data_start(bpb),
                    data_start(bpb) * bs <= m.len(),
                    bs > 0,
            ;
            assert(fc >= 0);
            crate::fs::fat32::placement::lemma_block_frame(m, bs, fi, x, fc);
        }
        assert(spec_fat_entry(d1, bs, bpb, k) == spec_fat_entry(m, bs, bpb, k));
    }
}

/// After an allocation, a cluster of a directory reads as before: its
/// sectors, its room, the place where an entry goes, and the walk through
/// its slots.
pub(crate) proof fn lemma_cluster_after_alloc(
    d0: Seq<u8>,
    d1: Seq<u8>,
    bs: int,
    bpb: Bpb,
    k: u32,
    c: u32,
    need: int,
    st: WalkState,
    target: Option<(Seq<u8>, Seq<u16>)>,
)
    requires
        alloc_frame(d0, d1, bs, bpb, k),
        bpb.bytes_per_sector >= 512,
        bpb.bytes_per_sector <= bs,
        bpb.sectors_per_cluster > 0,
        c >= 2,
        (spec_cluster_sector(bpb, c) + bpb.sectors_per_cluster) * bs <= d0.len(),
    ensures
        cluster_has_room(d1, bs, bpb, c, entries_per_sector(bpb), need) == cluster_has_room(
            d0,
            bs,
            bpb,
            c,
            entries_per_sector(bpb),
            need,
        ),
        forall|m: nat|
            m <= bpb.sectors_per_cluster * entries_per_sector(bpb) ==> #[trigger] walk_slots(d1, bs, bpb, c, m, st, target)
                == walk_slots(d0, bs, bpb, c, m, st, target),
        cluster_has_room(d0, bs, bpb, c, entries_per_sector(bpb), need) ==> room_pos(
            d1,
            bs,
            bpb,
            c,
            entries_per_sector(bpb),
            need,
        ) == room_pos(d0, bs, bpb, c, entries_per_sector(bpb), need),
{
    let per = entries_per_sector(bpb);
    let spc = bpb.sectors_per_cluster as int;
    let cs = spec_cluster_sector(bpb, c);
    assert forall|u: int| 0 <= u < spc implies #[trigger] block_of(d1, bs, cs + u) == block_of(d0, bs, cs + u) by {
        assert((cs + u + 1) * bs <= d0.len()) by (nonlinear_arith)
            requires
                cs + u + 1 <= cs + spc,
                (cs + spc) * bs <= d0.len(),
                bs > 0,
        ;
        assert(cs + u >= data_start(bpb)) by (nonlinear_arith)
            requires
                cs == data_start(bpb) + (c - 2) * spc,
                c >= 2,
                spc > 0,
                u >= 0,
        ;
    }
    assert(cluster_has_room(d1, bs, bpb, c, per, need) == cluster_has_room(d0, bs, bpb, c, per, need)) by {
        if cluster_has_room(d0, bs, bpb, c, per, need) {
            let u = choose|u: int| 0 <= u < spc && #[trigger] block_has_room(block_of(d0, bs, cs + u), per, need);
            assert(block_of(d1, bs, cs + u) == block_of(d0, bs, cs + u));
        }
        if cluster_has_room(d1, bs, bpb, c, per, need) {
            let u = choose|u: int| 0 <= u < spc && #[trigger] block_has_room(block_of(d1, bs, cs + u), per, need);
            assert(block_of(d1, bs, cs + u) == block_of(d0, bs, cs + u));
        }
    }
    assert forall|j: int| 0 <= j < spc * per implies #[trigger] slot_bytes(d1, bs, bpb, c, j) == slot_bytes(d0, bs, bpb, c, j) by {
        vstd::arithmetic::div_mod::lemma_fundamental_div_mod(j, per);
        assert(0 <= j / per < spc) by (nonlinear_arith)
            requires
                j == per * (j / per) + j % per,
                0 <= j % per < per,
                0 <= j < spc * per,
                per > 0,
        ;
        assert(block_of(d1, bs, cs + j / per) == block_of(d0, bs, cs + j / per));
    }
    assert forall|m: nat| m <= spc * per implies #[trigger] walk_slots(d1, bs, bpb, c, m, st, target) == walk_slots(
        d0,
        bs,
        bpb,
        c,
        m,
        st,
        target,
    ) by {
        assert forall|j: int| 0 <= j < m implies #[trigger] slot_bytes(d1, bs, bpb, c, j) == slot_bytes(d0, bs, bpb, c, j) by {
            assert(slot_bytes(d1, bs, bpb, c, j) == slot_bytes(d0, bs, bpb, c, j));
        }
        lemma_walk_slots_frame(d0, d1, bs, bpb, c, m, st, target);
    }
    if cluster_has_room(d0, bs, bpb, c, per, need) {
        lemma_room_pos(d0, bs, bpb, c, per, need);
        lemma_room_pos(d1, bs, bpb, c, per, need);
        let (t0, s0) = room_pos(d0, bs, bpb, c, per, need);
        let (t1, s1) = room_pos(d1, bs, bpb, c, per, need);
        assert(room_at(d0, bs, bpb, c, per, need, t1, s1)) by {
            assert(block_of(d1, bs, cs + t1) == block_of(d0, bs, cs + t1));
            assert forall|u: int| 0 <= u < t1 implies !(#[trigger] block_has_room(block_of(d0, bs, cs + u), per, need)) by {
                assert(block_of(d1, bs, cs + u) == block_of(d0, bs, cs + u));
            }
        }
        lemma_room_unique(d0, bs, bpb, c, per, need, t0, s0, t1, s1);
    }
}

/// After an allocation of a cluster free in `d0`, a directory chain with
/// room that lies within the volume keeps its room, lies within the volume
/// still, and is walked the same way up to where an entry goes.
pub proof fn lemma_chain_after_alloc(
    d0: Seq<u8>,
    d1: Seq<u8>,
    bs: int,
    bpb: Bpb,
    k: u32,
    c: u32,
    need: int,
    fuel: nat,
    st: WalkState,
    target: Option<(Seq<u8>, Seq<u16>)>,
)
    requires
        alloc_frame(d0, d1, bs, bpb, k),
        spec_fat_entry(d0, bs, bpb, k) == FAT_ENTRY_FREE,
        bpb.bytes_per_sector >= 512,
        bpb.bytes_per_sector <= bs,
        bpb.sectors_per_cluster > 0,
        need >= 1,
        chain_has_room(d0, bs, bpb, c, entries_per_sector(bpb), need, fuel),
        chain_within(d0, bs, bpb, c, entries_per_sector(bpb), need, fuel),
    ensures
        chain_has_room(d1, bs, bpb, c, entries_per_sector(bpb), need, fuel),
        chain_within(d1, bs, bpb, c, entries_per_sector(bpb), need, fuel),
        walk_until_room(d1, bs, bpb, c, fuel, st, target, entries_per_sector(bpb), need) == walk_until_room(
            d0,
            bs,
            bpb,
            c,
            fuel,
            st,
            target,
            entries_per_sector(bpb),
            need,
        ),
    decreases fuel,
{
    let per = entries_per_sector(bpb);
    lemma_cluster_after_alloc(d0, d1, bs, bpb, k, c, need, st, target);
    let n = (bpb.sectors_per_cluster * per) as nat;
    if cluster_has_room(d0, bs, bpb, c, per, need) {
        lemma_room_pos(d0, bs, bpb, c, per, need);
        let (t, s) = room_pos(d0, bs, bpb, c, per, need);
        assert(t * per + s <= n) by (nonlinear_arith)
            requires
                0 <= t < bpb.sectors_per_cluster,
                0 <= s,
                s + need <= per,
                need >= 1,
                n == bpb.sectors_per_cluster * per,
        ;
        assert(t * per + s >= 0) by (nonlinear_arith)
            requires
                0 <= t,
                0 <= s,
                per > 0,
        ;
        assert(walk_slots(d1, bs, bpb, c, (t * per + s) as nat, st, target) == walk_slots(
            d0,
            bs,
            bpb,
            c,
            (t * per + s) as nat,
            st,
            target,
        ));
    } else {
        let next = spec_fat_entry(d0, bs, bpb, c);
        if c == k {
            assert(next == FAT_ENTRY_FREE);
            assert(!chain_has_room(d0, bs, bpb, next, per, need, (fuel - 1) as nat));
            assert(false);
        }
        assert(spec_fat_entry(d1, bs, bpb, c) == next);
        assert(walk_slots(d1, bs, bpb, c, n, st, target) == walk_slots(d0, bs, bpb, c, n, st, target));
        lemma_chain_after_alloc(
            d0,
            d1,
            bs,
            bpb,
            k,
            next,
            need,
            (fuel - 1) as nat,
            walk_slots(d0, bs, bpb, c, n, st, target),
            target,
        );
    }
}

/// The clusters of the chain from `c`, read from the FAT of `data`, in
/// order, for at most `fuel` clusters.
pub open spec fn chain_clusters(data: Seq<u8>, bs: int, bpb: Bpb, c: u32, fuel: nat) -> Seq<u32>
    decreases fuel,
{
    if c == FAT_ENTRY_FREE || c >= FAT_ENTRY_RESERVED_START || fuel == 0 {
        Seq::empty()
    } else {
        seq![c] + chain_clusters(data, bs, bpb, spec_fat_entry(data, bs, bpb, c), (fuel - 1) as nat)
    }
}

/// Cluster `c` has its entry in the first FAT.
pub open spec fn in_fat(bpb: Bpb, c: u32) -> bool {
    fat_sector(bpb, c) < bpb.reserved_sector_count + bpb.fat_size_32
}

/// A layout whose FATs can be written entry by entry on a device of `len`
/// bytes in blocks of `bs`: sectors of at least 512 bytes that fit in a
/// block, one or two FATs, the information sector among the reserved ones,
/// and the FATs on the device.
pub open spec fn fat_geometry(bpb: Bpb, bs: int, len: int) -> bool {
    &&& bpb.bytes_per_sector >= 512
    &&& bpb.bytes_per_sector <= bs
    &&& 1 <= bpb.num_fats <= 2
    &&& bpb.fs_info < bpb.reserved_sector_count
    &&& data_start(bpb) * bs <= len
}

/// Writing the FAT entry of `x` sets that entry and leaves the other
/// entries of the first FAT as they were.
proof fn lemma_fat_written_frame(d0: Seq<u8>, d1: Seq<u8>, bs: int, bpb: Bpb, x: u32, v: u32)
    requires
        fat_geometry(bpb, bs, d0.len() as int),
        in_fat(bpb, x),
        fat_entry_written(d0, d1, bs, bpb, x, v),
    ensures
        d1.len() == d0.len(),
        spec_fat_entry(d1, bs, bpb, x) == v,
        forall|c: u32| c != x && in_fat(bpb, c) ==> #[trigger] spec_fat_entry(d1, bs, bpb, c) == spec_fat_entry(d0, bs, bpb, c),
{
    let m = fat_entry_set(d0, bs, bpb, x, v);
    lemma_fat_set_frame(d0, bs, bpb, x, v);
    if d1 != m {
        let y = choose|y: Seq<u8>| y.len() == bs && d1 == write_at(m, bpb.fs_info * bs, y);
        let fi = bpb.fs_info as int;
        assert((fi + 1) * bs <= m.len()) by (nonlinear_arith)
            requires
                fi + 1 <= data_start(bpb),
                data_start(bpb) * bs <= m.len(),
                bs > 0,
        ;
        assert(fi >= 0);
        crate::fs::fat32::placement::lemma_block_written(m, bs, fi, y);
        assert forall|c: u32| in_fat(bpb, c) implies #[trigger] spec_fat_entry(d1, bs, bpb, c) == spec_fat_entry(
            m,
            bs,
            bpb,
            c,
        ) by {
            let fc = fat_sector(bpb, c);
            assert((fc + 1) * bs <= m.len()) by (nonlinear_arith)
                requires
                    fc + 1 <= data_start(bpb),
                    data_start(bpb) * bs <= m.len(),
                    bs > 0,
            ;
            assert(fc >= 0);
            crate::fs::fat32::placement::lemma_block_frame(m, bs, fi, y, fc);
        }
        assert(spec_fat_entry(d1, bs, bpb, x) == spec_fat_entry(m, bs, bpb, x));
    }
}

/// A chain that does not pass through `x` reads the same from two FATs
/// that differ only in the entry of `x`.
proof fn lemma_chain_clusters_frame(d0: Seq<u8>, d1: Seq<u8>, bs: int, bpb: Bpb, n: u32, fuel: nat, x: u32)
    requires
        !chain_clusters(d0, bs, bpb, n, fuel).contains(x),
        forall|i: int| 0 <= i < chain_clusters(d0, bs, bpb, n, fuel).len() ==> in_fat(bpb, #[trigger] chain_clusters(d0, bs, bpb, n, fuel)[i]),
        forall|c: u32| c != x && in_fat(bpb, c) ==> #[trigger] spec_fat_entry(d1, bs, bpb, c) == spec_fat_entry(d0, bs, bpb, c),
    ensures
        chain_clusters(d1, bs, bpb, n, fuel) == chain_clusters(d0, bs, bpb, n, fuel),
    decreases fuel,
{
    if n == FAT_ENTRY_FREE || n >= FAT_ENTRY_RESERVED_START || fuel == 0 {
    } else {
        let cc = chain_clusters(d0, bs, bpb, n, fuel);
        assert(cc[0] == n);
        assert(in_fat(bpb, cc[0]));
        assert(n != x);
        let nx = spec_fat_entry(d0, bs, bpb, n);
        let rest = chain_clusters(d0, bs, bpb, nx, (fuel - 1) as nat);
        assert(cc == seq![n] + rest);
        assert forall|i: int| 0 <= i < rest.len() implies in_fat(bpb, #[trigger] rest[i]) by {
            assert(cc[i + 1] == rest[i]);
        }
        if rest.contains(x) {
            let i = choose|i: int| 0 <= i < rest.len() && rest[i] == x;
            assert(cc[i + 1] == x);
        }
        lemma_chain_clusters_frame(d0, d1, bs, bpb, nx, (fuel - 1) as nat, x);
    }
}

/// Freeing a chain frees each of its clusters and nothing else: when the
/// chain from `c`, read from the FAT before, visits no cluster twice and
/// each of its clusters has an entry in the first FAT, then after
/// `chain_freed` the entry of every cluster of that chain is
/// `FAT_ENTRY_FREE`, and every other entry of the first FAT is as it was.
pub proof fn lemma_chain_freed_frees_every_cluster(d0: Seq<u8>, d1: Seq<u8>, bs: int, bpb: Bpb, c: u32, fuel: nat)
    requires
        fat_geometry(bpb, bs, d0.len() as int),
        chain_freed(d0, d1, bs, bpb, c, fuel),
        chain_clusters(d0, bs, bpb, c, fuel).no_duplicates(),
        forall|i: int| 0 <= i < chain_clusters(d0, bs, bpb, c, fuel).len() ==> in_fat(bpb, #[trigger] chain_clusters(d0, bs, bpb, c, fuel)[i]),
    ensures
        d1.len() == d0.len(),
        forall|i: int| 0 <= i < chain_clusters(d0, bs, bpb, c, fuel).len() ==> spec_fat_entry(
            d1,
            bs,
            bpb,
            #[trigger] chain_clusters(d0, bs, bpb, c, fuel)[i],
        ) == FAT_ENTRY_FREE,
        forall|y: u32| in_fat(bpb, y) && !chain_clusters(d0, bs, bpb, c, fuel).contains(y) ==> #[trigger] spec_fat_entry(
            d1,
            bs,
            bpb,
            y,
        ) == spec_fat_entry(d0, bs, bpb, y),
    decreases fuel,
{
    if c == FAT_ENTRY_FREE || c >= FAT_ENTRY_RESERVED_START {
    } else if fuel == 0 {
    } else {
        let n0 = spec_fat_entry(d0, bs, bpb, c);
        let k = (fuel - 1) as nat;
        let dm = choose|dm: Seq<u8>|
            fat_entry_written(d0, dm, bs, bpb, c, FAT_ENTRY_FREE) && chain_freed(dm, d1, bs, bpb, n0, k);
        let cc = chain_clusters(d0, bs, bpb, c, fuel);
        let t = chain_clusters(d0, bs, bpb, n0, k);
        assert(cc == seq![c] + t);
        assert(cc[0] == c);
        assert(in_fat(bpb, cc[0]));
        lemma_fat_written_frame(d0, dm, bs, bpb, c, FAT_ENTRY_FREE);
        assert forall|i: int| 0 <= i < t.len() implies in_fat(bpb, #[trigger] t[i]) by {
            assert(cc[i + 1] == t[i]);
        }
        assert(!t.contains(c)) by {
            if t.contains(c) {
                let i = choose|i: int| 0 <= i < t.len() && t[i] == c;
                assert(cc[i + 1] == cc[0]);
            }
        }
        assert(t.no_duplicates()) by {
            assert forall|i: int, j: int| 0 <= i < t.len() && 0 <= j < t.len() && i != j implies t[i] != t[j] by {
                assert(cc[i + 1] == t[i] && cc[j + 1] == t[j]);
            }
        }
        lemma_chain_clusters_frame(d0, dm, bs, bpb, n0, k, c);
        lemma_chain_freed_frees_every_cluster(dm, d1, bs, bpb, n0, k);
        assert forall|i: int| 0 <= i < cc.len() implies spec_fat_entry(d1, bs, bpb, #[trigger] cc[i]) == FAT_ENTRY_FREE by {
            if i == 0 {
                assert(spec_fat_entry(d1, bs, bpb, c) == spec_fat_entry(dm, bs, bpb, c));
            } else {
                assert(cc[i] == t[i - 1]);
            }
        }
        assert forall|y: u32| in_fat(bpb, y) && !cc.contains(y) implies #[trigger] spec_fat_entry(d1, bs, bpb, y)
            == spec_fat_entry(d0, bs, bpb, y) by {
            assert(y != c) by {
                if y == c {
                    assert(cc[0] == y);
                }
            }
            assert(!t.contains(y)) by {
                if t.contains(y) {
                    let i = choose|i: int| 0 <= i < t.len() && t[i] == y;
                    assert(cc[i + 1] == y);
                }
            }
        }
    }
}

} // verus!
