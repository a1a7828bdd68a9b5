use vstd::bytes::{
    spec_u16_from_le_bytes, spec_u32_from_le_bytes, spec_u64_from_le_bytes, u16_from_le_bytes,
    u32_from_le_bytes, u64_from_le_bytes,
};
use vstd::prelude::*;
use vstd::slice::slice_subrange;
use vstd::wrapping::u64_specs;

use crate::io::{AsyncRead, AsyncReadExt, ReadExactError, Seekable};

verus! {

/// Size of the ELF file header.
pub const ELF_HEADER_SIZE: u64 = 64;

/// Size of one program header entry.
pub const PROGRAM_HEADER_SIZE: u64 = 56;

/// Size of the buffer in which segment data is copied.
pub const LOAD_CHUNK: u64 = 512;

/// An executable read from a source `Io`.
pub struct ElfFile<Io> {
    io: Io,
    header: ElfHeader,
    program: Vec<ElfProgram>,
}

#[derive(Debug, Clone, Copy, PartialEq, Eq, Structural)]
pub struct ElfHeader {
    pub bits: u8,
    pub endian: u8,
    pub abi: u8,
    pub elf_type: u16,
    pub instruction: u16,
    pub entry_point: u64,
}

/// One program header: a segment of the file and where it goes in memory.
#[derive(Debug, Clone, Copy, PartialEq, Eq, Structural)]
pub struct ElfProgram {
    pub program_type: u32,
    pub flag: u32,
    pub p_offset: u64,
    pub p_vaddr: u64,
    pub p_filesz: u64,
    pub p_memsz: u64,
}

/// Why an executable could not be read.
pub enum ElfReadError<RE, SE> {
    Read(ReadExactError<RE>),
    Seek(SE),
    Format,
    Unsupport,
}

/// Why an executable could not be loaded.
pub enum ElfLoadError<RE, SE, LE> {
    Read(ReadExactError<RE>),
    Seek(SE),
    Load(LE),
}

/// Why header bytes were refused.
#[derive(Debug, Clone, Copy, PartialEq, Eq, Structural)]
pub enum ElfFormatError {
    Format,
    Unsupport,
}

/// What the header tells: the header itself, where the program headers are and
/// how many.
#[derive(Debug, Clone, Copy, PartialEq, Eq, Structural)]
pub struct HeaderInfo {
    pub header: ElfHeader,
    pub program_offset: u64,
    pub program_count: u16,
}

/// The memory into which an executable is loaded.
pub trait Loader {
    type LoaderError;

    /// The requests the loader was handed, oldest first: a write is kept as
    /// a copy of its address and length, its bytes in `spec_written`.
    spec fn spec_requests(&self) -> Seq<LoadStep>;

    /// The bytes of the writes the loader was handed, oldest first.
    spec fn spec_written(&self) -> Seq<Seq<u8>>;

    fn alloc_static(
        &mut self,
        addr: u64,
        size: u64,
        readable: bool,
        writable: bool,
        executable: bool,
    ) -> (r: Result<(), Self::LoaderError>)
        ensures
            final(self).spec_requests() == old(self).spec_requests().push(
                LoadStep::Alloc { addr, size, readable, writable, executable },
            ),
            final(self).spec_written() == old(self).spec_written(),
    ;

    fn write_to_memory(&mut self, addr: u64, data: &[u8]) -> (r: Result<(), Self::LoaderError>)
        ensures
            final(self).spec_requests() == old(self).spec_requests().push(
                LoadStep::Copy { addr, len: data@.len() as u64 },
            ),
            final(self).spec_written() == old(self).spec_written().push(data@),
    ;

    fn clear_memory(&mut self, addr: u64, len: u64) -> (r: Result<(), Self::LoaderError>)
        ensures
            final(self).spec_requests() == old(self).spec_requests().push(LoadStep::Clear { addr, len }),
            final(self).spec_written() == old(self).spec_written(),
    ;
}

/// A loader that only keeps what it is handed: a dry run of a loading.
pub struct LoadLog {
    pub requests: Vec<LoadStep>,
    pub written: Vec<Vec<u8>>,
}

impl LoadLog {
    /// A log of nothing.
    pub fn new() -> (l: LoadLog)
        ensures
            l.spec_requests() == Seq::<LoadStep>::empty(),
            l.spec_written() == Seq::<Seq<u8>>::empty(),
    {
        let l = LoadLog { requests: Vec::new(), written: Vec::new() };
        proof {
            assert(l.written@.map_values(|v: Vec<u8>| v@) =~= Seq::<Seq<u8>>::empty());
        }
        l
    }
}

impl Loader for LoadLog {
    type LoaderError = ();

    open spec fn spec_requests(&self) -> Seq<LoadStep> {
        self.requests@
    }

    open spec fn spec_written(&self) -> Seq<Seq<u8>> {
        self.written@.map_values(|v: Vec<u8>| v@)
    }

    fn alloc_static(
        &mut self,
        addr: u64,
        size: u64,
        readable: bool,
        writable: bool,
        executable: bool,
    ) -> (r: Result<(), ()>) {
        self.requests.push(LoadStep::Alloc { addr, size, readable, writable, executable });
        Ok(())
    }

    fn write_to_memory(&mut self, addr: u64, data: &[u8]) -> (r: Result<(), ()>) {
        let mut bytes: Vec<u8> = Vec::new();
        let mut k: usize = 0;
        while k < data.len()
            invariant
                k <= data@.len(),
                bytes@ == data@.take(k as int),
            decreases data@.len() - k,
        {
            bytes.push(data[k]);
            k = k + 1;
            proof {
                assert(bytes@ =~= data@.take(k as int));
            }
        }
        proof {
            assert(data@.take(data@.len() as int) =~= data@);
        }
        self.requests.push(LoadStep::Copy { addr, len: data.len() as u64 });
        let ghost w0 = self.written@;
        self.written.push(bytes);
        proof {
            assert(self.written@.map_values(|v: Vec<u8>| v@) =~= w0.map_values(|v: Vec<u8>| v@).push(data@));
        }
        Ok(())
    }

    fn clear_memory(&mut self, addr: u64, len: u64) -> (r: Result<(), ()>) {
        self.requests.push(LoadStep::Clear { addr, len });
        Ok(())
    }
}

pub open spec fn le16(b: Seq<u8>, i: int) -> u16 {
    spec_u16_from_le_bytes(b.subrange(i, i + 2))
}

pub open spec fn le32(b: Seq<u8>, i: int) -> u32 {
    spec_u32_from_le_bytes(b.subrange(i, i + 4))
}

pub open spec fn le64(b: Seq<u8>, i: int) -> u64 {
    spec_u64_from_le_bytes(b.subrange(i, i + 8))
}

/// The header fields read from the 64 header bytes.
pub open spec fn spec_header_info(b: Seq<u8>) -> HeaderInfo {
    HeaderInfo {
        header: ElfHeader {
            bits: b[4],
            endian: b[5],
            abi: b[7],
            elf_type: le16(b, 16),
            instruction: le16(b, 18),
            entry_point: le64(b, 24),
        },
        program_offset: le64(b, 32),
        program_count: le16(b, 56),
    }
}

/// The checks of the header, in the order they are made: the magic number,
/// 64 bits, little endian, header version 1, System V ABI, an executable, for
/// x86-64, ELF version 1, and program headers of 56 bytes.
pub open spec fn spec_parse_header(b: Seq<u8>) -> Result<HeaderInfo, ElfFormatError> {
    if b[0] != 0x7f || b[1] != 0x45 || b[2] != 0x4c || b[3] != 0x46 {
        Err(ElfFormatError::Format)
    } else if b[4] != 2 {
        if b[4] == 1 {
            Err(ElfFormatError::Unsupport)
        } else {
            Err(ElfFormatError::Format)
        }
    } else if b[5] != 1 {
        if b[5] == 2 {
            Err(ElfFormatError::Unsupport)
        } else {
            Err(ElfFormatError::Format)
        }
    } else if b[6] != 1 || b[7] != 0 || le16(b, 16) != 2 || le16(b, 18) != 0x3e || le32(b, 20)
        != 1 || le16(b, 54) != 56 {
        Err(ElfFormatError::Unsupport)
    } else {
        Ok(spec_header_info(b))
    }
}

/// The program header read from its 56 bytes: a segment larger in the file than
/// in memory is malformed, an alignment above 4096 unsupported.
pub open spec fn spec_parse_program(b: Seq<u8>) -> Result<ElfProgram, ElfFormatError> {
    if le64(b, 32) > le64(b, 40) {
        Err(ElfFormatError::Format)
    } else if le64(b, 48) > 0x1000 {
        Err(ElfFormatError::Unsupport)
    } else {
        Ok(
            ElfProgram {
                program_type: le32(b, 0),
                flag: le32(b, 4),
                p_offset: le64(b, 8),
                p_vaddr: le64(b, 16),
                p_filesz: le64(b, 32),
                p_memsz: le64(b, 40),
            },
        )
    }
}

fn read_le16(b: &[u8], i: usize) -> (x: u16)
    requires
        i + 2 <= b@.len(),
    ensures
        x == le16(b@, i as int),
{
    u16_from_le_bytes({
        let _n = b.len();
        slice_subrange(b, i, i + 2)
    })
}

fn read_le32(b: &[u8], i: usize) -> (x: u32)
    requires
        i + 4 <= b@.len(),
    ensures
        x == le32(b@, i as int),
{
    u32_from_le_bytes({
        let _n = b.len();
        slice_subrange(b, i, i + 4)
    })
}

fn read_le64(b: &[u8], i: usize) -> (x: u64)
    requires
        i + 8 <= b@.len(),
    ensures
        x == le64(b@, i as int),
{
    u64_from_le_bytes({
        let _n = b.len();
        slice_subrange(b, i, i + 8)
    })
}

/// Checks the 64 header bytes and reads the header from them.
pub fn parse_header(b: &[u8]) -> (r: Result<HeaderInfo, ElfFormatError>)
    requires
        b@.len() == ELF_HEADER_SIZE,
    ensures
        r == spec_parse_header(b@),
{
    if b[0] != 0x7f || b[1] != 0x45 || b[2] != 0x4c || b[3] != 0x46 {
        return Err(ElfFormatError::Format);
    }
    let bits = b[4];
    let endian = b[5];
    let header_version = b[6];
    let abi = b[7];
    let elf_type = read_le16(b, 16);
    let instruction = read_le16(b, 18);
    let elf_version = read_le32(b, 20);
    let entry_point = read_le64(b, 24);
    let program_offset = read_le64(b, 32);
    let program_size = read_le16(b, 54);
    let program_entry_count = read_le16(b, 56);
    if bits != 2 {
        if bits == 1 {
            return Err(ElfFormatError::Unsupport);
        }
        return Err(ElfFormatError::Format);
    }
    if endian != 1 {
        if endian == 2 {
            return Err(ElfFormatError::Unsupport);
        }
        return Err(ElfFormatError::Format);
    }
    if header_version != 1 || abi != 0 || elf_type != 2 || instruction != 0x3e || elf_version != 1
        || program_size != 56 {
        return Err(ElfFormatError::Unsupport);
    }
    Ok(
        HeaderInfo {
            header: ElfHeader { bits, endian, abi, elf_type, instruction, entry_point },
            program_offset,
            program_count: program_entry_count,
        },
    )
}

/// Checks the 56 bytes of a program header and reads it.
pub fn parse_program(b: &[u8]) -> (r: Result<ElfProgram, ElfFormatError>)
    requires
        b@.len() == PROGRAM_HEADER_SIZE,
    ensures
        r == spec_parse_program(b@),
{
    let program_type = read_le32(b, 0);
    let flag = read_le32(b, 4);
    let p_offset = read_le64(b, 8);
    let p_vaddr = read_le64(b, 16);
    let p_filesz = read_le64(b, 32);
    let p_memsz = read_le64(b, 40);
    let align = read_le64(b, 48);
    if p_filesz > p_memsz {
        return Err(ElfFormatError::Format);
    }
    if align > 0x1000 {
        return Err(ElfFormatError::Unsupport);
    }
    Ok(ElfProgram { program_type, flag, p_offset, p_vaddr, p_filesz, p_memsz })
}

/// The read error for a refused header.
fn format_error<RE, SE>(e: ElfFormatError) -> (r: ElfReadError<RE, SE>)
    ensures
        e == ElfFormatError::Format ==> r is Format,
        e == ElfFormatError::Unsupport ==> r is Unsupport,
{
    match e {
        ElfFormatError::Format => ElfReadError::Format,
        ElfFormatError::Unsupport => ElfReadError::Unsupport,
    }
}

/// Program header `i` in the bytes `d` of a file whose program headers
/// start at `off`.
pub open spec fn program_bytes(d: Seq<u8>, off: int, i: int) -> Seq<u8> {
    d.subrange(off + 56 * i, off + 56 * i + 56)
}

/// One step of loading an executable into memory.
#[derive(Debug, Clone, Copy, PartialEq, Eq, Structural)]
pub enum LoadStep {
    /// Reserve `size` bytes at `addr` with these permissions.
    Alloc { addr: u64, size: u64, readable: bool, writable: bool, executable: bool },
    /// Move the file position to `offset`.
    Seek { offset: u64 },
    /// Copy the next `len` file bytes to `addr`.
    Copy { addr: u64, len: u64 },
    /// Clear `len` bytes at `addr`.
    Clear { addr: u64, len: u64 },
}

/// The copy of `remain` file bytes to `addr`, in chunks of at most
/// [`LOAD_CHUNK`] bytes.
pub open spec fn copy_steps(addr: u64, remain: u64) -> Seq<LoadStep>
    decreases remain,
{
    if remain == 0 {
        Seq::empty()
    } else {
        let step: u64 = if remain < LOAD_CHUNK {
            remain
        } else {
            LOAD_CHUNK
        };
        seq![LoadStep::Copy { addr, len: step }] + copy_steps(
            u64_specs::wrapping_add(addr, step),
            (remain - step) as u64,
        )
    }
}

/// The steps that load one program: a loadable segment (type 1) gets its
/// memory with the permissions of its flags, its file bytes, and zeros for
/// the rest of its memory; other programs get nothing.
pub open spec fn program_steps(p: ElfProgram) -> Seq<LoadStep> {
    if p.program_type != 1 {
        Seq::empty()
    } else {
        seq![
            LoadStep::Alloc {
                addr: p.p_vaddr,
                size: p.p_memsz,
                readable: (p.flag & 4) != 0,
                writable: (p.flag & 2) != 0,
                executable: (p.flag & 1) != 0,
            },
            LoadStep::Seek { offset: p.p_offset },
        ] + copy_steps(p.p_vaddr, p.p_filesz) + if p.p_filesz < p.p_memsz {
            seq![
                LoadStep::Clear {
                    addr: u64_specs::wrapping_add(p.p_vaddr, p.p_filesz),
                    len: (p.p_memsz - p.p_filesz) as u64,
                },
            ]
        } else {
            Seq::empty()
        }
    }
}

/// The steps that load the programs, in order.
pub open spec fn spec_load_plan(ps: Seq<ElfProgram>) -> Seq<LoadStep>
    decreases ps.len(),
{
    if ps.len() == 0 {
        Seq::empty()
    } else {
        spec_load_plan(ps.drop_last()) + program_steps(ps.last())
    }
}

/// The plan for the first `j` programs is the start of the plan for all.
proof fn lemma_plan_prefix(ps: Seq<ElfProgram>, j: int)
    requires
        0 <= j <= ps.len(),
    ensures
        spec_load_plan(ps.take(j)).len() <= spec_load_plan(ps).len(),
        spec_load_plan(ps).take(spec_load_plan(ps.take(j)).len() as int) == spec_load_plan(ps.take(j)),
    decreases ps.len(),
{
    if j == ps.len() {
        assert(ps.take(j) =~= ps);
        assert(spec_load_plan(ps).take(spec_load_plan(ps).len() as int) =~= spec_load_plan(ps));
    } else {
        lemma_plan_prefix(ps.drop_last(), j);
        assert(ps.drop_last().take(j) =~= ps.take(j));
        let a = spec_load_plan(ps.drop_last());
        let b = program_steps(ps.last());
        let n = spec_load_plan(ps.take(j)).len() as int;
        assert((a + b).take(n) =~= a.take(n));
    }
}

/// Loading a loadable program (type 1) begins, right after the steps of
/// the programs before it, with the allocation of its memory, `p_memsz`
/// bytes at `p_vaddr`, readable exactly when flag bit 4 (PF_R) is set,
/// writable exactly when bit 2 (PF_W) is set and executable exactly when
/// bit 1 (PF_X) is set; then the file position moves to its bytes.
pub proof fn lemma_plan_allocates_with_flags(ps: Seq<ElfProgram>, i: int)
    requires
        0 <= i < ps.len(),
        ps[i].program_type == 1,
    ensures
        ({
            let k = spec_load_plan(ps.take(i)).len() as int;
            let plan = spec_load_plan(ps);
            &&& k + 1 < plan.len()
            &&& plan[k] == LoadStep::Alloc {
                addr: ps[i].p_vaddr,
                size: ps[i].p_memsz,
                readable: ps[i].flag & 4 == 4,
                writable: ps[i].flag & 2 == 2,
                executable: ps[i].flag & 1 == 1,
            }
            &&& plan[k + 1] == LoadStep::Seek { offset: ps[i].p_offset }
        }),
{
    let p = ps[i];
    lemma_plan_prefix(ps, i + 1);
    assert(ps.take(i + 1).drop_last() =~= ps.take(i));
    assert(ps.take(i + 1).last() == p);
    let k = spec_load_plan(ps.take(i)).len() as int;
    let whole = spec_load_plan(ps);
    let upto = spec_load_plan(ps.take(i + 1));
    assert(upto == spec_load_plan(ps.take(i)) + program_steps(p));
    assert(upto[k] == whole[k]);
    assert(upto[k + 1] == whole[k + 1]);
    let f = p.flag;
    assert((f & 4 != 0) == (f & 4 == 4) && (f & 2 != 0) == (f & 2 == 2) && (f & 1 != 0) == (f & 1 == 1))
        by (bit_vector);
}

/// The bytes the copy steps among `steps` move, together.
pub open spec fn copied_bytes(steps: Seq<LoadStep>) -> int
    decreases steps.len(),
{
    if steps.len() == 0 {
        0
    } else {
        copied_bytes(steps.drop_last()) + match steps.last() {
            LoadStep::Copy { len, .. } => len as int,
            _ => 0,
        }
    }
}

proof fn lemma_copied_bytes_front(x: LoadStep, s: Seq<LoadStep>)
    ensures
        copied_bytes(seq![x] + s) == copied_bytes(seq![x]) + copied_bytes(s),
    decreases s.len(),
{
    if s.len() > 0 {
        lemma_copied_bytes_front(x, s.drop_last());
        assert((seq![x] + s).drop_last() =~= seq![x] + s.drop_last());
    } else {
        assert(seq![x] + s =~= seq![x]);
    }
    assert(seq![x].drop_last() =~= Seq::<LoadStep>::empty());
    assert(seq![x].last() == x);
}

/// The copies of a segment's file bytes: each step copies from 1 to
/// [`LOAD_CHUNK`] bytes, starting where the bytes copied before it end
/// (addresses wrap at 2^64), and together they copy exactly `remain` bytes.
#[verifier::rlimit(40)]
pub proof fn lemma_copy_steps_cover(addr: u64, remain: u64)
    ensures
        copied_bytes(copy_steps(addr, remain)) == remain,
        forall|j: int|
            0 <= j < copy_steps(addr, remain).len() ==> (#[trigger] copy_steps(addr, remain)[j] matches LoadStep::Copy {
                addr: a,
                len,
            } && 1 <= len <= LOAD_CHUNK && a as int == (addr as int + copied_bytes(copy_steps(addr, remain).take(j)))
                % 0x1_0000_0000_0000_0000),
    decreases remain,
{
    let cs = copy_steps(addr, remain);
    if remain == 0 {
    } else {
        let step: u64 = if remain < LOAD_CHUNK {
            remain
        } else {
            LOAD_CHUNK
        };
        let a1 = u64_specs::wrapping_add(addr, step);
        let rest = copy_steps(a1, (remain - step) as u64);
        let x = LoadStep::Copy { addr, len: step };
        lemma_copy_steps_cover(a1, (remain - step) as u64);
        assert(cs == seq![x] + rest);
        assert(copied_bytes(seq![x]) == step) by {
            assert(seq![x].drop_last() =~= Seq::<LoadStep>::empty());
            assert(seq![x].last() == x);
            assert(copied_bytes(Seq::<LoadStep>::empty()) == 0);
        }
        lemma_copied_bytes_front(x, rest);
        let m: int = 0x1_0000_0000_0000_0000;
        assert(a1 as int == (addr as int + step) % m) by {
            if addr as int + step > u64::MAX {
                vstd::arithmetic::div_mod::lemma_fundamental_div_mod(addr as int + step, m);
                assert((addr as int + step) / m == 1) by (nonlinear_arith)
                    requires
                        m <= addr as int + step < 2 * m,
                        m > 0,
                ;
            } else {
                vstd::arithmetic::div_mod::lemma_small_mod((addr as int + step) as nat, m as nat);
            }
        }
        assert forall|j: int| 0 <= j < cs.len() implies (#[trigger] cs[j] matches LoadStep::Copy { addr: a, len }
            && 1 <= len <= LOAD_CHUNK && a as int == (addr as int + copied_bytes(cs.take(j))) % m) by {
            if j == 0 {
                assert(cs.take(0) =~= Seq::<LoadStep>::empty());
                vstd::arithmetic::div_mod::lemma_small_mod(addr as nat, m as nat);
            } else {
                let r = rest[j - 1];
                assert(cs[j] == r);
                assert(cs.take(j) =~= seq![x] + rest.take(j - 1));
                lemma_copied_bytes_front(x, rest.take(j - 1));
                let t = copied_bytes(rest.take(j - 1));
                assert(r matches LoadStep::Copy { addr: a, len } && a as int == (a1 as int + t) % m);
                lemma_copied_bytes_bounds(rest, j - 1);
                assert(0 <= t <= remain - step);
                vstd::arithmetic::div_mod::lemma_add_mod_noop(addr as int + step, t, m);
                vstd::arithmetic::div_mod::lemma_small_mod(t as nat, m as nat);
                vstd::arithmetic::div_mod::lemma_mod_twice(addr as int + step, m);
            }
        }
    }
}

/// The bytes copied by the first `j` copy steps of a segment lie between
/// nothing and everything its steps copy.
proof fn lemma_copied_bytes_bounds(s: Seq<LoadStep>, j: int)
    requires
        0 <= j <= s.len(),
        forall|k: int| 0 <= k < s.len() ==> (#[trigger] s[k] matches LoadStep::Copy { len, .. } && len >= 1),
    ensures
        0 <= copied_bytes(s.take(j)) <= copied_bytes(s),
    decreases s.len(),
{
    if j == s.len() {
        assert(s.take(j) =~= s);
        if s.len() > 0 {
            assert forall|k: int| 0 <= k < s.drop_last().len() implies (#[trigger] s.drop_last()[k] matches LoadStep::Copy { len, .. }
                && len >= 1) by {
                assert(s.drop_last()[k] == s[k]);
            }
            lemma_copied_bytes_bounds(s.drop_last(), j - 1);
            assert(s.drop_last().take(j - 1) =~= s.drop_last());
        }
    } else {
        assert forall|k: int| 0 <= k < s.drop_last().len() implies (#[trigger] s.drop_last()[k] matches LoadStep::Copy { len, .. }
            && len >= 1) by {
            assert(s.drop_last()[k] == s[k]);
        }
        lemma_copied_bytes_bounds(s.drop_last(), j);
        assert(s.drop_last().take(j) =~= s.take(j));
    }
}

/// The rest of the steps of program `i`: a program that is not loadable
/// (type other than 1) adds no step; a loadable one, after its allocation
/// and seek, copies its file bytes to its address (see
/// [`lemma_copy_steps_cover`]) and, when its memory is larger than its file
/// bytes, clears the rest of its memory, `p_memsz - p_filesz` bytes right
/// after the copied ones; the next program's steps follow.
pub proof fn lemma_plan_loads_program(ps: Seq<ElfProgram>, i: int)
    requires
        0 <= i < ps.len(),
    ensures
        ({
            let p = ps[i];
            let k = spec_load_plan(ps.take(i)).len() as int;
            let end = spec_load_plan(ps.take(i + 1)).len() as int;
            let plan = spec_load_plan(ps);
            let cs = copy_steps(p.p_vaddr, p.p_filesz);
            let n = cs.len() as int;
            &&& end <= plan.len()
            &&& p.program_type != 1 ==> end == k
            &&& p.program_type == 1 ==> {
                &&& k + 2 + n <= end
                &&& plan.subrange(k + 2, k + 2 + n) == cs
                &&& copied_bytes(plan.subrange(k + 2, k + 2 + n)) == p.p_filesz
                &&& p.p_filesz < p.p_memsz ==> end == k + 3 + n && plan[k + 2 + n] == LoadStep::Clear {
                    addr: ((p.p_vaddr + p.p_filesz) % 0x1_0000_0000_0000_0000) as u64,
                    len: (p.p_memsz - p.p_filesz) as u64,
                }
                &&& p.p_filesz >= p.p_memsz ==> end == k + 2 + n
            }
        }),
{
    let p = ps[i];
    lemma_plan_prefix(ps, i + 1);
    assert(ps.take(i + 1).drop_last() =~= ps.take(i));
    assert(ps.take(i + 1).last() == p);
    let k = spec_load_plan(ps.take(i)).len() as int;
    let whole = spec_load_plan(ps);
    let upto = spec_load_plan(ps.take(i + 1));
    assert(upto == spec_load_plan(ps.take(i)) + program_steps(p));
    if p.program_type == 1 {
        let cs = copy_steps(p.p_vaddr, p.p_filesz);
        let n = cs.len() as int;
        let head = seq![
            LoadStep::Alloc {
                addr: p.p_vaddr,
                size: p.p_memsz,
                readable: (p.flag & 4) != 0,
                writable: (p.flag & 2) != 0,
                executable: (p.flag & 1) != 0,
            },
            LoadStep::Seek { offset: p.p_offset },
        ];
        let tail = if p.p_filesz < p.p_memsz {
            seq![
                LoadStep::Clear {
                    addr: u64_specs::wrapping_add(p.p_vaddr, p.p_filesz),
                    len: (p.p_memsz - p.p_filesz) as u64,
                },
            ]
        } else {
            Seq::<LoadStep>::empty()
        };
        let steps = program_steps(p);
        assert(steps == head + cs + tail);
        assert(steps.len() == 2 + n + tail.len());
        assert(whole.take(upto.len() as int) == upto);
        assert forall|j: int| 0 <= j < n implies #[trigger] whole[k + 2 + j] == cs[j] by {
            assert(steps[2 + j] == cs[j]);
            assert(upto[k + 2 + j] == steps[2 + j]);
            assert(whole.take(upto.len() as int)[k + 2 + j] == whole[k + 2 + j]);
        }
        assert(upto.len() == k + steps.len());
        assert(k + 2 + n <= whole.len());
        assert forall|j: int| 0 <= j < n implies #[trigger] whole.subrange(k + 2, k + 2 + n)[j] == cs[j] by {
            assert(whole[k + 2 + j] == cs[j]);
        }
        assert(whole.subrange(k + 2, k + 2 + n) =~= cs);
        lemma_copy_steps_cover(p.p_vaddr, p.p_filesz);
        if p.p_filesz < p.p_memsz {
            assert(steps[2 + n] == tail[0]);
            assert(upto[k + 2 + n] == steps[2 + n]);
            assert(whole.take(upto.len() as int)[k + 2 + n] == whole[k + 2 + n]);
            let m: int = 0x1_0000_0000_0000_0000;
            let v = p.p_vaddr as int + p.p_filesz;
            if v > u64::MAX {
                vstd::arithmetic::div_mod::lemma_fundamental_div_mod(v, m);
                assert(v / m == 1) by (nonlinear_arith)
                    requires
                        m <= v < 2 * m,
                        m > 0,
                ;
            } else {
                vstd::arithmetic::div_mod::lemma_small_mod(v as nat, m as nat);
            }
        }
    }
}

/// The steps that load the programs, in order.
pub fn load_plan(programs: &Vec<ElfProgram>) -> (r: Vec<LoadStep>)
    ensures
        r@ == spec_load_plan(programs@),
{
    let mut plan: Vec<LoadStep> = Vec::new();
    let mut i: usize = 0;
    proof {
        assert(programs@.take(0) =~= Seq::<ElfProgram>::empty());
    }
    while i < programs.len()
        invariant
            i <= programs@.len(),
            plan@ == spec_load_plan(programs@.take(i as int)),
        decreases programs@.len() - i,
    {
        let p = programs[i];
        let ghost base = plan@;
        proof {
            assert(programs@.take(i + 1).drop_last() =~= programs@.take(i as int));
            assert(programs@.take(i + 1).last() == p);
        }
        if p.program_type == 1 {
            plan.push(
                LoadStep::Alloc {
                    addr: p.p_vaddr,
                    size: p.p_memsz,
                    readable: (p.flag & 4) != 0,
                    writable: (p.flag & 2) != 0,
                    executable: (p.flag & 1) != 0,
                },
            );
            plan.push(LoadStep::Seek { offset: p.p_offset });
            let ghost head = plan@;
            let mut addr = p.p_vaddr;
            let mut remain = p.p_filesz;
            proof {
                assert(head + copy_steps(addr, remain) =~= head + copy_steps(p.p_vaddr, p.p_filesz));
            }
            while remain > 0
                invariant
                    plan@ + copy_steps(addr, remain) == head + copy_steps(p.p_vaddr, p.p_filesz),
                decreases remain,
            {
                let step = if remain < LOAD_CHUNK {
                    remain
                } else {
                    LOAD_CHUNK
                };
                let ghost before = plan@;
                plan.push(LoadStep::Copy { addr, len: step });
                proof {
                    assert(before + copy_steps(addr, remain) =~= plan@ + copy_steps(
                        u64_specs::wrapping_add(addr, step),
                        (remain - step) as u64,
                    ));
                }
                addr = addr.wrapping_add(step);
                remain = remain - step;
            }
            proof {
                assert(plan@ =~= head + copy_steps(p.p_vaddr, p.p_filesz));
            }
            if p.p_filesz < p.p_memsz {
                plan.push(
                    LoadStep::Clear {
                        addr: p.p_vaddr.wrapping_add(p.p_filesz),
                        len: p.p_memsz - p.p_filesz,
                    },
                );
            }
            proof {
                assert(plan@ =~= base + program_steps(p));
            }
        } else {
            proof {
                assert(plan@ =~= base + program_steps(p));
            }
        }
        i = i + 1;
    }
    proof {
        assert(programs@.take(programs@.len() as int) =~= programs@);
    }
    plan
}

impl<Io: AsyncRead + Seekable> ElfFile<Io> {
    pub closed spec fn spec_header(&self) -> ElfHeader {
        self.header
    }

    pub closed spec fn spec_programs(&self) -> Seq<ElfProgram> {
        self.program@
    }

    /// The bytes of the file.
    pub closed spec fn spec_data(&self) -> Seq<u8> {
        self.io.spec_data()
    }

    /// Where the next read of the file starts.
    pub closed spec fn spec_pos(&self) -> int {
        self.io.spec_pos()
    }

    /// Reads the header from the first 64 bytes and the program headers it
    /// announces, one after another from the offset it gives.
    pub fn from_io(io: Io) -> (r: Result<Self, ElfReadError<Io::ReadError, Io::SeekError>>)
        ensures
            r matches Ok(f) ==> {
                let d = io.spec_data();
                let hb = d.subrange(0, 64);
                let info = spec_header_info(hb);
                &&& 64 <= d.len()
                &&& spec_parse_header(hb) == Ok::<HeaderInfo, ElfFormatError>(info)
                &&& f.spec_header() == info.header
                &&& f.spec_programs().len() == info.program_count
                &&& forall|i: int|
                    0 <= i < f.spec_programs().len() ==> spec_parse_program(
                        #[trigger] program_bytes(d, info.program_offset as int, i),
                    ) == Ok::<ElfProgram, ElfFormatError>(f.spec_programs()[i])
            },
            r matches Err(ElfReadError::Format) ==> bad_file(io.spec_data(), ElfFormatError::Format),
            r matches Err(ElfReadError::Unsupport) ==> bad_file(
                io.spec_data(),
                ElfFormatError::Unsupport,
            ),
    {
        let ghost d = io.spec_data();
        let mut file = io;
        match file.seek(0) {
            Ok(_) => {},
            Err(e) => return Err(ElfReadError::Seek(e)),
        }
        let header_buffer = match file.read_exact(ELF_HEADER_SIZE) {
            Ok(v) => v,
            Err(e) => return Err(ElfReadError::Read(e)),
        };
        let info = match parse_header(header_buffer.as_slice()) {
            Ok(info) => info,
            Err(e) => return Err(format_error(e)),
        };
        let ghost off = info.program_offset as int;
        match file.seek(info.program_offset) {
            Ok(_) => {},
            Err(e) => return Err(ElfReadError::Seek(e)),
        }
        let mut program: Vec<ElfProgram> = Vec::new();
        let mut i: u16 = 0;
        while i < info.program_count
            invariant
                i <= info.program_count,
                program@.len() == i,
                file.spec_data() == d,
                d == io.spec_data(),
                64 <= d.len(),
                header_buffer@ == d.subrange(0, 64),
                spec_parse_header(header_buffer@) == Ok::<HeaderInfo, ElfFormatError>(info),
                off == info.program_offset,
                file.spec_pos() == off + 56 * i,
                forall|k: int|
                    0 <= k < i ==> spec_parse_program(#[trigger] program_bytes(d, off, k)) == Ok::<
                        ElfProgram,
                        ElfFormatError,
                    >(program@[k]),
            decreases info.program_count - i,
        {
            let buffer = match file.read_exact(PROGRAM_HEADER_SIZE) {
                Ok(v) => v,
                Err(e) => return Err(ElfReadError::Read(e)),
            };
            proof {
                assert(buffer@ == program_bytes(d, off, i as int));
            }
            let p = match parse_program(buffer.as_slice()) {
                Ok(p) => p,
                Err(e) => {
                    proof {
                        let hb = d.subrange(0, 64);
                        assert(spec_header_info(hb) == info);
                        assert(spec_parse_program(program_bytes(d, off, i as int)) == Err::<
                            ElfProgram,
                            ElfFormatError,
                        >(e));
                        assert(bad_file(d, e));
                    }
                    return Err(format_error(e));
                },
            };
            program.push(p);
            i = i + 1;
        }
        Ok(ElfFile { io: file, header: info.header, program })
    }

    pub fn header(&self) -> (h: &ElfHeader)
        ensures
            *h == self.spec_header(),
    {
        &self.header
    }

    /// The program headers.
    pub fn programs(&self) -> (p: &Vec<ElfProgram>)
        ensures
            p@ == self.spec_programs(),
    {
        &self.program
    }

    /// Loads every loadable segment by carrying out the steps of
    /// [`load_plan`] in order: reserving memory, moving the file position,
    /// copying file bytes and clearing memory; the first failed step ends the
    /// loading.
    pub fn load<L: Loader>(&mut self, loader: &mut L) -> (r: Result<
        (),
        ElfLoadError<Io::ReadError, Io::SeekError, L::LoaderError>,
    >)
        ensures
            final(self).spec_header() == old(self).spec_header(),
            final(self).spec_programs() == old(self).spec_programs(),
            final(self).spec_data() == old(self).spec_data(),
            spec_load_plan(old(self).spec_programs()).len() == 0 ==> r is Ok,
            r is Ok ==> ({
                let e = load_effect(spec_load_plan(old(self).spec_programs()), old(self).spec_data(), old(self).spec_pos());
                &&& final(loader).spec_requests() == old(loader).spec_requests() + e.0
                &&& final(loader).spec_written() == old(loader).spec_written() + e.1
                &&& final(self).spec_pos() == e.2
            }),
            r is Err ==> exists|i: int|
                0 <= i < spec_load_plan(old(self).spec_programs()).len() && #[trigger] handed_through(
                    final(loader).spec_requests(),
                    old(loader).spec_requests(),
                    spec_load_plan(old(self).spec_programs()),
                    old(self).spec_data(),
                    old(self).spec_pos(),
                    i,
                ),
    {
        let plan = load_plan(&self.program);
        let mut i: usize = 0;
        let ghost d = self.io.spec_data();
        let ghost p0 = self.io.spec_pos();
        let ghost q0 = loader.spec_requests();
        let ghost w0 = loader.spec_written();
        proof {
            assert(plan@.take(0) =~= Seq::<LoadStep>::empty());
        }
        while i < plan.len()
            invariant
                0 <= i <= plan@.len(),
                plan@ == spec_load_plan(old(self).spec_programs()),
                self.spec_header() == old(self).spec_header(),
                self.spec_programs() == old(self).spec_programs(),
                d == old(self).spec_data(),
                p0 == old(self).spec_pos(),
                q0 == old(loader).spec_requests(),
                w0 == old(loader).spec_written(),
                self.io.spec_data() == d,
                loader.spec_requests() == q0 + load_effect(plan@.take(i as int), d, p0).0,
                loader.spec_written() == w0 + load_effect(plan@.take(i as int), d, p0).1,
                self.io.spec_pos() == load_effect(plan@.take(i as int), d, p0).2,
            decreases plan@.len() - i,
        {
            proof {
                assert(plan@.take(i + 1).drop_last() =~= plan@.take(i as int));
                assert(plan@.take(i + 1).last() == plan@[i as int]);
            }
            match plan[i] {
                LoadStep::Alloc { addr, size, readable, writable, executable } => {
                    match loader.alloc_static(addr, size, readable, writable, executable) {
                        Ok(_) => {},
                        Err(e) => {
                            proof {
                                assert(handed_through(loader.spec_requests(), q0, plan@, d, p0, i as int));
                            }
                            return Err(ElfLoadError::Load(e));
                        },
                    }
                },
                LoadStep::Seek { offset } => {
                    match self.io.seek(offset) {
                        Ok(_) => {},
                        Err(e) => {
                            proof {
                                assert(handed_through(loader.spec_requests(), q0, plan@, d, p0, i as int));
                            }
                            return Err(ElfLoadError::Seek(e));
                        },
                    }
                },
                LoadStep::Copy { addr, len } => {
                    let buf = match self.io.read_exact(len) {
                        Ok(v) => v,
                        Err(e) => {
                            proof {
                                assert(handed_through(loader.spec_requests(), q0, plan@, d, p0, i as int));
                            }
                            return Err(ElfLoadError::Read(e));
                        },
                    };
                    proof {
                        if len == 0 {
                            assert(buf@ =~= Seq::<u8>::empty());
                        }
                    }
                    match loader.write_to_memory(addr, buf.as_slice()) {
                        Ok(_) => {},
                        Err(e) => {
                            proof {
                                assert(handed_through(loader.spec_requests(), q0, plan@, d, p0, i as int));
                            }
                            return Err(ElfLoadError::Load(e));
                        },
                    }
                },
                LoadStep::Clear { addr, len } => {
                    match loader.clear_memory(addr, len) {
                        Ok(_) => {},
                        Err(e) => {
                            proof {
                                assert(handed_through(loader.spec_requests(), q0, plan@, d, p0, i as int));
                            }
                            return Err(ElfLoadError::Load(e));
                        },
                    }
                },
            }
            i = i + 1;
        }
        proof {
            assert(plan@.take(plan@.len() as int) =~= plan@);
        }
        Ok(())
    }
}

/// The requests `reqs` a loader holds are those it held before and what the
/// steps of `plan` before step `i`, or through step `i`, hand it.
pub open spec fn handed_through(
    reqs: Seq<LoadStep>,
    before: Seq<LoadStep>,
    plan: Seq<LoadStep>,
    data: Seq<u8>,
    pos: int,
    i: int,
) -> bool {
    ||| reqs == before + load_effect(plan.take(i), data, pos).0
    ||| reqs == before + load_effect(plan.take(i + 1), data, pos).0
}

/// What carrying out the steps of `plan` hands a loader, reading the file
/// `data` from position `pos` on: the requests (the seeks left out), the
/// bytes of each copy, and the file position at the end.
pub open spec fn load_effect(plan: Seq<LoadStep>, data: Seq<u8>, pos: int) -> (Seq<LoadStep>, Seq<Seq<u8>>, int)
    decreases plan.len(),
{
    if plan.len() == 0 {
        (Seq::empty(), Seq::empty(), pos)
    } else {
        let (reqs, written, p) = load_effect(plan.drop_last(), data, pos);
        match plan.last() {
            LoadStep::Seek { offset } => (reqs, written, offset as int),
            LoadStep::Copy { addr, len } => (
                reqs.push(plan.last()),
                written.push(
                    if len == 0 {
                        Seq::empty()
                    } else {
                        data.subrange(p, p + len)
                    },
                ),
                p + len,
            ),
            _ => (reqs.push(plan.last()), written, p),
        }
    }
}

/// The file `d` was refused with `kind`: its header, or one of the program
/// headers the header announces.
pub open spec fn bad_file(d: Seq<u8>, kind: ElfFormatError) -> bool {
    let hb = d.subrange(0, 64);
    let info = spec_header_info(hb);
    &&& 64 <= d.len()
    &&& spec_parse_header(hb) == Err::<HeaderInfo, ElfFormatError>(kind) || (spec_parse_header(hb) is Ok
        && exists|i: int|
        0 <= i < info.program_count && spec_parse_program(
            #[trigger] program_bytes(d, info.program_offset as int, i),
        ) == Err::<ElfProgram, ElfFormatError>(kind))
}

} // verus!
