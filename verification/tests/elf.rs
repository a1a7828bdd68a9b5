use lib::elf::{parse_header, parse_program, ElfFormatError};

fn header() -> Vec<u8> {
    let mut b = vec![0u8; 64];
    b[0..4].copy_from_slice(&[0x7f, b'E', b'L', b'F']);
    b[4] = 2;
    b[5] = 1;
    b[6] = 1;
    b[16..18].copy_from_slice(&2u16.to_le_bytes());
    b[18..20].copy_from_slice(&0x3eu16.to_le_bytes());
    b[20..24].copy_from_slice(&1u32.to_le_bytes());
    b[24..32].copy_from_slice(&0x401000u64.to_le_bytes());
    b[32..40].copy_from_slice(&64u64.to_le_bytes());
    b[54..56].copy_from_slice(&56u16.to_le_bytes());
    b[56..58].copy_from_slice(&3u16.to_le_bytes());
    b
}

#[test]
fn elf_header_accepted() {
    let info = parse_header(&header()).ok().unwrap();
    assert_eq!(info.header.entry_point, 0x401000);
    assert_eq!(info.program_offset, 64);
    assert_eq!(info.program_count, 3);
    assert_eq!(info.header.bits, 2);
}

#[test]
fn elf_header_refused() {
    let mut b = header();
    b[0] = 0;
    assert_eq!(parse_header(&b), Err(ElfFormatError::Format));
    let mut b = header();
    b[4] = 1;
    assert_eq!(parse_header(&b), Err(ElfFormatError::Unsupport));
    let mut b = header();
    b[5] = 2;
    assert_eq!(parse_header(&b), Err(ElfFormatError::Unsupport));
    let mut b = header();
    b[18] = 0x28;
    assert_eq!(parse_header(&b), Err(ElfFormatError::Unsupport));
}

#[test]
fn elf_program_header() {
    let mut p = vec![0u8; 56];
    p[0..4].copy_from_slice(&1u32.to_le_bytes());
    p[4..8].copy_from_slice(&5u32.to_le_bytes());
    p[8..16].copy_from_slice(&0x1000u64.to_le_bytes());
    p[16..24].copy_from_slice(&0x400000u64.to_le_bytes());
    p[32..40].copy_from_slice(&0x20u64.to_le_bytes());
    p[40..48].copy_from_slice(&0x30u64.to_le_bytes());
    p[48..56].copy_from_slice(&0x1000u64.to_le_bytes());
    let prog = parse_program(&p).ok().unwrap();
    assert_eq!(prog.p_vaddr, 0x400000);
    assert_eq!(prog.p_memsz, 0x30);
    p[40..48].copy_from_slice(&0x10u64.to_le_bytes());
    assert_eq!(parse_program(&p), Err(ElfFormatError::Format));
    p[40..48].copy_from_slice(&0x30u64.to_le_bytes());
    p[48..56].copy_from_slice(&0x2000u64.to_le_bytes());
    assert_eq!(parse_program(&p), Err(ElfFormatError::Unsupport));
}

use lib::elf::{load_plan, ElfFile, ElfProgram, LoadLog, LoadStep};
use lib::io::MemoryReader;

fn program_header(ty: u32, flag: u32, offset: u64, vaddr: u64, filesz: u64, memsz: u64) -> Vec<u8> {
    let mut p = vec![0u8; 56];
    p[0..4].copy_from_slice(&ty.to_le_bytes());
    p[4..8].copy_from_slice(&flag.to_le_bytes());
    p[8..16].copy_from_slice(&offset.to_le_bytes());
    p[16..24].copy_from_slice(&vaddr.to_le_bytes());
    p[32..40].copy_from_slice(&filesz.to_le_bytes());
    p[40..48].copy_from_slice(&memsz.to_le_bytes());
    p
}

fn file_image() -> Vec<u8> {
    let mut h = header();
    h[56..58].copy_from_slice(&2u16.to_le_bytes());
    let mut f = h;
    f.extend(program_header(1, 5, 176, 0x1000, 600, 700));
    f.extend(program_header(4, 4, 0, 0, 0, 0));
    f.extend((0..600u32).map(|i| (i % 251) as u8));
    f
}

#[test]
fn elf_from_memory_and_load() {
    let image = file_image();
    let mut elf = match ElfFile::from_io(MemoryReader::new(image.clone())) {
        Ok(f) => f,
        Err(_) => panic!("a valid file"),
    };
    assert_eq!(elf.header().entry_point, 0x401000);
    assert_eq!(elf.programs().len(), 2);
    assert_eq!(elf.programs()[0].p_filesz, 600);
    let mut loader = LoadLog::new();
    assert!(elf.load(&mut loader).is_ok());
    assert_eq!(
        loader.requests,
        vec![
            LoadStep::Alloc { addr: 0x1000, size: 700, readable: true, writable: false, executable: true },
            LoadStep::Copy { addr: 0x1000, len: 512 },
            LoadStep::Copy { addr: 0x1200, len: 88 },
            LoadStep::Clear { addr: 0x1258, len: 100 },
        ]
    );
    assert_eq!(loader.written.len(), 2);
    assert_eq!(&loader.written[0][..], &image[176..688]);
    assert_eq!(&loader.written[1][..], &image[688..776]);
}

#[test]
fn elf_truncated_file() {
    let image = file_image();
    assert!(ElfFile::from_io(MemoryReader::new(image[..100].to_vec())).is_err());
}

#[test]
fn elf_load_plan_steps() {
    let programs = vec![
        ElfProgram { program_type: 2, flag: 0, p_offset: 0, p_vaddr: 0, p_filesz: 0, p_memsz: 0 },
        ElfProgram { program_type: 1, flag: 6, p_offset: 64, p_vaddr: 0x2000, p_filesz: 1100, p_memsz: 1100 },
    ];
    assert_eq!(
        load_plan(&programs),
        vec![
            LoadStep::Alloc { addr: 0x2000, size: 1100, readable: true, writable: true, executable: false },
            LoadStep::Seek { offset: 64 },
            LoadStep::Copy { addr: 0x2000, len: 512 },
            LoadStep::Copy { addr: 0x2200, len: 512 },
            LoadStep::Copy { addr: 0x2400, len: 76 },
        ]
    );
}
