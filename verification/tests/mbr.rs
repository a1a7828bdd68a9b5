use lib::fs::device::{BlockDevice, BlockDeviceError, MemoryDevice};
use lib::fs::mbr::{
    FormatError, MbrPartitionDevice, MbrPartitionEntry, MountError, PARTITION_TYPE_BOOTLOADER,
    PARTITION_TYPE_FAT32,
};

fn entry(bootable: bool, start: u32, end: u32, partition_type: u8) -> Option<MbrPartitionEntry> {
    Some(MbrPartitionEntry { bootable, start, end, partition_type })
}

#[test]
fn mbr_format_then_mount_gives_the_partitions() {
    let mut dev = MemoryDevice::new(512 * 100, 512);
    let table = [
        entry(true, 1, 50, PARTITION_TYPE_BOOTLOADER),
        None,
        entry(false, 50, 100, PARTITION_TYPE_FAT32),
        None,
    ];
    let formatted = match MbrPartitionDevice::format(&mut dev, table) {
        Ok(p) => p,
        Err(_) => panic!("a valid table"),
    };
    assert_eq!(formatted[0].as_ref().unwrap().get_partition_type(), PARTITION_TYPE_BOOTLOADER);
    assert!(formatted[1].is_none());
    let mounted = match MbrPartitionDevice::mount(&dev) {
        Ok(p) => p,
        Err(_) => panic!("the table just written"),
    };
    assert_eq!(mounted[0].as_ref().unwrap().get_partition_type(), PARTITION_TYPE_BOOTLOADER);
    assert_eq!(mounted[0].as_ref().unwrap().block_count(), 49);
    assert!(mounted[1].is_none());
    assert_eq!(mounted[2].as_ref().unwrap().get_partition_type(), PARTITION_TYPE_FAT32);
    assert_eq!(mounted[2].as_ref().unwrap().block_count(), 50);
    assert!(mounted[3].is_none());
}

#[test]
fn mbr_entry_bytes() {
    let mut dev = MemoryDevice::new(512 * 100, 512);
    let table = [entry(true, 1, 50, 0x0C), None, None, None];
    assert!(MbrPartitionDevice::format(&mut dev, table).is_ok());
    let raw = dev.as_bytes();
    // boot flag, CHS of block 1 (head 0, sector 2, cylinder 0), type,
    // CHS of block 50 (head 0, sector 51, cylinder 0), start 1, 49 blocks
    assert_eq!(&raw[446..462], &[0x80, 0, 2, 0, 0x0C, 0, 51, 0, 1, 0, 0, 0, 49, 0, 0, 0]);
    assert_eq!(&raw[462..510], &[0u8; 48][..]);
}

#[test]
fn mbr_chs_of_a_far_block() {
    // block 48706 is cylinder 3, head 5, sector 8
    let mut dev = MemoryDevice::new(512 * 48800, 512);
    let table = [entry(false, 48706, 48800, 0x0C), None, None, None];
    assert!(MbrPartitionDevice::format(&mut dev, table).is_ok());
    let raw = dev.as_bytes();
    assert_eq!(&raw[447..450], &[5, 8, 3]);
}

#[test]
fn mbr_refuses_bad_entries() {
    let mut dev = MemoryDevice::new(512 * 10, 512);
    let before = dev.as_bytes().clone();
    for bad in [
        entry(false, 0, 5, 0x0C),
        entry(false, 6, 5, 0x0C),
        entry(false, 1, 11, 0x0C),
        entry(false, 1, 5, 0),
    ] {
        let table = [None, bad, None, None];
        assert!(matches!(MbrPartitionDevice::format(&mut dev, table), Err(FormatError::BadArgument)));
    }
    assert_eq!(dev.as_bytes(), &before);
}

#[test]
fn mbr_small_blocks_refused() {
    let mut dev = MemoryDevice::new(256 * 8, 256);
    assert!(matches!(MbrPartitionDevice::mount(&dev), Err(MountError::BlockSizeNotExpected)));
    let table = [None, None, None, None];
    assert!(matches!(
        MbrPartitionDevice::format(&mut dev, table),
        Err(FormatError::BlockSizeNotExpected)
    ));
}

#[test]
fn mbr_mount_skips_entries_past_the_device() {
    let mut dev = MemoryDevice::new(512 * 20, 512);
    // a table written for a larger device
    let mut block0 = vec![0u8; 512];
    block0[446 + 4] = 0x0C;
    block0[446 + 8] = 2;
    block0[446 + 12] = 30;
    block0[462 + 4] = 0x0C;
    block0[462 + 8] = 2;
    block0[462 + 12] = 10;
    assert!(dev.write_block(0, &block0).is_ok());
    let mounted = match MbrPartitionDevice::mount(&dev) {
        Ok(p) => p,
        Err(_) => panic!("readable"),
    };
    assert!(mounted[0].is_none());
    assert_eq!(mounted[1].as_ref().unwrap().block_count(), 10);
}

#[test]
fn mbr_partition_maps_blocks() {
    let mut dev = MemoryDevice::new(512 * 10, 512);
    let table = [entry(false, 4, 8, 0x0C), None, None, None];
    assert!(MbrPartitionDevice::format(&mut dev, table).is_ok());
    let mounted = match MbrPartitionDevice::mount(&dev) {
        Ok(p) => p,
        Err(_) => panic!("readable"),
    };
    let mut part = match mounted {
        [Some(p), _, _, _] => p,
        _ => panic!("partition 0"),
    };
    assert_eq!(part.block_size(), 512);
    assert_eq!(part.block_count(), 4);
    assert!(part.write_block(1, &[7u8; 512]).is_ok());
    assert_eq!(part.read_block(1).ok().unwrap(), vec![7u8; 512]);
    assert!(part.write_block(4, &[7u8; 512]).is_err());
    assert!(part.read_block(4).is_err());
    assert!(part.read_block(0).ok().unwrap().iter().all(|b| *b == 0));
}

#[test]
fn mbr_partition_refuses_blocks_past_its_end() {
    let mut dev = MemoryDevice::new(512 * 100, 512);
    let table = [entry(false, 10, 20, PARTITION_TYPE_FAT32), None, None, None];
    let mut parts = match MbrPartitionDevice::format(&mut dev, table) {
        Ok(p) => p,
        Err(_) => panic!("a valid table"),
    };
    let part = parts[0].as_mut().unwrap();
    assert_eq!(part.block_count(), 10);
    assert_eq!(part.read_block(10), Err(BlockDeviceError::OutOfBounds));
    assert_eq!(part.write_block(10, &[0u8; 512]), Err(BlockDeviceError::OutOfBounds));
    assert!(part.read_block(9).is_ok());
}
