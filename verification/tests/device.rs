use lib::fs::device::{BlockDevice, BlockDeviceError, MemoryDevice};

#[test]
fn memory_device_rounds_up_to_blocks() {
    let d = MemoryDevice::new(1000, 512);
    assert_eq!(d.block_count(), 2);
    assert_eq!(d.block_size(), 512);
    assert_eq!(d.as_bytes().len(), 1024);
}

#[test]
fn write_blocks_then_read_blocks() {
    let mut d = MemoryDevice::new(4 * 16, 16);
    let data: Vec<u8> = (0..32u8).collect();
    assert!(d.write_blocks(1, 2, &data).is_ok());
    assert_eq!(d.read_blocks(1, 2).ok().unwrap(), data);
    assert_eq!(d.read_block(0).ok().unwrap(), vec![0u8; 16]);
    assert_eq!(d.read_blocks(0, 0).ok().unwrap(), Vec::<u8>::new());
}

#[test]
fn blocks_past_the_end_fail() {
    let mut d = MemoryDevice::new(4 * 16, 16);
    assert_eq!(d.write_block(4, &[0u8; 16]), Err(BlockDeviceError::OutOfBounds));
    assert_eq!(d.write_block(0, &[0u8; 8]), Err(BlockDeviceError::OutOfBounds));
    assert!(d.read_block(4).is_err());
    assert!(d.read_blocks(3, 2).is_err());
}

#[test]
fn zeros_and_clear() {
    let mut d = MemoryDevice::new(3 * 8, 8);
    assert!(d.write_blocks(0, 3, &[1u8; 24]).is_ok());
    assert!(d.write_zeros(1, 1).is_ok());
    assert_eq!(d.as_bytes()[8..16], [0u8; 8]);
    assert_eq!(d.as_bytes()[0], 1);
    assert!(d.clear_blocks(0, 3).is_ok());
    assert!(d.as_bytes().iter().all(|b| *b == 0));
}

#[test]
fn clone_is_independent() {
    let mut d = MemoryDevice::new(16, 8);
    let c = d.clone();
    assert!(d.write_block(0, &[3u8; 8]).is_ok());
    assert_eq!(c.read_block(0).ok().unwrap(), vec![0u8; 8]);
    assert_eq!(d.read_block(0).ok().unwrap(), vec![3u8; 8]);
}
