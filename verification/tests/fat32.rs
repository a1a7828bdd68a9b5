use lib::fs::device::{BlockDevice, MemoryDevice};
use lib::fs::fat32::{calc_cluster_count, Fat32FileSystem, FAT_ENTRY_EOC_START};
use lib::fs::path::PathBuf;
use lib::fs::{FileHandle, FileSystem, FileSystemError};

fn formatted() -> Fat32FileSystem<MemoryDevice> {
    let device = MemoryDevice::new(512 * 28, 512);
    Fat32FileSystem::with_format(device).ok().unwrap()
}

#[test]
fn test_calc_cluster_count() {
    assert_eq!(calc_cluster_count(32, 512, 8, 65536), (8172, 0));
    assert_eq!(calc_cluster_count(32, 512, 7, 10000), (1420, 4));
}

#[test]
fn test_find_available_cluster() {
    let mut fs = formatted();
    assert_eq!(fs.get_next_cluster(2).ok().unwrap(), FAT_ENTRY_EOC_START);
    assert_eq!(fs.find_available_cluster().ok().unwrap(), 3);
    assert_eq!(fs.find_available_cluster().ok().unwrap(), 4);
    assert!(matches!(fs.find_available_cluster(), Err(FileSystemError::DiskFull)));
}

#[test]
fn test_create_file() {
    let mut fs = formatted();
    let path = PathBuf::from_str("test.txt").ok().unwrap();
    fs.create_file(path.as_path()).ok().unwrap();
    let file = fs.get_metadata(path.as_path()).ok().unwrap();
    assert_eq!(file.name, "test.txt");
    assert!(!file.is_directory);
    assert_eq!(file.size, 0);
    assert_eq!(file.allocated_size, 512 * 8);
}

#[test]
fn test_remount() {
    let mut fs = formatted();
    let path = PathBuf::from_str("test.txt").ok().unwrap();
    fs.create_file(path.as_path()).ok().unwrap();
    fs.unmount().ok().unwrap();
    let device = fs.into_device();
    let fs = Fat32FileSystem::mount(device).ok().unwrap();
    let file = fs.get_metadata(path.as_path()).ok().unwrap();
    assert_eq!(file.name, "test.txt");
    assert!(!file.is_directory);
    assert_eq!(file.size, 0);
    assert_eq!(file.allocated_size, 512 * 8);
}

#[test]
fn test_create_long_name_file() {
    let mut fs = formatted();
    let name = "longlonglonglonglonglonglonglonglonglonglonglonglonglonglonglong.txt";
    let path = PathBuf::from_str(name).ok().unwrap();
    fs.create_file(path.as_path()).ok().unwrap();
    let file = fs.get_metadata(path.as_path()).ok().unwrap();
    assert_eq!(file.name, name);
    assert!(!file.is_directory);
    assert_eq!(file.size, 0);
    assert_eq!(file.allocated_size, 512 * 8);
}

#[test]
fn test_create_directory() {
    let mut fs = formatted();

    let dir_path = PathBuf::from_str("dir").ok().unwrap();
    fs.create_directory(dir_path.as_path()).ok().unwrap();
    let dir = fs.get_metadata(dir_path.as_path()).ok().unwrap();
    assert_eq!(dir.name, "dir");
    assert!(dir.is_directory);
    assert_eq!(dir.size, 0);
    assert_eq!(dir.allocated_size, 512 * 8);

    let file_path = PathBuf::from_str("dir/test.txt").ok().unwrap();
    fs.create_file(file_path.as_path()).ok().unwrap();
    let file = fs.get_metadata(file_path.as_path()).ok().unwrap();
    assert_eq!(file.name, "test.txt");
    assert!(!file.is_directory);
    assert_eq!(file.size, 0);
    assert_eq!(file.allocated_size, 512 * 8);
}

#[test]
fn format_rejects_small_devices() {
    let device = MemoryDevice::new(512, 512);
    assert!(matches!(
        Fat32FileSystem::with_format(device),
        Err(lib::fs::fat32::FormatError::DeviceTooSmall)
    ));
    let device = MemoryDevice::new(256 * 40, 256);
    assert!(matches!(
        Fat32FileSystem::with_format(device),
        Err(lib::fs::fat32::FormatError::DeviceTooSmall)
    ));
}

#[test]
fn mount_rejects_blank_device() {
    let device = MemoryDevice::new(512 * 28, 512);
    assert!(matches!(
        Fat32FileSystem::mount(device),
        Err(lib::fs::fat32::MountError::InvalidFormat)
    ));
}

#[test]
fn create_existing_file_fails() {
    let mut fs = formatted();
    let path = PathBuf::from_str("a").ok().unwrap();
    fs.create_file(path.as_path()).ok().unwrap();
    assert!(matches!(fs.create_file(path.as_path()), Err(FileSystemError::FileExists)));
    let root = PathBuf::new();
    assert!(matches!(fs.create_file(root.as_path()), Err(FileSystemError::FileExists)));
}

#[test]
fn missing_file_is_not_found() {
    let fs = formatted();
    let path = PathBuf::from_str("nothing").ok().unwrap();
    assert!(matches!(fs.get_metadata(path.as_path()), Err(FileSystemError::FileNotFound)));
    let root = PathBuf::new();
    assert!(matches!(fs.get_metadata(root.as_path()), Err(FileSystemError::OperationNotSupport)));
}

#[test]
fn list_and_delete() {
    let mut fs = formatted();
    let a = PathBuf::from_str("a.bin").ok().unwrap();
    fs.create_file(a.as_path()).ok().unwrap();
    let root = PathBuf::new();
    let listed = fs.list_directory(root.as_path()).ok().unwrap();
    assert_eq!(listed.len(), 1);
    assert_eq!(listed[0].name, "a.bin");
    assert_eq!(fs.free_space().ok().unwrap(), 512 * 8);
    fs.delete_file(a.as_path()).ok().unwrap();
    assert_eq!(fs.list_directory(root.as_path()).ok().unwrap().len(), 0);
    assert_eq!(fs.free_space().ok().unwrap(), 2 * 512 * 8);
    assert_eq!(fs.total_space().ok().unwrap(), 3 * 512 * 8);
}

#[test]
fn open_file_is_occupied() {
    let mut fs = formatted();
    let a = PathBuf::from_str("a").ok().unwrap();
    fs.create_file(a.as_path()).ok().unwrap();
    let _h = fs.open_file(a.as_path()).ok().unwrap();
    assert!(matches!(fs.open_file(a.as_path()), Err(FileSystemError::FileOccupied)));
    assert!(matches!(fs.delete_file(a.as_path()), Err(FileSystemError::FileOccupied)));
}

#[test]
fn device_block_access() {
    let mut device = MemoryDevice::new(1024, 512);
    assert_eq!(device.block_count(), 2);
    let buf = vec![7u8; 512];
    assert!(device.write_block(1, &buf).is_ok());
    assert_eq!(device.read_block(1).ok().unwrap(), buf);
    assert!(device.read_block(2).is_err());
    assert!(device.write_block(0, &buf[..100]).is_err());
}

#[test]
fn read_past_the_end_gives_zero_and_closed_handle_refuses() {
    let mut fs = formatted();
    let a = PathBuf::from_str("a").ok().unwrap();
    fs.create_file(a.as_path()).ok().unwrap();
    let mut h = fs.open_file(a.as_path()).ok().unwrap();
    let mut buf = vec![7u8; 4];
    assert_eq!(h.read(&fs, &mut buf).ok(), Some(0));
    assert!(h.move_pointer(5).is_ok());
    assert_eq!(h.get_pointer().ok(), Some(5));
    assert_eq!(h.read(&fs, &mut buf).ok(), Some(0));
    assert_eq!(buf, vec![7u8; 4]);
    assert!(h.close(&mut fs).is_ok());
    assert!(matches!(h.read(&fs, &mut buf), Err(FileSystemError::FileClosed)));
    assert!(matches!(h.get_pointer(), Err(FileSystemError::FileClosed)));
    assert!(matches!(h.move_pointer(0), Err(FileSystemError::FileClosed)));
}

#[test]
fn rename_moves_the_entry_to_the_new_name() {
    let mut fs = formatted();
    let a = PathBuf::from_str("a.txt").ok().unwrap();
    let b = PathBuf::from_str("b.txt").ok().unwrap();
    fs.create_file(a.as_path()).ok().unwrap();
    assert!(fs.rename(a.as_path(), b.as_path()).is_ok());
    let m = fs.get_metadata(b.as_path()).ok().unwrap();
    assert_eq!(m.name, "b.txt");
    assert!(!m.is_directory);
    assert!(fs.get_metadata(a.as_path()).is_err());
    assert!(matches!(fs.rename(a.as_path(), b.as_path()), Err(FileSystemError::FileNotFound)));
    fs.create_file(a.as_path()).ok().unwrap();
    assert!(matches!(fs.rename(a.as_path(), b.as_path()), Err(FileSystemError::FileExists)));
}

#[test]
fn a_closed_file_can_be_opened_again() {
    let mut fs = formatted();
    let a = PathBuf::from_str("a").ok().unwrap();
    fs.create_file(a.as_path()).ok().unwrap();
    let mut h = fs.open_file(a.as_path()).ok().unwrap();
    assert!(h.close(&mut fs).is_ok());
    assert!(fs.open_file(a.as_path()).is_ok());
}

#[test]
fn path_of_two_parts_has_the_segments_of_both() {
    let x = PathBuf::from_str("usr/lib").ok().unwrap();
    let y = PathBuf::from_str("a//b").ok().unwrap();
    let xy = PathBuf::from_str("usr/lib/a//b").ok().unwrap();
    let px = x.as_path();
    let py = y.as_path();
    let pxy = xy.as_path();
    assert_eq!(pxy.len(), px.len() + py.len());
    assert_eq!(pxy.segment(0), "usr");
    assert_eq!(pxy.segment(1), "lib");
    assert_eq!(pxy.segment(2), "a");
    assert_eq!(pxy.segment(3), "b");
}

#[test]
fn a_name_needing_more_slots_than_a_sector_is_refused() {
    let mut fs = formatted();
    let free = fs.free_space().ok().unwrap();
    let long = "a".repeat(196);
    let path = PathBuf::from_str(&long).ok().unwrap();
    assert!(matches!(fs.create_file(path.as_path()), Err(FileSystemError::NameTooLang)));
    assert_eq!(fs.free_space().ok().unwrap(), free);
    assert!(fs.get_metadata(path.as_path()).is_err());
    let fits = "a".repeat(195);
    let path = PathBuf::from_str(&fits).ok().unwrap();
    assert!(fs.create_file(path.as_path()).is_ok());
}

#[test]
fn create_names_existing_and_missing_parents() {
    let mut fs = formatted();
    let a = PathBuf::from_str("test.txt").ok().unwrap();
    fs.create_file(a.as_path()).ok().unwrap();
    let free = fs.free_space().ok().unwrap();
    assert!(matches!(fs.create_file(a.as_path()), Err(FileSystemError::FileExists)));
    assert_eq!(fs.free_space().ok().unwrap(), free);
    let nested = PathBuf::from_str("nodir/x.txt").ok().unwrap();
    assert!(matches!(fs.create_file(nested.as_path()), Err(FileSystemError::FileNotFound)));
}

#[test]
fn format_edge_of_two_clusters() {
    // 19 blocks give one cluster, too few; 20 blocks give two
    let device = MemoryDevice::new(512 * 19, 512);
    assert!(matches!(
        Fat32FileSystem::with_format(device),
        Err(lib::fs::fat32::FormatError::DeviceTooSmall)
    ));
    let device = MemoryDevice::new(512 * 20, 512);
    let fs = Fat32FileSystem::with_format(device).ok().unwrap();
    let device = fs.into_device();
    assert!(Fat32FileSystem::mount(device).is_ok());
}
