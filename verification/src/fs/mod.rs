pub mod device;
pub mod dirent;
pub mod disk_struct;
pub mod fat32;
pub mod mbr;
pub mod path;

use vstd::prelude::*;

use crate::fs::device::BlockDeviceError;
use crate::fs::path::Path;

verus! {

/// Why a file system operation failed.
#[derive(Debug, Clone, Copy, PartialEq, Eq, Structural)]
pub enum FileSystemError {
    /// The device failed.
    IoError(BlockDeviceError),
    /// No file at the path.
    FileNotFound,
    /// A file already at the path.
    FileExists,
    /// No free space left.
    DiskFull,
    /// A file where a directory was expected, or the other way round.
    FileTypeMismatch,
    /// The name does not fit.
    NameTooLang,
    /// The file is open.
    FileOccupied,
    /// The operation is not supported.
    OperationNotSupport,
    /// The file system is unmounted.
    Unmounted,
    /// The file is closed.
    FileClosed,
}

/// What a listing tells of a file.
pub struct FileMetadata {
    /// The name.
    pub name: String,
    /// The size in bytes.
    pub size: u64,
    /// Whether it is a directory.
    pub is_directory: bool,
    /// The bytes of the clusters it takes.
    pub allocated_size: u64,
}

/// A file system: files and directories named by paths.
pub trait FileSystem: Sized {
    /// An open file.
    type Handle;

    /// The state every operation relies on and keeps.
    spec fn fs_ready(&self) -> bool;

    /// The bytes the file system can hold.
    fn total_space(&self) -> (r: Result<u64, FileSystemError>)
        requires
            self.fs_ready(),
    ;

    /// The bytes still free.
    fn free_space(&self) -> (r: Result<u64, FileSystemError>)
        requires
            self.fs_ready(),
    ;

    /// Creates an empty file.
    fn create_file(&mut self, path: Path<'_>) -> (r: Result<(), FileSystemError>)
        requires
            old(self).fs_ready(),
        ensures
            final(self).fs_ready(),
    ;

    /// Creates an empty directory.
    fn create_directory(&mut self, path: Path<'_>) -> (r: Result<(), FileSystemError>)
        requires
            old(self).fs_ready(),
        ensures
            final(self).fs_ready(),
    ;

    /// Opens a file.
    fn open_file(&mut self, path: Path<'_>) -> (r: Result<Self::Handle, FileSystemError>)
        requires
            old(self).fs_ready(),
        ensures
            final(self).fs_ready(),
    ;

    /// Deletes a file that is not open.
    fn delete_file(&mut self, path: Path<'_>) -> (r: Result<(), FileSystemError>)
        requires
            old(self).fs_ready(),
        ensures
            final(self).fs_ready(),
    ;

    /// Deletes an empty directory.
    fn delete_directory(&mut self, path: Path<'_>) -> (r: Result<(), FileSystemError>)
        requires
            old(self).fs_ready(),
        ensures
            final(self).fs_ready(),
    ;

    /// Moves an entry to another directory.
    fn rename(&mut self, old_path: Path<'_>, new_path: Path<'_>) -> (r: Result<(), FileSystemError>)
        requires
            old(self).fs_ready(),
        ensures
            final(self).fs_ready(),
    ;

    /// What a listing tells of the entry at `path`.
    fn get_metadata(&self, path: Path<'_>) -> (r: Result<FileMetadata, FileSystemError>)
        requires
            self.fs_ready(),
    ;

    /// What a listing tells of each entry of a directory.
    fn list_directory(&self, path: Path<'_>) -> (r: Result<Vec<FileMetadata>, FileSystemError>)
        requires
            self.fs_ready(),
    ;

    /// Flushes what the file system holds in memory.
    fn unmount(&self) -> (r: Result<(), FileSystemError>)
        requires
            self.fs_ready(),
    ;
}

/// An open file of the file system `F`.
pub trait FileHandle<F: FileSystem> {
    /// Closes the file.
    fn close(&mut self, fs: &mut F) -> (r: Result<(), FileSystemError>)
        requires
            old(fs).fs_ready(),
        ensures
            final(fs).fs_ready(),
    ;

    /// Moves the position, which may lie past the end of the file.
    fn move_pointer(&mut self, position: u64) -> (r: Result<(), FileSystemError>);

    /// The position.
    fn get_pointer(&mut self) -> (r: Result<u64, FileSystemError>);

    /// Reads from the position into `buf`; the number of bytes read, zero
    /// for a read from the end of the file or past it.
    fn read(&mut self, fs: &F, buf: &mut Vec<u8>) -> (r: Result<u64, FileSystemError>)
        requires
            fs.fs_ready(),
    ;

    /// Writes `buf` at the position.
    fn write(&mut self, fs: &mut F, buf: &[u8]) -> (r: Result<(), FileSystemError>)
        requires
            old(fs).fs_ready(),
        ensures
            final(fs).fs_ready(),
    ;
}

} // verus!
