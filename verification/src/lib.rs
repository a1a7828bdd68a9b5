pub mod error;
pub mod fs;
pub mod locks;
pub mod try_alloc;
pub mod io;
pub mod elf;
pub mod bytes;
pub mod shell;
