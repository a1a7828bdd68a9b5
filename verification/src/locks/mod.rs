pub mod semaphore;
pub mod condvar;
pub mod mutex;
pub mod rwlock;
pub mod watch;
pub mod oneshot;
pub mod spsc;
