pub mod offset;
pub mod word;
pub mod header;
pub mod memory_array;
pub mod slot;
pub mod index;
pub mod semaphore;
pub mod range_index;
