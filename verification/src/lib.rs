//! Typed records in a fixed-capacity table laid out in a shared byte region.
//!
//! The library owns the layout of the shared memory segments (table header,
//! slot arena with its free list, chained hash index on the primary key,
//! sorted range index) and every decision taken on them. Mapping the
//! segments and taking the IPC semaphores is left to the caller, which hands
//! the mapped regions to the functions here as byte slices.
#![allow(unused_imports)]

pub mod error;
pub mod index;
pub mod internal;
pub mod primitive;
pub mod table;
