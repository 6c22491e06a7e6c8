//! Constants of the region format.
use vstd::prelude::*;

verus! {

pub const INIT_FRESH: u32 = 0;

pub const INIT_WRITING: u32 = 1;

pub const INIT_READY: u32 = 2;

/// Byte offset where node records begin.
pub const SIZE_HEADER: u64 = 48;

/// Sentinel for an empty free list.
pub const FREE_EMPTY: u64 = 0xffff_ffff_ffff_ffff;

pub const LOCK_FREE: u64 = 0;

pub const LOCK_HELD: u64 = 1;

/// Offsets of the words of the region header.
pub const OFF_STATE: u64 = 0;

pub const OFF_CAPACITY: u64 = 8;

pub const OFF_BUMP: u64 = 16;

pub const OFF_FREE: u64 = 24;

pub const OFF_ROOT: u64 = 32;

pub const OFF_LOCK: u64 = 40;

} // verus!
