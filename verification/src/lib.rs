//! Verified cores of the OSTEP homework simulators: address translation,
//! free-space management, page replacement, CPU scheduling, process trees,
//! RAID mapping and small file systems.

pub mod text;
pub mod assoc;
pub mod freespace;
pub mod mlfq;
pub mod page_cache;
pub mod process_run;
pub mod lottery;
pub mod sched;
pub mod vm;
pub mod afs;
pub mod vsfs;
pub mod fork;
pub mod raid;
pub mod x86;
pub mod multilevel;
