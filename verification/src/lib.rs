//! The decisions of a workload governor: which processes are busy, which of them
//! are moved to the efficiency cores, and what is reported about it.

pub mod battery;
pub mod digits;
pub mod double;
pub mod frontmost;
pub mod governor;
pub mod hog;
pub mod ipc;
pub mod pids;
pub mod process;
pub mod report;
pub mod rounding;
pub mod text;
pub mod worker;
