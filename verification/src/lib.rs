//! Huge-page backing plans for a process's heap, anonymous and file-backed
//! address ranges: alignment helpers, the free-range bookkeeping of a managed
//! region, and the decisions taken for each interposed memory call.

pub mod allocator;
pub mod argparse;
pub mod backing;
pub mod bootstrap;
pub mod consts;
pub mod freemap;
pub mod futex;
pub mod htlb;
pub mod internal_allocator;
pub mod lock;
pub mod misc;
pub mod rangelist;
pub mod region;
pub mod seccomp;
pub mod sysfs_path;
pub mod text;
