//! The paths under which the kernel shows processors, memory nodes and
//! huge pages.

use crate::text::{decimal, push_decimal};
use vstd::prelude::*;
use vstd::string::*;

verus! {

/// The number of a processor or of a memory node.
pub type Id = usize;

/// The directory of the memory nodes.
pub const SYSFS_NODES: &'static str = "/sys/devices/system/node/";

/// The directory of the processors.
pub const SYSFS_CPUS: &'static str = "/sys/devices/system/cpu/";

/// The directory of the huge-page pools.
pub const SYSFS_HTLB: &'static str = "/sys/kernel/mm/hugepages/";

/// The switch of transparent huge pages.
pub const SYSFS_THP_ENABLED: &'static str = "/sys/kernel/mm/transparent_hugepage/enabled";

/// The switch of memory overcommit.
pub const SYSFS_OVERCOMMIT: &'static str = "/proc/sys/vm/overcommit_memory";

/// The path of the directory of the node `n`.
pub open spec fn node_path(n: Id) -> Seq<char> {
    SYSFS_NODES@ + "node"@ + decimal(n as nat)
}

/// The path `base` with the component `leaf` joined to it: `leaf` itself if
/// it starts at the root, else `base`, a slash and `leaf`.
pub open spec fn joined(base: Seq<char>, leaf: Seq<char>) -> Seq<char> {
    if leaf.len() > 0 && leaf[0] == '/' {
        leaf
    } else {
        base + "/"@ + leaf
    }
}

/// The file that lists the processors that are online.
pub fn sysfs_path_online_cpus() -> (r: String)
    ensures
        r@ == SYSFS_CPUS@ + "online"@,
{
    let mut out = String::from_str(SYSFS_CPUS);
    out.append("online");
    out
}

/// The file that lists the memory nodes that are online.
pub fn sysfs_path_online_nodes() -> (r: String)
    ensures
        r@ == SYSFS_NODES@ + "online"@,
{
    let mut out = String::from_str(SYSFS_NODES);
    out.append("online");
    out
}

/// The directory of the node `n`.
pub fn sysfs_path_node(n: Id) -> (r: String)
    ensures
        r@ == node_path(n),
{
    let mut out = String::from_str(SYSFS_NODES);
    out.append("node");
    push_decimal(&mut out, n);
    out
}

/// The file that lists the processors of the node `n`.
pub fn sysfs_path_node_cpus(n: Id) -> (r: String)
    ensures
        r@ == node_path(n) + "/cpulist"@,
{
    let mut out = sysfs_path_node(n);
    out.append("/cpulist");
    out
}

/// The directory of the huge-page pools.
pub fn sysfs_path_htlb_base() -> (r: String)
    ensures
        r@ == SYSFS_HTLB@,
{
    String::from_str(SYSFS_HTLB)
}

/// The file `leaf` of the pool of huge pages of `sz` KiB on the node `n`.
pub fn sysfs_path_htlb(n: Id, sz: usize, leaf: &str) -> (r: String)
    ensures
        r@ == joined(node_path(n) + "/hugepages/hugepages-"@ + decimal(sz as nat) + "kB"@, leaf@),
{
    if leaf.unicode_len() > 0 && leaf.get_char(0) == '/' {
        return String::from_str(leaf);
    }
    let mut out = sysfs_path_node(n);
    out.append("/hugepages/hugepages-");
    push_decimal(&mut out, sz);
    out.append("kB");
    out.append("/");
    out.append(leaf);
    out
}

/// The switch of transparent huge pages.
pub fn sysfs_path_thp_enabled() -> (r: String)
    ensures
        r@ == SYSFS_THP_ENABLED@,
{
    String::from_str(SYSFS_THP_ENABLED)
}

/// The switch of memory overcommit.
pub fn sysfs_path_overcommit() -> (r: String)
    ensures
        r@ == SYSFS_OVERCOMMIT@,
{
    String::from_str(SYSFS_OVERCOMMIT)
}

} // verus!
