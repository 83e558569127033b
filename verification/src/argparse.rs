//! Reading the arguments of the command line.

use crate::htlb::HTLBReq;
use crate::misc::{size_of_text, try_size_from_str};
use crate::rangelist::{list_contains, RangeList};
use crate::sysfs_path::Id;
use crate::text::{
    chars_of, decimal, find_in, index_of, parse_usize, parse_usize_in, parse_usize_spec,
    push_decimal, trim_bounds, trim_in,
};
use vstd::prelude::*;
use vstd::string::*;

verus! {

/// The path `s` if it names a file, which `is_file` tells; else an error
/// that names `s`.
pub fn parse_file_path(s: &str, is_file: bool) -> (r: Result<String, String>)
    ensures
        is_file ==> r.is_ok() && r.unwrap()@ == s@,
        !is_file ==> r.is_err() && r.unwrap_err()@ == "invalid file "@ + s@,
{
    if is_file {
        Ok(s.to_owned())
    } else {
        let mut msg = String::from_str("invalid file ");
        msg.append(s);
        Err(msg)
    }
}

/// The size that `s` writes, or an error that names `s` if it writes none.
pub fn parse_size(s: &str) -> (r: Result<usize, String>)
    ensures
        match size_of_text(s@) {
            Some(n) => r == Ok::<usize, String>(n),
            None => r.is_err() && r.unwrap_err()@ == "invalid size "@ + s@,
        },
{
    match try_size_from_str(s) {
        Some(n) => Ok(n),
        None => {
            let mut msg = String::from_str("invalid size ");
            msg.append(s);
            Err(msg)
        },
    }
}

/// The memory node that `s` names, if `s` is a number and `online`, the list
/// of the nodes that are online, holds it.
pub fn parse_node(s: &str, online: &RangeList) -> (r: Result<Id, String>)
    ensures
        match parse_usize_spec(s@) {
            None => r.is_err() && r.unwrap_err()@ == "`"@ + s@ + "` isn't a number"@,
            Some(node) => if list_contains(online@, node) {
                r == Ok::<Id, String>(node)
            } else {
                r.is_err() && r.unwrap_err()@ == "Invalid NUMA node "@ + decimal(node as nat)
            },
        },
{
    match parse_usize(s) {
        None => {
            let mut msg = String::from_str("`");
            msg.append(s);
            msg.append("` isn't a number");
            Err(msg)
        },
        Some(node) => {
            if online.contains(node) {
                Ok(node)
            } else {
                let mut msg = String::from_str("Invalid NUMA node ");
                push_decimal(&mut msg, node);
                Err(msg)
            }
        },
    }
}

/// The numbers that `s[from..to]` writes with `:` between them, in at most
/// `n` fields, of which the last holds all that is left.
pub open spec fn parse_fields(s: Seq<char>, from: int, to: int, n: nat) -> Option<Seq<usize>>
    decreases n,
{
    if n == 0 {
        Some(Seq::empty())
    } else {
        let colon = if n == 1 {
            to
        } else {
            index_of(s, ':', from, to)
        };
        let head = parse_usize_spec(s.subrange(from, colon));
        if colon >= to || colon < from {
            match head {
                Some(x) => Some(seq![x]),
                None => None,
            }
        } else {
            match (head, parse_fields(s, colon + 1, to, (n - 1) as nat)) {
                (Some(x), Some(rest)) => Some(seq![x] + rest),
                _ => None,
            }
        }
    }
}

/// The page counts that `s` requests, one for each of at most `nsizes` page
/// sizes, without the white space at the ends of `s`.
pub open spec fn parse_request(s: Seq<char>, nsizes: usize) -> Option<Seq<usize>> {
    let (a, b) = trim_bounds(s, 0, s.len() as int);
    parse_fields(s, a, b, nsizes as nat)
}

/// The request for huge pages that `s` writes, such as `4:0:1`, for a
/// machine with `nsizes` sizes of huge page; it is for the node 0.
pub fn parse_htlb_req(s: &str, nsizes: usize) -> (r: Result<HTLBReq, String>)
    ensures
        match parse_request(s@, nsizes) {
            Some(req) => r.is_ok() && r.unwrap().req@ == req && r.unwrap().node == 0,
            None => r.is_err() && r.unwrap_err()@ == "Invalid HTLB request "@ + s@,
        },
{
    let v = chars_of(s);
    let (a, b) = trim_in(&v, 0, v.len());
    let mut req: Vec<usize> = Vec::new();
    let mut cur = a;
    let mut left = nsizes;
    let mut bad = false;
    while left > 0
        invariant_except_break
            !bad,
            parse_fields(v@, a as int, b as int, nsizes as nat) == match parse_fields(
                v@,
                cur as int,
                b as int,
                left as nat,
            ) {
                Some(rest) => Some(req@ + rest),
                None => None,
            },
        invariant
            a <= cur <= b <= v@.len(),
            v@ == s@,
            (a as int, b as int) == trim_bounds(v@, 0, v@.len() as int),
        ensures
            v@ == s@,
            (a as int, b as int) == trim_bounds(v@, 0, v@.len() as int),
            bad ==> parse_fields(v@, a as int, b as int, nsizes as nat).is_none(),
            !bad ==> parse_fields(v@, a as int, b as int, nsizes as nat) == Some(req@),
        decreases left,
    {
        let colon = if left == 1 {
            b
        } else {
            find_in(&v, ':', cur, b)
        };
        match parse_usize_in(&v, cur, colon) {
            None => {
                bad = true;
                break ;
            },
            Some(x) => {
                let ghost before = req@;
                req.push(x);
                if colon >= b {
                    proof {
                        assert(before + seq![x] =~= req@);
                    }
                    break ;
                }
                proof {
                    match parse_fields(v@, colon + 1, b as int, (left - 1) as nat) {
                        Some(rest) => {
                            assert(before + (seq![x] + rest) =~= req@ + rest);
                        },
                        None => {},
                    }
                }
                cur = colon + 1;
                left = left - 1;
            },
        }
    }
    if bad {
        let mut msg = String::from_str("Invalid HTLB request ");
        msg.append(s);
        Err(msg)
    } else {
        Ok(HTLBReq { req, node: 0 })
    }
}

/// Whether the processor `cpu` may be chosen: the process may run on it, it
/// is online, and one of the nodes lists it.
pub open spec fn cpu_is_usable(
    affinity: Seq<bool>,
    cpus: Seq<crate::rangelist::IdRange>,
    node_cpus: Seq<RangeList>,
    cpu: int,
) -> bool {
    &&& 0 <= cpu < affinity.len()
    &&& affinity[cpu]
    &&& list_contains(cpus, cpu as usize)
    &&& exists|j: int| 0 <= j < node_cpus.len() && list_contains((#[trigger] node_cpus[j])@, cpu as usize)
}

fn some_list_holds(lists: &Vec<RangeList>, n: Id) -> (r: bool)
    ensures
        r == exists|j: int| 0 <= j < lists@.len() && list_contains((#[trigger] lists@[j])@, n),
{
    let m = lists.len();
    let mut j: usize = 0;
    while j < m
        invariant
            j <= m,
            m == lists@.len(),
            forall|k: int| 0 <= k < j ==> !list_contains((#[trigger] lists@[k])@, n),
        decreases m - j,
    {
        if lists[j].contains(n) {
            return true;
        }
        j += 1;
    }
    false
}

/// The first processor on which the process may run, which is online, and
/// which one of the nodes lists. `affinity` tells for each processor
/// whether the process may run on it, `cpus` lists the processors that are
/// online and `node_cpus` those of each node that is online.
pub fn default_node(affinity: &Vec<bool>, cpus: &RangeList, node_cpus: &Vec<RangeList>) -> (r:
    Option<Id>)
    ensures
        match r {
            Some(cpu) => cpu_is_usable(affinity@, cpus@, node_cpus@, cpu as int) && forall|c: int|
                0 <= c < cpu ==> !cpu_is_usable(affinity@, cpus@, node_cpus@, c),
            None => forall|c: int| !cpu_is_usable(affinity@, cpus@, node_cpus@, c),
        },
{
    let n = affinity.len();
    let mut cpu: usize = 0;
    while cpu < n
        invariant
            cpu <= n,
            n == affinity@.len(),
            forall|c: int| 0 <= c < cpu ==> !cpu_is_usable(affinity@, cpus@, node_cpus@, c),
        decreases n - cpu,
    {
        if affinity[cpu] && cpus.contains(cpu) && some_list_holds(node_cpus, cpu) {
            return Some(cpu);
        }
        cpu += 1;
    }
    None
}

} // verus!
