//! Lists of processor or node numbers as the kernel writes them, such as
//! `0-3,8,10-11`.

use crate::sysfs_path::Id;
use crate::text::{
    chars_of, find_in, index_of, parse_usize_in, parse_usize_spec, trim_bounds, trim_in,
};
use vstd::prelude::*;

verus! {

/// The numbers from `first` up to `last`, both included; none if `first`
/// lies above `last`.
#[derive(Debug, Clone, Copy, PartialEq, Eq, Structural)]
pub struct IdRange {
    pub first: Id,
    pub last: Id,
}

/// The range that the text `s[from..to]` writes: without the white space at
/// its ends, one number, or two numbers with a `-` between them.
pub open spec fn parse_range(s: Seq<char>, from: int, to: int) -> Option<IdRange> {
    let (a, b) = trim_bounds(s, from, to);
    let dash = index_of(s, '-', a, b);
    let first = parse_usize_spec(s.subrange(a, dash));
    if dash == b {
        match first {
            Some(n) => Some(IdRange { first: n, last: n }),
            None => None,
        }
    } else {
        match (first, parse_usize_spec(s.subrange(dash + 1, b))) {
            (Some(n), Some(m)) => Some(IdRange { first: n, last: m }),
            _ => None,
        }
    }
}

/// The ranges that the text `s[from..to]` writes, with a `,` between them.
pub open spec fn parse_ranges(s: Seq<char>, from: int, to: int) -> Option<Seq<IdRange>>
    decreases to - from,
{
    let comma = index_of(s, ',', from, to);
    let head = parse_range(s, from, comma);
    if comma >= to || comma < from {
        match head {
            Some(r) => Some(seq![r]),
            None => None,
        }
    } else {
        match (head, parse_ranges(s, comma + 1, to)) {
            (Some(r), Some(rest)) => Some(seq![r] + rest),
            _ => None,
        }
    }
}

/// The ranges that the text `s` writes, without the white space at its ends.
pub open spec fn parse_list(s: Seq<char>) -> Option<Seq<IdRange>> {
    let (a, b) = trim_bounds(s, 0, s.len() as int);
    parse_ranges(s, a, b)
}

/// Whether one of the ranges holds `n`.
pub open spec fn list_contains(ranges: Seq<IdRange>, n: Id) -> bool {
    exists|i: int| 0 <= i < ranges.len() && (#[trigger] ranges[i]).first <= n <= ranges[i].last
}

/// The numbers from `lo` up to `hi`; none if `lo` lies above `hi`.
pub open spec fn ids_between(lo: int, hi: int) -> Seq<Id> {
    if lo > hi {
        Seq::empty()
    } else {
        Seq::new((hi - lo + 1) as nat, |i: int| (lo + i) as Id)
    }
}

fn read_range(v: &Vec<char>, from: usize, to: usize) -> (r: Option<IdRange>)
    requires
        from <= to <= v@.len(),
    ensures
        r == parse_range(v@, from as int, to as int),
{
    let (a, b) = trim_in(v, from, to);
    let dash = find_in(v, '-', a, b);
    let first = parse_usize_in(v, a, dash);
    if dash == b {
        match first {
            Some(n) => Some(RangeList::vec_to_range(vec![n])),
            None => None,
        }
    } else {
        match (first, parse_usize_in(v, dash + 1, b)) {
            (Some(n), Some(m)) => Some(RangeList::vec_to_range(vec![n, m])),
            _ => None,
        }
    }
}

/// A list of ranges of numbers.
#[derive(Debug)]
pub struct RangeList {
    ranges: Vec<IdRange>,
}

impl View for RangeList {
    type V = Seq<IdRange>;

    closed spec fn view(&self) -> Seq<IdRange> {
        self.ranges@
    }
}

impl RangeList {
    /// The range from the first to the last of the numbers `v`.
    pub fn vec_to_range(v: Vec<Id>) -> (r: IdRange)
        requires
            v@.len() > 0,
        ensures
            r == (IdRange { first: v@[0], last: v@[v@.len() - 1] }),
    {
        IdRange { first: v[0], last: v[v.len() - 1] }
    }

    /// The range that `s` writes, if it writes one.
    pub fn range_from_str(s: &str) -> (r: Option<IdRange>)
        ensures
            r == parse_range(s@, 0, s@.len() as int),
    {
        let v = chars_of(s);
        read_range(&v, 0, v.len())
    }

    /// The list that `s` writes, if it writes one.
    pub fn parse(s: &str) -> (r: Option<RangeList>)
        ensures
            r.is_some() == parse_list(s@).is_some(),
            r.is_some() ==> r.unwrap()@ == parse_list(s@).unwrap() && r.unwrap()@.len() > 0,
    {
        let v = chars_of(s);
        let (a, b) = trim_in(&v, 0, v.len());
        let mut ranges: Vec<IdRange> = Vec::new();
        let mut cur = a;
        loop
            invariant
                a <= cur <= b <= v@.len(),
                v@ == s@,
                (a as int, b as int) == trim_bounds(v@, 0, v@.len() as int),
                parse_ranges(v@, a as int, b as int) == match parse_ranges(
                    v@,
                    cur as int,
                    b as int,
                ) {
                    Some(rest) => Some(ranges@ + rest),
                    None => None,
                },
            decreases b - cur,
        {
            let comma = find_in(&v, ',', cur, b);
            let head = read_range(&v, cur, comma);
            match head {
                None => {
                    return None;
                },
                Some(r) => {
                    let ghost before = ranges@;
                    ranges.push(r);
                    if comma >= b {
                        proof {
                            assert(before + seq![r] =~= ranges@);
                        }
                        return Some(RangeList { ranges });
                    }
                    proof {
                        match parse_ranges(v@, comma + 1, b as int) {
                            Some(rest) => {
                                assert(before + (seq![r] + rest) =~= ranges@ + rest);
                            },
                            None => {},
                        }
                    }
                    cur = comma + 1;
                },
            }
        }
    }

    /// The list that `s` writes.
    pub fn from_str(s: String) -> (r: RangeList)
        requires
            parse_list(s@).is_some(),
        ensures
            r@ == parse_list(s@).unwrap(),
            r@.len() > 0,
    {
        Self::parse(s.as_str()).unwrap()
    }

    /// Whether the list holds `n`.
    pub fn contains(&self, n: Id) -> (r: bool)
        ensures
            r == list_contains(self@, n),
    {
        let len = self.ranges.len();
        let mut i: usize = 0;
        while i < len
            invariant
                i <= len,
                len == self@.len(),
                forall|j: int| 0 <= j < i ==> !((#[trigger] self@[j]).first <= n <= self@[j].last),
            decreases len - i,
        {
            let r = self.ranges[i];
            if r.first <= n && n <= r.last {
                return true;
            }
            i += 1;
        }
        false
    }

    /// The number of ranges in the list.
    pub fn len(&self) -> (r: usize)
        ensures
            r == self@.len(),
    {
        self.ranges.len()
    }

    /// A walk through the numbers of the list, range by range.
    pub fn iter(&self) -> (r: RangeListIter<'_>)
        requires
            self@.len() > 0,
        ensures
            r.ranges() == self@,
            r.loaded() == 1,
            r.current() == ids_between(self@[0].first as int, self@[0].last as int),
    {
        let first = self.ranges[0];
        RangeListIter { list: self, idx: 1, lo: first.first, hi: first.last, live: true }
    }
}

/// A walk through the numbers of a list of ranges.
#[derive(Debug)]
pub struct RangeListIter<'a> {
    list: &'a RangeList,
    idx: usize,
    lo: Id,
    hi: Id,
    live: bool,
}

impl<'a> RangeListIter<'a> {
    /// The ranges of the list.
    pub closed spec fn ranges(&self) -> Seq<IdRange> {
        self.list@
    }

    /// The number of ranges that the walk has entered.
    pub closed spec fn loaded(&self) -> int {
        self.idx as int
    }

    /// The numbers of the current range that the walk has still to give.
    pub closed spec fn current(&self) -> Seq<Id> {
        if self.live {
            ids_between(self.lo as int, self.hi as int)
        } else {
            Seq::empty()
        }
    }

    /// The walk's invariant: it has entered no more ranges than there are.
    pub closed spec fn wf(&self) -> bool {
        self.idx <= self.list@.len()
    }

    /// The next number. While the current range has numbers left, it is the
    /// first of them. Otherwise the walk enters the next range, if there is
    /// one, and gives its first number, or `None` if that range is empty.
    pub fn next(&mut self) -> (r: Option<Id>)
        requires
            old(self).wf(),
        ensures
            final(self).wf(),
            final(self).ranges() == old(self).ranges(),
            if old(self).current().len() > 0 {
                &&& r == Some(old(self).current()[0])
                &&& final(self).current() == old(self).current().skip(1)
                &&& final(self).loaded() == old(self).loaded()
            } else if old(self).loaded() < old(self).ranges().len() {
                let next = old(self).ranges()[old(self).loaded()];
                let ids = ids_between(next.first as int, next.last as int);
                &&& final(self).loaded() == old(self).loaded() + 1
                &&& r == if ids.len() > 0 {
                    Some(ids[0])
                } else {
                    None
                }
                &&& final(self).current() == if ids.len() > 0 {
                    ids.skip(1)
                } else {
                    ids
                }
            } else {
                &&& r.is_none()
                &&& final(self).current().len() == 0
                &&& final(self).loaded() == old(self).loaded()
            },
    {
        let ghost was = self.current();
        if !(self.live && self.lo <= self.hi) {
            if self.idx < self.list.ranges.len() {
                let next = self.list.ranges[self.idx];
                self.idx = self.idx + 1;
                self.lo = next.first;
                self.hi = next.last;
                self.live = true;
                if self.lo > self.hi {
                    return None;
                }
            } else {
                return None;
            }
        }
        let ghost ids = ids_between(self.lo as int, self.hi as int);
        let n = self.lo;
        if self.lo < self.hi {
            self.lo = self.lo + 1;
        } else {
            self.live = false;
        }
        proof {
            assert(self.current() =~= ids.skip(1));
        }
        Some(n)
    }
}

} // verus!
