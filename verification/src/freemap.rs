//! The free-map of a region: the sorted, disjoint, coalesced set of address
//! ranges that are not reserved.

use vstd::prelude::*;

verus! {

/// A half-open address range `[start, end)`.
#[derive(Clone, Copy, Debug, PartialEq, Eq, Structural)]
pub struct Span {
    pub start: usize,
    pub end: usize,
}

/// Whether some span of `s` holds the address `a`.
pub open spec fn covers(s: Seq<Span>, a: int) -> bool {
    exists|i: int| 0 <= i < s.len() && (#[trigger] s[i]).start <= a < s[i].end
}

/// The addresses that the spans of `s` hold.
pub open spec fn free_set(s: Seq<Span>) -> Set<int> {
    Set::new(|a: int| covers(s, a))
}

/// The addresses of `[lo, hi)`.
pub open spec fn range_set(lo: int, hi: int) -> Set<int> {
    Set::new(|a: int| lo <= a < hi)
}

/// No span is empty, and each ends strictly below the start of every later
/// one: the spans are sorted, disjoint, and no two of them touch.
pub open spec fn spans_wf(s: Seq<Span>) -> bool {
    &&& forall|i: int| 0 <= i < s.len() ==> (#[trigger] s[i]).start < s[i].end
    &&& forall|i: int, j: int| 0 <= i < j < s.len() ==> (#[trigger] s[i]).end < (#[trigger] s[j]).start
}

/// Whether a request of `len` bytes at `hint` can be served from `sp`: with no
/// hint, `sp` is long enough; with one, `sp` holds `[hint, hint + len)`.
pub open spec fn fits(sp: Span, hint: usize, len: usize) -> bool {
    if hint == 0 {
        sp.end - sp.start >= len
    } else {
        sp.start <= hint && hint + len <= sp.end
    }
}

/// Whether `i` is the first span of `s` that fits the request.
pub open spec fn is_first_fit(s: Seq<Span>, hint: usize, len: usize, i: int) -> bool {
    &&& 0 <= i < s.len()
    &&& fits(s[i], hint, len)
    &&& forall|j: int| 0 <= j < i ==> !fits(#[trigger] s[j], hint, len)
}

/// Whether any span of `s` fits the request.
pub open spec fn can_take(s: Seq<Span>, hint: usize, len: usize) -> bool {
    exists|i: int| 0 <= i < s.len() && fits(#[trigger] s[i], hint, len)
}

/// What `take` does: `after` and `r` are the map and the result that a request
/// of `len` bytes at `hint` leaves of the map `before`.
pub open spec fn took(
    before: Seq<Span>,
    hint: usize,
    len: usize,
    r: Option<usize>,
    after: Seq<Span>,
) -> bool {
    &&& spans_wf(after)
    &&& r.is_some() == can_take(before, hint, len)
    &&& r.is_none() ==> after == before
    &&& r.is_some() && hint != 0 ==> r == Some(hint)
    &&& r.is_some() && hint == 0 ==> exists|i: int| #[trigger]
        is_first_fit(before, hint, len, i) && r == Some(before[i].start)
    &&& r.is_some() ==> r.unwrap() + len <= usize::MAX && free_set(after) == free_set(
        before,
    ).difference(range_set(r.unwrap() as int, r.unwrap() + len))
}

/// What `give` does: `after` is the map that freeing `[addr, addr + len)`
/// leaves of the map `before`.
pub open spec fn gave(before: Seq<Span>, addr: usize, len: usize, after: Seq<Span>) -> bool {
    &&& spans_wf(after)
    &&& free_set(after) == free_set(before).union(range_set(addr as int, addr + len))
}

fn span_fits(sp: Span, hint: usize, len: usize) -> (r: bool)
    ensures
        r == fits(sp, hint, len),
{
    if hint == 0 {
        sp.end >= sp.start && sp.end - sp.start >= len
    } else {
        sp.start <= hint && hint <= sp.end && sp.end - hint >= len
    }
}

/// Whether the span `sp` holds the address `a`.
pub open spec fn holds(sp: Span, a: int) -> bool {
    sp.start <= a < sp.end
}

/// Taking a span out leaves a well-formed sequence that covers what it did,
/// less that span.
proof fn lemma_remove(s: Seq<Span>, i: int)
    requires
        spans_wf(s),
        0 <= i < s.len(),
    ensures
        spans_wf(s.remove(i)),
        forall|a: int| covers(s.remove(i), a) == (covers(s, a) && !holds(s[i], a)),
{
    let t = s.remove(i);
    assert forall|a: int| covers(t, a) == (covers(s, a) && !holds(s[i], a)) by {
        if covers(t, a) {
            let k = choose|k: int| 0 <= k < t.len() && (#[trigger] t[k]).start <= a < t[k].end;
            let k0 = if k < i { k } else { k + 1 };
            assert(s[k0] == t[k]);
            if k0 < i {
                assert(s[k0].end < s[i].start);
            } else {
                assert(s[i].end < s[k0].start);
            }
        }
        if covers(s, a) && !holds(s[i], a) {
            let k = choose|k: int| 0 <= k < s.len() && (#[trigger] s[k]).start <= a < s[k].end;
            let k1 = if k < i { k } else { k - 1 };
            assert(t[k1] == s[k]);
        }
    }
}

/// Replacing a span by a non-empty part of itself leaves a well-formed
/// sequence that covers what it did, less the rest of that span.
proof fn lemma_shrink(s: Seq<Span>, i: int, part: Span)
    requires
        spans_wf(s),
        0 <= i < s.len(),
        s[i].start <= part.start < part.end <= s[i].end,
    ensures
        spans_wf(s.update(i, part)),
        forall|a: int| covers(s.update(i, part), a) == (covers(s, a) && (holds(s[i], a) ==> holds(part, a))),
{
    let t = s.update(i, part);
    assert forall|k: int, l: int| 0 <= k < l < t.len() implies (#[trigger] t[k]).end < (#[trigger] t[l]).start by {
        assert(s[k].end < s[l].start);
    }
    assert forall|a: int| covers(t, a) == (covers(s, a) && (holds(s[i], a) ==> holds(part, a))) by {
        if covers(t, a) {
            let k = choose|k: int| 0 <= k < t.len() && (#[trigger] t[k]).start <= a < t[k].end;
            assert(s[k].start <= a < s[k].end);
            if k < i {
                assert(s[k].end < s[i].start);
            } else if k > i {
                assert(s[i].end < s[k].start);
            }
        }
        if covers(s, a) && (holds(s[i], a) ==> holds(part, a)) {
            let k = choose|k: int| 0 <= k < s.len() && (#[trigger] s[k]).start <= a < s[k].end;
            assert(t[k].start <= a < t[k].end);
        }
    }
}

/// Putting a non-empty span between two neighbours that it does not touch
/// leaves a well-formed sequence that covers what it did, and that span.
proof fn lemma_insert(s: Seq<Span>, i: int, sp: Span)
    requires
        spans_wf(s),
        0 <= i <= s.len(),
        sp.start < sp.end,
        i > 0 ==> s[i - 1].end < sp.start,
        i < s.len() ==> sp.end < s[i].start,
    ensures
        spans_wf(s.insert(i, sp)),
        forall|a: int| covers(s.insert(i, sp), a) == (covers(s, a) || holds(sp, a)),
{
    let t = s.insert(i, sp);
    assert forall|k: int, l: int| 0 <= k < l < t.len() implies (#[trigger] t[k]).end < (#[trigger] t[l]).start by {
        let k0 = if k < i { k } else { k - 1 };
        let l0 = if l < i { l } else { l - 1 };
        if k == i {
            assert(t[l] == s[l0]);
            if l0 > i {
                assert(s[i].end < s[l0].start);
            }
        } else if l == i {
            assert(t[k] == s[k0]);
            if k0 < i - 1 {
                assert(s[k0].end < s[i - 1].start);
            }
        } else {
            assert(t[k] == s[k0]);
            assert(t[l] == s[l0]);
            assert(s[k0].end < s[l0].start);
        }
    }
    assert forall|k: int| 0 <= k < t.len() implies (#[trigger] t[k]).start < t[k].end by {
        if k < i {
            assert(t[k] == s[k]);
        } else if k > i {
            assert(t[k] == s[k - 1]);
        }
    }
    assert forall|a: int| covers(t, a) == (covers(s, a) || holds(sp, a)) by {
        if covers(t, a) {
            let k = choose|k: int| 0 <= k < t.len() && (#[trigger] t[k]).start <= a < t[k].end;
            if k < i {
                assert(s[k] == t[k]);
            } else if k > i {
                assert(s[k - 1] == t[k]);
            }
        }
        if covers(s, a) {
            let k = choose|k: int| 0 <= k < s.len() && (#[trigger] s[k]).start <= a < s[k].end;
            let k1 = if k < i { k } else { k + 1 };
            assert(t[k1] == s[k]);
        }
        if holds(sp, a) {
            assert(t[i] == sp);
        }
    }
}

/// An address is in the free set of `s` exactly when `s` covers it.
pub proof fn lemma_free_set(s: Seq<Span>, a: int)
    ensures
        free_set(s).contains(a) == covers(s, a),
{
}

/// Sequences with the same free set cover the same addresses.
proof fn lemma_same_cover(s: Seq<Span>, t: Seq<Span>)
    requires
        free_set(s) == free_set(t),
    ensures
        forall|a: int| covers(s, a) == covers(t, a),
{
    assert forall|a: int| covers(s, a) == covers(t, a) by {
        lemma_free_set(s, a);
        lemma_free_set(t, a);
    }
}

/// A well-formed sequence is settled by the addresses it covers: its first
/// span starts at the lowest of them and ends at the first gap.
proof fn lemma_first_span(s: Seq<Span>, t: Seq<Span>)
    requires
        spans_wf(s),
        spans_wf(t),
        forall|a: int| covers(s, a) == covers(t, a),
        s.len() > 0,
    ensures
        t.len() > 0,
        s[0].start <= t[0].start,
        s[0].end <= t[0].end,
{
    let a0 = s[0].start as int;
    assert(holds(s[0], a0));
    assert(covers(t, a0));
    let j = choose|j: int| 0 <= j < t.len() && (#[trigger] t[j]).start <= a0 < t[j].end;
    // the start of `t[0]` is covered by `s`, hence not below `s[0].start`
    let b0 = t[0].start as int;
    assert(holds(t[0], b0));
    assert(covers(s, b0));
    let i = choose|i: int| 0 <= i < s.len() && (#[trigger] s[i]).start <= b0 < s[i].end;
    if i > 0 {
        assert(s[0].end < s[i].start);
    }
    if j > 0 {
        assert(t[0].end < t[j].start);
    }
    assert(a0 == b0);
    assert(j == 0);
    // were `t[0]` to end inside `s[0]`, its end would be covered by a later span of `t`
    if t[0].end < s[0].end {
        let e = t[0].end as int;
        assert(holds(s[0], e));
        assert(covers(t, e));
        let k = choose|k: int| 0 <= k < t.len() && (#[trigger] t[k]).start <= e < t[k].end;
        if k > 0 {
            assert(t[0].end < t[k].start);
        }
    }
}

/// Dropping the first span of a well-formed sequence leaves a well-formed one
/// that covers what lies above that span.
proof fn lemma_tail(s: Seq<Span>)
    requires
        spans_wf(s),
        s.len() > 0,
    ensures
        spans_wf(s.subrange(1, s.len() as int)),
        forall|a: int| covers(s.subrange(1, s.len() as int), a) == (covers(s, a) && a >= s[0].end),
{
    let t = s.subrange(1, s.len() as int);
    assert forall|k: int, l: int| 0 <= k < l < t.len() implies (#[trigger] t[k]).end < (#[trigger] t[l]).start by {
        assert(s[k + 1].end < s[l + 1].start);
    }
    assert forall|a: int| covers(t, a) == (covers(s, a) && a >= s[0].end) by {
        if covers(t, a) {
            let k = choose|k: int| 0 <= k < t.len() && (#[trigger] t[k]).start <= a < t[k].end;
            assert(s[k + 1] == t[k]);
            assert(s[0].end < s[k + 1].start);
        }
        if covers(s, a) && a >= s[0].end {
            let k = choose|k: int| 0 <= k < s.len() && (#[trigger] s[k]).start <= a < s[k].end;
            assert(t[k - 1] == s[k]);
        }
    }
}

/// Two well-formed sequences that cover the same addresses are the same
/// sequence: the free-map of a set of addresses is unique.
pub proof fn lemma_spans_unique(s: Seq<Span>, t: Seq<Span>)
    requires
        spans_wf(s),
        spans_wf(t),
        free_set(s) == free_set(t),
    ensures
        s == t,
    decreases s.len(),
{
    lemma_same_cover(s, t);
    if s.len() == 0 {
        if t.len() > 0 {
            assert(holds(t[0], t[0].start as int));
            assert(covers(t, t[0].start as int));
        }
        assert(s =~= t);
    } else {
        lemma_first_span(s, t);
        lemma_first_span(t, s);
        let s_rest = s.subrange(1, s.len() as int);
        let t_rest = t.subrange(1, t.len() as int);
        lemma_tail(s);
        lemma_tail(t);
        assert forall|a: int| free_set(s_rest).contains(a) == free_set(t_rest).contains(a) by {
            lemma_free_set(s_rest, a);
            lemma_free_set(t_rest, a);
            assert(covers(s_rest, a) == (covers(s, a) && a >= s[0].end));
            assert(covers(t_rest, a) == (covers(t, a) && a >= t[0].end));
            assert(covers(s, a) == covers(t, a));
        }
        assert(free_set(s_rest) =~= free_set(t_rest));
        lemma_spans_unique(s_rest, t_rest);
        assert(s =~= t) by {
            assert(s.len() == t.len());
            assert forall|k: int| 0 <= k < s.len() implies s[k] == t[k] by {
                if k > 0 {
                    assert(s_rest[k - 1] == s[k]);
                    assert(t_rest[k - 1] == t[k]);
                }
            }
        }
    }
}

/// The free ranges of a region, lowest first.
#[derive(Debug)]
pub struct FreeMap {
    ranges: Vec<Span>,
}

impl View for FreeMap {
    type V = Seq<Span>;

    closed spec fn view(&self) -> Seq<Span> {
        self.ranges@
    }
}

impl FreeMap {
    /// The map's invariant: see `spans_wf`.
    pub open spec fn wf(&self) -> bool {
        spans_wf(self@)
    }

    /// Whether the address `a` is free.
    pub open spec fn is_free(&self, a: int) -> bool {
        covers(self@, a)
    }

    /// A map in which nothing is free.
    pub fn new() -> (r: FreeMap)
        ensures
            r@ == Seq::<Span>::empty(),
            r.wf(),
    {
        FreeMap { ranges: Vec::new() }
    }

    /// A map in which nothing is free, with room for `capacity` ranges.
    pub fn with_capacity(capacity: usize) -> (r: FreeMap)
        ensures
            r@ == Seq::<Span>::empty(),
            r.wf(),
    {
        FreeMap { ranges: Vec::with_capacity(capacity) }
    }

    /// The number of free ranges.
    pub fn len(&self) -> (r: usize)
        ensures
            r == self@.len(),
    {
        self.ranges.len()
    }

    /// Reserves `len` bytes. With `hint == 0` they come from the start of the
    /// lowest range that is long enough; otherwise they are `[hint, hint + len)`,
    /// if one range holds all of it. Where no range fits, nothing changes.
    pub fn take(&mut self, hint: usize, len: usize) -> (r: Option<usize>)
        requires
            old(self).wf(),
        ensures
            took(old(self)@, hint, len, r, final(self)@),
    {
        let n = self.ranges.len();
        let mut i: usize = 0;
        while i < n && !span_fits(self.ranges[i], hint, len)
            invariant
                i <= n,
                n == self.ranges.len(),
                self@ == old(self)@,
                forall|j: int| 0 <= j < i ==> !fits(#[trigger] self@[j], hint, len),
            decreases n - i,
        {
            i += 1;
        }
        if i == n {
            return None;
        }
        let sp = self.ranges[i];
        let addr = if hint == 0 {
            sp.start
        } else {
            hint
        };
        let ghost before = self@;
        assert(is_first_fit(before, hint, len, i as int));
        if len == 0 {
            assert(free_set(before) =~= free_set(before).difference(
                range_set(addr as int, addr + len),
            ));
        } else if sp.end - sp.start == len {
            self.ranges.remove(i);
            proof {
                lemma_remove(before, i as int);
            }
        } else if addr == sp.start {
            let part = Span { start: sp.start + len, end: sp.end };
            self.ranges.set(i, part);
            proof {
                lemma_shrink(before, i as int, part);
            }
        } else if sp.end - addr == len {
            let part = Span { start: sp.start, end: addr };
            self.ranges.set(i, part);
            proof {
                lemma_shrink(before, i as int, part);
            }
        } else {
            let part = Span { start: sp.start, end: addr };
            let rest = Span { start: addr + len, end: sp.end };
            self.ranges.set(i, part);
            self.ranges.insert(i + 1, rest);
            proof {
                let mid = before.update(i as int, part);
                lemma_shrink(before, i as int, part);
                if i + 1 < mid.len() {
                    assert(before[i as int].end < before[i + 1].start);
                }
                lemma_insert(mid, i + 1, rest);
                assert(self@ =~= mid.insert(i + 1, rest));
            }
        }
        proof {
            assert forall|a: int| covers(self@, a) == (covers(before, a) && !(addr <= a < addr
                + len)) by {
                if covers(before, a) && !holds(sp, a) {
                    let k = choose|k: int| 0 <= k < before.len() && (#[trigger] before[k]).start <= a < before[k].end;
                    if k < i {
                        assert(before[k].end < before[i as int].start);
                    } else if k > i {
                        assert(before[i as int].end < before[k].start);
                    }
                }
                if holds(sp, a) {
                    assert(before[i as int] == sp);
                }
            }
            assert(free_set(self@) =~= free_set(before).difference(
                range_set(addr as int, addr + len),
            ));
        }
        Some(addr)
    }

    /// Frees `[addr, addr + len)`: the range joins the map, merged with every
    /// range that it touches or overlaps.
    pub fn give(&mut self, addr: usize, len: usize)
        requires
            old(self).wf(),
            addr + len <= usize::MAX,
        ensures
            gave(old(self)@, addr, len, final(self)@),
    {
        if len == 0 {
            assert(free_set(self@) =~= free_set(self@).union(range_set(addr as int, addr + len)));
            return ;
        }
        let end = addr + len;
        let mut lo: usize = 0;
        while lo < self.ranges.len() && self.ranges[lo].end < addr
            invariant
                lo <= self@.len(),
                self@ == old(self)@,
                forall|j: int| 0 <= j < lo ==> (#[trigger] self@[j]).end < addr,
            decreases self@.len() - lo,
        {
            lo += 1;
        }
        let mut new_start = addr;
        let mut new_end = end;
        while lo < self.ranges.len() && self.ranges[lo].start <= new_end
            invariant
                self.wf(),
                lo <= self@.len(),
                new_start <= addr < end <= new_end,
                forall|j: int| 0 <= j < lo ==> (#[trigger] self@[j]).end < new_start,
                lo < self@.len() ==> self@[lo as int].end >= new_start,
                forall|a: int|
                    (covers(self@, a) || new_start <= a < new_end) == (covers(old(self)@, a) || addr
                        <= a < end),
            decreases self@.len() - lo,
        {
            let sp = self.ranges[lo];
            let ghost cur = self@;
            proof {
                lemma_remove(cur, lo as int);
                if lo + 1 < cur.len() {
                    assert(cur[lo as int].end < cur[lo + 1].start);
                }
                assert forall|j: int| 0 <= j < lo implies (#[trigger] cur.remove(lo as int)[j]).end
                    < sp.start by {
                    assert(cur[j].end < cur[lo as int].start);
                }
            }
            self.ranges.remove(lo);
            if sp.start < new_start {
                new_start = sp.start;
            }
            if sp.end > new_end {
                new_end = sp.end;
            }
        }
        let merged = Span { start: new_start, end: new_end };
        let ghost rest = self@;
        proof {
            lemma_insert(rest, lo as int, merged);
        }
        self.ranges.insert(lo, merged);
        proof {
            assert(self@ =~= rest.insert(lo as int, merged));
            assert forall|a: int| covers(self@, a) == (covers(old(self)@, a) || addr <= a < end) by {
                assert(covers(self@, a) == (covers(rest, a) || holds(merged, a)));
                assert((covers(rest, a) || new_start <= a < new_end) == (covers(old(self)@, a)
                    || addr <= a < end));
            }
            assert(free_set(self@) =~= free_set(old(self)@).union(
                range_set(addr as int, addr + len),
            ));
        }
    }

    /// Whether a request of `len` bytes at `hint` can be served.
    pub fn can_fit(&self, hint: usize, len: usize) -> (r: bool)
        ensures
            r == can_take(self@, hint, len),
    {
        let n = self.ranges.len();
        let mut i: usize = 0;
        while i < n
            invariant
                i <= n,
                n == self@.len(),
                forall|j: int| 0 <= j < i ==> !fits(#[trigger] self@[j], hint, len),
            decreases n - i,
        {
            if span_fits(self.ranges[i], hint, len) {
                return true;
            }
            i += 1;
        }
        false
    }

    /// Whether any byte of `[addr, addr + len)` is free.
    pub fn overlaps(&self, addr: usize, len: usize) -> (r: bool)
        requires
            self.wf(),
            addr + len <= usize::MAX,
        ensures
            r == exists|a: int| addr <= a < addr + len && #[trigger] covers(self@, a),
    {
        let n = self.ranges.len();
        let mut i: usize = 0;
        while i < n
            invariant
                i <= n,
                n == self@.len(),
                self.wf(),
                addr + len <= usize::MAX,
                forall|j: int, a: int|
                    0 <= j < i && addr <= a < addr + len ==> !#[trigger] holds(self@[j], a),
            decreases n - i,
        {
            let sp = self.ranges[i];
            if len > 0 && sp.start < addr + len && addr < sp.end {
                proof {
                    let a = if sp.start > addr {
                        sp.start as int
                    } else {
                        addr as int
                    };
                    assert(holds(self@[i as int], a));
                    assert(covers(self@, a));
                }
                return true;
            }
            i += 1;
        }
        proof {
            assert forall|a: int| addr <= a < addr + len implies !covers(self@, a) by {
                if covers(self@, a) {
                    let k = choose|k: int| 0 <= k < self@.len() && (#[trigger] self@[k]).start <= a < self@[k].end;
                    assert(holds(self@[k], a));
                }
            }
        }
        false
    }

    /// The `i`-th free range, counted from the lowest.
    pub fn get(&self, i: usize) -> (r: Span)
        requires
            i < self@.len(),
        ensures
            r == self@[i as int],
    {
        self.ranges[i]
    }
}

/// Giving back what was just taken restores the map: after a successful
/// `take` of `len` bytes and a `give` of the same bytes, the ranges are those
/// from before the `take`.
pub proof fn lemma_take_give_restores(
    before: Seq<Span>,
    hint: usize,
    len: usize,
    r: Option<usize>,
    mid: Seq<Span>,
    after: Seq<Span>,
)
    requires
        spans_wf(before),
        took(before, hint, len, r, mid),
        r.is_some(),
        gave(mid, r.unwrap(), len, after),
    ensures
        after == before,
{
    let addr = r.unwrap();
    let i = choose|i: int| 0 <= i < before.len() && fits(#[trigger] before[i], hint, len) && (hint
        == 0 ==> addr == before[i].start);
    assert(exists|i: int| 0 <= i < before.len() && fits(#[trigger] before[i], hint, len) && (hint
        == 0 ==> addr == before[i].start)) by {
        if hint == 0 {
            let k = choose|k: int| #[trigger]
                is_first_fit(before, hint, len, k) && r == Some(before[k].start);
            assert(fits(before[k], hint, len));
        }
    }
    assert forall|a: int| free_set(after).contains(a) == free_set(before).contains(a) by {
        lemma_free_set(before, a);
        if addr <= a < addr + len {
            assert(holds(before[i], a));
        }
    }
    assert(free_set(after) =~= free_set(before));
    lemma_spans_unique(after, before);
}

} // verus!
