//! Free-slot computation over busy ranges, shared by every calendar provider.

use vstd::prelude::*;
use crate::time::{Timestamp, MAX_UNIX_SECS, MAX_DELTA_SECS, NANOS_PER_SEC, strip_leap};

verus! {

/// A free slot that can be booked.
#[derive(Clone, Copy, Debug, PartialEq, Eq, Structural)]
pub struct AvailabilitySlot {
    pub start: Timestamp,
    pub end: Timestamp,
}

/// The free slots of a calendar, in time order.
#[derive(Clone, Debug, PartialEq, Eq)]
pub struct Availability {
    pub slots: Vec<AvailabilitySlot>,
}

impl Default for Availability {
    fn default() -> (r: Availability)
        ensures
            r.slots@.len() == 0,
    {
        Availability { slots: Vec::new() }
    }
}

/// The availability that a finished query found, or no slots where it failed.
pub fn availability_or_empty<E>(result: Result<Availability, E>) -> (a: Availability)
    ensures
        match result {
            Ok(found) => a == found,
            Err(_) => a.slots@.len() == 0,
        },
{
    match result {
        Ok(found) => found,
        Err(_) => Availability { slots: Vec::new() },
    }
}

/// A request to book the range `[from, to)`.
#[derive(Clone, Copy, Debug, PartialEq, Eq, Structural)]
pub struct BookingRequest {
    pub from: Timestamp,
    pub to: Timestamp,
}

/// A booking that a provider accepted.
#[derive(Clone, Copy, Debug, PartialEq, Eq, Structural)]
pub struct Booking {
    pub from: Timestamp,
    pub to: Timestamp,
}

/// A busy range `(start, end)` as a calendar reports it.
pub type BusyRange = (Timestamp, Timestamp);

/// Every instant of the list is well formed.
pub open spec fn ranges_wf(busy: Seq<BusyRange>) -> bool {
    forall|i: int| 0 <= i < busy.len() ==> (#[trigger] busy[i]).0.wf() && busy[i].1.wf()
}

/// The range `r` overlaps `[from, to)`.
pub open spec fn overlaps(r: BusyRange, from: Timestamp, to: Timestamp) -> bool {
    r.0.pos() < to.pos() && from.pos() < r.1.pos()
}

/// Some range of `busy` overlaps `[from, to)`.
pub open spec fn conflicts(busy: Seq<BusyRange>, from: Timestamp, to: Timestamp) -> bool {
    exists|i: int| 0 <= i < busy.len() && overlaps(#[trigger] busy[i], from, to)
}

/// Whether booking `[from, to)` would collide with one of the `busy` ranges.
pub fn has_conflict(busy: &[BusyRange], from: Timestamp, to: Timestamp) -> (r: bool)
    requires
        ranges_wf(busy@),
        from.wf(),
        to.wf(),
    ensures
        r == conflicts(busy@, from, to),
{
    let n = busy.len();
    let mut i: usize = 0;
    while i < n
        invariant
            n == busy@.len(),
            0 <= i <= n,
            ranges_wf(busy@),
            from.wf(),
            to.wf(),
            forall|j: int| 0 <= j < i ==> !overlaps(#[trigger] busy@[j], from, to),
        decreases n - i,
    {
        let (busy_from, busy_to) = busy[i];
        assert(busy_from.wf() && busy_to.wf());
        if busy_from.is_before(&to) && from.is_before(&busy_to) {
            assert(overlaps(busy@[i as int], from, to));
            return true;
        }
        i = i + 1;
    }
    false
}

// ---------------------------------------------------------------------------
// The free time of a window.

/// The range takes part in the computation: it is proper and overlaps the window.
pub open spec fn relevant(r: BusyRange, from: Timestamp, to: Timestamp) -> bool {
    r.0.pos() < r.1.pos() && r.1.pos() > from.pos() && r.0.pos() < to.pos()
}

/// The later instant, the second one when they are equal.
pub open spec fn later_of(a: Timestamp, b: Timestamp) -> Timestamp {
    if a.pos() <= b.pos() { b } else { a }
}

/// The earlier instant, the first one when they are equal.
pub open spec fn earlier_of(a: Timestamp, b: Timestamp) -> Timestamp {
    if a.pos() <= b.pos() { a } else { b }
}

/// The range cut down to the window `[from, to]`.
pub open spec fn clamp(r: BusyRange, from: Timestamp, to: Timestamp) -> BusyRange {
    (later_of(r.0, from), earlier_of(r.1, to))
}

/// The instant `x` lies inside some clamped busy range.
pub open spec fn covered(busy: Seq<BusyRange>, from: Timestamp, to: Timestamp, x: Timestamp) -> bool {
    exists|i: int|
        0 <= i < busy.len() && relevant(#[trigger] busy[i], from, to) && clamp(busy[i], from, to).0.pos()
            <= x.pos() < clamp(busy[i], from, to).1.pos()
}

/// Free time can start at `g`: it is the start of the window, or the end of a
/// clamped busy range that no other range covers.
pub open spec fn gap_start(busy: Seq<BusyRange>, from: Timestamp, to: Timestamp, g: Timestamp) -> bool {
    ||| g == from
    ||| !covered(busy, from, to, g) && clamped_end(busy, from, to, g)
}

/// Some relevant busy range, clamped to the window, ends at `t`.
pub open spec fn clamped_end(busy: Seq<BusyRange>, from: Timestamp, to: Timestamp, t: Timestamp) -> bool {
    exists|i: int| 0 <= i < busy.len() && relevant(#[trigger] busy[i], from, to) && clamp(busy[i], from, to).1 == t
}

/// `[g, e)` is a stretch of free time that starts at a gap start and runs
/// until the next busy instant or the end of the window.
pub open spec fn is_gap(busy: Seq<BusyRange>, from: Timestamp, to: Timestamp, g: Timestamp, e: Timestamp) -> bool {
    &&& gap_start(busy, from, to, g)
    &&& g.pos() <= e.pos() <= to.pos()
    &&& forall|x: Timestamp| g.pos() <= x.pos() < e.pos() ==> !#[trigger] covered(busy, from, to, x)
    &&& (e == to || covered(busy, from, to, e))
}

/// The cursor after `k` slots of `d` seconds from `g`.
pub open spec fn step(g: Timestamp, k: nat, d: int) -> Timestamp {
    if k == 0 { g } else { g.plus_secs(k * d) }
}

/// The position of `step(g, k, d)`, without any bound on its seconds.
pub open spec fn reach(g: Timestamp, k: nat, d: int) -> int {
    if k == 0 { g.pos() } else { (g.secs + k * d) * 2_000_000_000 + strip_leap(g.nanos as int) }
}

/// The `k`-th slot of `d` seconds from `g`.
pub open spec fn slot_at(g: Timestamp, k: nat, d: int) -> AvailabilitySlot {
    AvailabilitySlot { start: step(g, k, d), end: step(g, k + 1, d) }
}

/// `c` starts a slot: it is a whole number of slots after the start of its
/// free stretch, and one more slot still fits in that stretch.
pub open spec fn is_slot_start(busy: Seq<BusyRange>, from: Timestamp, to: Timestamp, d: int, c: Timestamp) -> bool {
    exists|g: Timestamp, e: Timestamp, k: nat|
        #![trigger is_gap(busy, from, to, g, e), step(g, k, d)]
        is_gap(busy, from, to, g, e) && c == step(g, k, d) && reach(g, k + 1, d) <= e.pos()
}

/// Filling the stretch `[g, e)` with slots of `d` seconds never steps out of
/// the representable range: the first step past `e` is still representable.
pub open spec fn gap_fits(g: Timestamp, e: Timestamp, d: int) -> bool {
    exists|k: nat| 1 <= k && #[trigger] reach(g, k, d) > e.pos() && g.secs + k * d <= MAX_UNIX_SECS
}

/// Length of a slot in seconds for the requested number of minutes.
pub open spec fn slot_secs(slot_minutes: i64) -> int {
    60 * if slot_minutes >= 1 { slot_minutes as int } else { 1 }
}

/// The largest number of minutes that a duration can hold.
pub const MAX_SLOT_MINUTES: i64 = 153_722_867_280_912;

/// Computing the slots of the window steps out of the representable range nowhere.
pub open spec fn slots_fit(busy: Seq<BusyRange>, from: Timestamp, to: Timestamp, slot_minutes: i64) -> bool {
    to.pos() <= from.pos() || (slot_minutes <= MAX_SLOT_MINUTES && forall|g: Timestamp, e: Timestamp|
        #[trigger] is_gap(busy, from, to, g, e) ==> gap_fits(g, e, slot_secs(slot_minutes)))
}

// ---------------------------------------------------------------------------
// Arithmetic on slot steps.

proof fn lemma_reach_step(g: Timestamp, k: nat, d: int)
    requires
        g.wf(),
        d > 0,
        g.secs + k * d <= MAX_UNIX_SECS,
    ensures
        step(g, k, d).pos() == reach(g, k, d),
        step(g, k, d).wf(),
        step(g, k, d).secs == g.secs + k * d,
{
    assert(k * d >= 0) by (nonlinear_arith)
        requires
            d > 0,
    ;
    if k > 0 {
        assert(k * d >= d) by (nonlinear_arith)
            requires
                d > 0,
                k >= 1,
        ;
    }
}

proof fn lemma_reach_next(g: Timestamp, k: nat, d: int)
    requires
        g.wf(),
        d > 0,
    ensures
        reach(g, k + 1, d) == reach(g, k, d) + (if k == 0 {
            (g.secs + d) * 2_000_000_000 + strip_leap(g.nanos as int) - g.pos()
        } else {
            d * 2_000_000_000
        }),
        reach(g, k + 1, d) > reach(g, k, d),
        (k + 1) * d == k * d + d,
{
    assert((k + 1) * d == k * d + d) by (nonlinear_arith);
    if k > 0 {
        assert((g.secs + (k + 1) * d) * 2_000_000_000 == (g.secs + k * d) * 2_000_000_000 + d
            * 2_000_000_000) by (nonlinear_arith)
            requires
                (k + 1) * d == k * d + d,
        ;
    }
}

/// Steps further along are further along.
proof fn lemma_reach_monotonic(g: Timestamp, j: nat, k: nat, d: int)
    requires
        g.wf(),
        d > 0,
        j <= k,
    ensures
        reach(g, j, d) <= reach(g, k, d),
        j < k ==> reach(g, j, d) < reach(g, k, d),
        j * d <= k * d,
    decreases k - j,
{
    assert(j * d <= k * d) by (nonlinear_arith)
        requires
            d > 0,
            j <= k,
    ;
    if j < k {
        lemma_reach_monotonic(g, j, (k - 1) as nat, d);
        lemma_reach_next(g, (k - 1) as nat, d);
    }
}

/// Appends to `slots` every slot of `d` seconds that fits in `[g, e)`, in
/// order. Returns `false` when a step leaves the representable range.
fn push_slots(slots: &mut Vec<AvailabilitySlot>, g: Timestamp, e: Timestamp, d: i64) -> (r: bool)
    requires
        g.wf(),
        e.wf(),
        0 < d <= MAX_DELTA_SECS,
    ensures
        r == gap_fits(g, e, d as int),
        r ==> {
            &&& final(slots)@.len() >= old(slots)@.len()
            &&& forall|i: int| 0 <= i < old(slots)@.len() ==> final(slots)@[i] == old(slots)@[i]
            &&& forall|i: int|
                old(slots)@.len() <= i < final(slots)@.len() ==> final(slots)@[i] == slot_at(
                    g,
                    (i - old(slots)@.len()) as nat,
                    d as int,
                ) && reach(g, (i - old(slots)@.len() + 1) as nat, d as int) <= e.pos()
            &&& reach(g, (final(slots)@.len() - old(slots)@.len() + 1) as nat, d as int) > e.pos()
        },
{
    let ghost base = old(slots)@.len();
    if e.is_before(&g) {
        // No slot fits; the first step is still taken, and may leave the range.
        proof {
            lemma_reach_next(g, 0, d as int);
            assert forall|j: nat| 1 <= j implies #[trigger] reach(g, j, d as int) > e.pos() && j * d >= d by {
                lemma_reach_monotonic(g, 1, j, d as int);
                assert(1 * d == d);
            }
        }
        return match g.checked_add_secs(d) {
            None => false,
            Some(_) => {
                assert(reach(g, 1, d as int) > e.pos() && g.secs + 1 * d <= MAX_UNIX_SECS);
                assert(slots@.len() - base + 1 == 1);
                true
            },
        };
    }
    let ghost mut k: nat = 0;
    let mut cursor = g;
    loop
        invariant
            g.wf(),
            e.wf(),
            0 < d <= MAX_DELTA_SECS,
            base == old(slots)@.len(),
            cursor == step(g, k, d as int),
            cursor.wf(),
            cursor.secs == g.secs + k * d,
            cursor.pos() == reach(g, k, d as int),
            reach(g, k, d as int) <= e.pos(),
            slots@.len() == base + k,
            forall|i: int| 0 <= i < base ==> slots@[i] == old(slots)@[i],
            forall|i: int|
                base <= i < slots@.len() ==> slots@[i] == slot_at(g, (i - base) as nat, d as int)
                    && reach(g, (i - base + 1) as nat, d as int) <= e.pos(),
        decreases e.pos() - cursor.pos(),
    {
        proof {
            lemma_reach_next(g, k, d as int);
        }
        match cursor.checked_add_secs(d) {
            None => {
                proof {
                    assert forall|j: nat|
                        1 <= j && #[trigger] reach(g, j, d as int) > e.pos() implies !(g.secs + j * d
                        <= MAX_UNIX_SECS) by {
                        if j <= k {
                            lemma_reach_monotonic(g, j, k, d as int);
                        }
                        lemma_reach_monotonic(g, k + 1, j, d as int);
                    }
                }
                return false;
            },
            Some(end) => {
                proof {
                    lemma_reach_step(g, k + 1, d as int);
                }
                if end.is_not_after(&e) {
                    slots.push(AvailabilitySlot { start: cursor, end });
                    proof {
                        k = k + 1;
                    }
                    cursor = end;
                } else {
                    assert(1 <= k + 1 && reach(g, k + 1, d as int) > e.pos() && g.secs + (k + 1) * d
                        <= MAX_UNIX_SECS);
                    return true;
                }
            },
        }
    }
}


// ---------------------------------------------------------------------------
// Clamping, sorting and merging the busy ranges.

/// Every range of `rs` is well formed, proper and lies inside `[from, to]`.
pub open spec fn ranges_in_window(rs: Seq<BusyRange>, from: Timestamp, to: Timestamp) -> bool {
    forall|j: int|
        #![trigger rs[j]]
        0 <= j < rs.len() ==> {
            &&& rs[j].0.wf()
            &&& rs[j].1.wf()
            &&& from.pos() <= rs[j].0.pos()
            &&& rs[j].0.pos() < rs[j].1.pos()
            &&& rs[j].1.pos() <= to.pos()
        }
}

/// `r` is the clamp of one of the first `n` ranges of `busy`, which is relevant.
pub open spec fn clamp_of_some(r: BusyRange, busy: Seq<BusyRange>, from: Timestamp, to: Timestamp, n: int) -> bool {
    exists|k: int| 0 <= k < n && relevant(#[trigger] busy[k], from, to) && r == clamp(busy[k], from, to)
}

/// `r` occurs in `rs`.
pub open spec fn occurs(rs: Seq<BusyRange>, r: BusyRange) -> bool {
    exists|j: int| 0 <= j < rs.len() && #[trigger] rs[j] == r
}

/// `rs` holds exactly the clamped relevant ranges of `busy`.
pub open spec fn holds_clamped(rs: Seq<BusyRange>, busy: Seq<BusyRange>, from: Timestamp, to: Timestamp) -> bool {
    &&& forall|j: int| 0 <= j < rs.len() ==> clamp_of_some(#[trigger] rs[j], busy, from, to, busy.len() as int)
    &&& forall|i: int|
        0 <= i < busy.len() && relevant(#[trigger] busy[i], from, to) ==> occurs(rs, clamp(busy[i], from, to))
}

/// The relevant busy ranges, clamped to the window, in the order they were given.
fn clamped_ranges(busy: &[BusyRange], from: Timestamp, to: Timestamp) -> (r: Vec<BusyRange>)
    requires
        ranges_wf(busy@),
        from.wf(),
        to.wf(),
        from.pos() < to.pos(),
    ensures
        holds_clamped(r@, busy@, from, to),
        ranges_in_window(r@, from, to),
{
    let mut out: Vec<BusyRange> = Vec::new();
    let n = busy.len();
    let mut i: usize = 0;
    while i < n
        invariant
            n == busy@.len(),
            0 <= i <= n,
            ranges_wf(busy@),
            from.wf(),
            to.wf(),
            from.pos() < to.pos(),
            ranges_in_window(out@, from, to),
            forall|j: int| 0 <= j < out@.len() ==> clamp_of_some(#[trigger] out@[j], busy@, from, to, i as int),
            forall|k: int|
                0 <= k < i && relevant(#[trigger] busy@[k], from, to) ==> occurs(out@, clamp(busy@[k], from, to)),
        decreases n - i,
    {
        let (start, end) = busy[i];
        assert(start.wf() && end.wf());
        let ghost before = out@;
        if end.is_not_after(&start) || end.is_not_after(&from) || to.is_not_after(&start) {
            assert(!relevant(busy@[i as int], from, to));
        } else {
            let c = (start.latest(from), end.earliest(to));
            assert(c == clamp(busy@[i as int], from, to));
            out.push(c);
            assert(out@[before.len() as int] == c);
            assert(occurs(out@, c));
        }
        assert forall|j: int| 0 <= j < out@.len() implies clamp_of_some(#[trigger] out@[j], busy@, from, to, i + 1) by {
            if j < before.len() {
                assert(out@[j] == before[j]);
                assert(clamp_of_some(before[j], busy@, from, to, i as int));
                let k = choose|k: int| 0 <= k < i && relevant(#[trigger] busy@[k], from, to) && before[j] == clamp(busy@[k], from, to);
                assert(relevant(busy@[k], from, to));
            } else {
                assert(relevant(busy@[i as int], from, to));
            }
        }
        assert forall|k: int| 0 <= k < i + 1 && relevant(#[trigger] busy@[k], from, to) implies occurs(out@, clamp(busy@[k], from, to)) by {
            if k < i {
                assert(occurs(before, clamp(busy@[k], from, to)));
                let j0 = choose|j: int| 0 <= j < before.len() && #[trigger] before[j] == clamp(busy@[k], from, to);
                assert(out@[j0] == before[j0]);
            }
        }
        i = i + 1;
    }
    out
}

/// The ranges are ordered by their start.
pub open spec fn sorted_by_start(rs: Seq<BusyRange>) -> bool {
    forall|a: int, b: int| 0 <= a < b < rs.len() ==> (#[trigger] rs[a]).0.pos() <= (#[trigger] rs[b]).0.pos()
}

/// `r` occurs among the first `n` ranges of `rs`.
pub open spec fn occurs_before(rs: Seq<BusyRange>, n: int, r: BusyRange) -> bool {
    exists|k: int| 0 <= k < n && #[trigger] rs[k] == r
}

/// `a` and `b` hold the same ranges.
pub open spec fn same_ranges(a: Seq<BusyRange>, b: Seq<BusyRange>) -> bool {
    &&& forall|j: int| 0 <= j < a.len() ==> #[trigger] occurs(b, a[j])
    &&& forall|k: int| 0 <= k < b.len() ==> #[trigger] occurs(a, b[k])
}

/// Inserting `item` before the first range that starts after it keeps the order.
proof fn lemma_insert_sorted(before: Seq<BusyRange>, p: int, item: BusyRange)
    requires
        sorted_by_start(before),
        0 <= p <= before.len(),
        forall|j: int| 0 <= j < p ==> (#[trigger] before[j]).0.pos() <= item.0.pos(),
        p < before.len() ==> before[p].0.pos() > item.0.pos(),
    ensures
        sorted_by_start(before.insert(p, item)),
{
    let out = before.insert(p, item);
    assert forall|a: int, b: int| 0 <= a < b < out.len() implies (#[trigger] out[a]).0.pos()
        <= (#[trigger] out[b]).0.pos() by {
        if a < p && b < p {
            assert(out[a] == before[a] && out[b] == before[b]);
        } else if a < p && b == p {
            assert(out[a] == before[a]);
        } else if a < p {
            assert(out[a] == before[a] && out[b] == before[b - 1]);
        } else if a == p {
            assert(out[b] == before[b - 1]);
            assert(before[p].0.pos() <= before[b - 1].0.pos());
        } else {
            assert(out[a] == before[a - 1] && out[b] == before[b - 1]);
        }
    }
}

/// Orders the ranges by start; ranges with equal starts keep their order.
fn sort_by_start(v: Vec<BusyRange>) -> (r: Vec<BusyRange>)
    requires
        forall|j: int| 0 <= j < v@.len() ==> (#[trigger] v@[j]).0.wf() && v@[j].1.wf(),
    ensures
        sorted_by_start(r@),
        same_ranges(r@, v@),
{
    let mut out: Vec<BusyRange> = Vec::new();
    let n = v.len();
    let mut i: usize = 0;
    while i < n
        invariant
            n == v@.len(),
            0 <= i <= n,
            forall|j: int| 0 <= j < v@.len() ==> (#[trigger] v@[j]).0.wf() && v@[j].1.wf(),
            forall|j: int| 0 <= j < out@.len() ==> (#[trigger] out@[j]).0.wf() && out@[j].1.wf(),
            sorted_by_start(out@),
            forall|j: int| 0 <= j < out@.len() ==> #[trigger] occurs_before(v@, i as int, out@[j]),
            forall|k: int| 0 <= k < i ==> #[trigger] occurs(out@, v@[k]),
        decreases n - i,
    {
        let item = v[i];
        assert(item.0.wf() && item.1.wf());
        let mut p: usize = 0;
        while p < out.len() && out[p].0.is_not_after(&item.0)
            invariant
                0 <= p <= out@.len(),
                item.0.wf(),
                forall|j: int| 0 <= j < out@.len() ==> (#[trigger] out@[j]).0.wf() && out@[j].1.wf(),
                forall|j: int| 0 <= j < p ==> (#[trigger] out@[j]).0.pos() <= item.0.pos(),
            decreases out@.len() - p,
        {
            p = p + 1;
        }
        let ghost before = out@;
        proof {
            lemma_insert_sorted(before, p as int, item);
        }
        out.insert(p, item);
        assert(out@ == before.insert(p as int, item));
        assert forall|j: int| 0 <= j < out@.len() implies (#[trigger] out@[j]).0.wf() && out@[j].1.wf() by {
            if j < p {
                assert(out@[j] == before[j]);
            } else if j > p {
                assert(out@[j] == before[j - 1]);
            }
        }
        assert forall|j: int| 0 <= j < out@.len() implies #[trigger] occurs_before(v@, i + 1, out@[j]) by {
            if j < p {
                assert(out@[j] == before[j]);
                assert(occurs_before(v@, i as int, before[j]));
                let k = choose|k: int| 0 <= k < i && #[trigger] v@[k] == before[j];
                assert(v@[k] == out@[j]);
            } else if j == p {
                assert(out@[j] == v@[i as int]);
            } else {
                assert(out@[j] == before[j - 1]);
                assert(occurs_before(v@, i as int, before[j - 1]));
                let k = choose|k: int| 0 <= k < i && #[trigger] v@[k] == before[j - 1];
                assert(v@[k] == out@[j]);
            }
        }
        assert forall|k: int| 0 <= k < i + 1 implies #[trigger] occurs(out@, v@[k]) by {
            if k == i {
                assert(out@[p as int] == v@[k]);
            } else {
                assert(occurs(before, v@[k]));
                let j0 = choose|j: int| 0 <= j < before.len() && #[trigger] before[j] == v@[k];
                if j0 < p {
                    assert(out@[j0] == v@[k]);
                } else {
                    assert(out@[j0 + 1] == v@[k]);
                }
            }
        }
        i = i + 1;
    }
    assert forall|j: int| 0 <= j < out@.len() implies #[trigger] occurs(v@, out@[j]) by {
        assert(occurs_before(v@, n as int, out@[j]));
    }
    out
}

/// Some range among the first `n` of `rs` contains `x`.
pub open spec fn covered_before(rs: Seq<BusyRange>, n: int, x: Timestamp) -> bool {
    exists|k: int| 0 <= k < n && (#[trigger] rs[k]).0.pos() <= x.pos() < rs[k].1.pos()
}

/// Some range of `rs` contains `x`.
pub open spec fn covered_by(rs: Seq<BusyRange>, x: Timestamp) -> bool {
    covered_before(rs, rs.len() as int, x)
}

/// Some range of `rs` contains the whole range `r`.
pub open spec fn inside_some(rs: Seq<BusyRange>, r: BusyRange) -> bool {
    exists|j: int| 0 <= j < rs.len() && (#[trigger] rs[j]).0.pos() <= r.0.pos() && r.1.pos() <= rs[j].1.pos()
}

/// Some range among the first `n` of `rs` starts at `t`.
pub open spec fn starts_before(rs: Seq<BusyRange>, n: int, t: Timestamp) -> bool {
    exists|k: int| 0 <= k < n && (#[trigger] rs[k]).0 == t
}

/// Some range among the first `n` of `rs` ends at `t`.
pub open spec fn ends_before(rs: Seq<BusyRange>, n: int, t: Timestamp) -> bool {
    exists|k: int| 0 <= k < n && (#[trigger] rs[k]).1 == t
}

/// Each range ends strictly before the next one starts.
pub open spec fn separated(rs: Seq<BusyRange>) -> bool {
    forall|a: int, b: int| 0 <= a < b < rs.len() ==> (#[trigger] rs[a]).1.pos() < (#[trigger] rs[b]).0.pos()
}

/// Each of the first `n` ranges of `s` lies inside a range of `m`.
pub open spec fn all_inside(m: Seq<BusyRange>, s: Seq<BusyRange>, n: int) -> bool {
    forall|k: int| 0 <= k < n ==> #[trigger] inside_some(m, s[k])
}

/// Every instant inside a range of `m` is inside one of the first `n` ranges of `s`.
pub open spec fn covering(m: Seq<BusyRange>, s: Seq<BusyRange>, n: int) -> bool {
    forall|x: Timestamp| #[trigger] covered_by(m, x) ==> covered_before(s, n, x)
}

/// Every range of `m` starts where one of the first `n` ranges of `s` starts.
pub open spec fn starts_from(m: Seq<BusyRange>, s: Seq<BusyRange>, n: int) -> bool {
    forall|j: int| 0 <= j < m.len() ==> #[trigger] starts_before(s, n, m[j].0)
}

/// Every range of `m` ends where one of the first `n` ranges of `s` ends.
pub open spec fn ends_from(m: Seq<BusyRange>, s: Seq<BusyRange>, n: int) -> bool {
    forall|j: int| 0 <= j < m.len() ==> #[trigger] ends_before(s, n, m[j].1)
}

/// `m` is the union of the first `n` ranges of `s`, as separated ranges.
pub open spec fn merges(m: Seq<BusyRange>, s: Seq<BusyRange>, n: int) -> bool {
    &&& separated(m)
    &&& all_inside(m, s, n)
    &&& covering(m, s, n)
    &&& starts_from(m, s, n)
    &&& ends_from(m, s, n)
}

/// The merged range at `j` after the last one was extended to `new_end`.
pub open spec fn extended(before: Seq<BusyRange>, new_end: Timestamp) -> Seq<BusyRange> {
    before.update(before.len() - 1, (before[before.len() - 1].0, new_end))
}

proof fn lemma_extend_window(before: Seq<BusyRange>, r: BusyRange, from: Timestamp, to: Timestamp)
    requires
        before.len() > 0,
        ranges_in_window(before, from, to),
        ranges_in_window(seq![r], from, to),
    ensures
        ranges_in_window(extended(before, later_of(before[before.len() - 1].1, r.1)), from, to),
{
    let m = extended(before, later_of(before[before.len() - 1].1, r.1));
    assert(seq![r][0] == r);
    assert forall|j: int| #![trigger m[j]] 0 <= j < m.len() implies {
        &&& m[j].0.wf()
        &&& m[j].1.wf()
        &&& from.pos() <= m[j].0.pos()
        &&& m[j].0.pos() < m[j].1.pos()
        &&& m[j].1.pos() <= to.pos()
    } by {
        assert(before[j].0.wf());
    }
}

proof fn lemma_extend_separated(before: Seq<BusyRange>, new_end: Timestamp)
    requires
        before.len() > 0,
        separated(before),
    ensures
        separated(extended(before, new_end)),
{
    let m = extended(before, new_end);
    assert forall|a: int, b: int| 0 <= a < b < m.len() implies (#[trigger] m[a]).1.pos() < (#[trigger] m[b]).0.pos() by {
        assert(before[a].1.pos() < before[b].0.pos());
    }
}

proof fn lemma_extend_inside(before: Seq<BusyRange>, s: Seq<BusyRange>, i: int)
    requires
        0 <= i < s.len(),
        before.len() > 0,
        sorted_by_start(s),
        all_inside(before, s, i),
        starts_from(before, s, i),
    ensures
        all_inside(extended(before, later_of(before[before.len() - 1].1, s[i].1)), s, i + 1),
{
    let len = before.len();
    let m = extended(before, later_of(before[len - 1].1, s[i].1));
    assert(starts_before(s, i, before[len - 1].0));
    let k0 = choose|k: int| 0 <= k < i && (#[trigger] s[k]).0 == before[len - 1].0;
    assert(s[k0].0.pos() <= s[i].0.pos());
    assert forall|k: int| 0 <= k < i + 1 implies #[trigger] inside_some(m, s[k]) by {
        if k == i {
            assert(m[len - 1].0.pos() <= s[k].0.pos() && s[k].1.pos() <= m[len - 1].1.pos());
        } else {
            assert(inside_some(before, s[k]));
            let j = choose|j: int|
                0 <= j < before.len() && (#[trigger] before[j]).0.pos() <= s[k].0.pos() && s[k].1.pos()
                    <= before[j].1.pos();
            assert(m[j].0.pos() <= s[k].0.pos() && s[k].1.pos() <= m[j].1.pos());
        }
    }
}

proof fn lemma_extend_covering(before: Seq<BusyRange>, s: Seq<BusyRange>, i: int)
    requires
        0 <= i < s.len(),
        before.len() > 0,
        covering(before, s, i),
        s[i].0.pos() <= before[before.len() - 1].1.pos(),
    ensures
        covering(extended(before, later_of(before[before.len() - 1].1, s[i].1)), s, i + 1),
{
    let len = before.len();
    let m = extended(before, later_of(before[len - 1].1, s[i].1));
    assert forall|x: Timestamp| #[trigger] covered_by(m, x) implies covered_before(s, i + 1, x) by {
        let j = choose|j: int| 0 <= j < m.len() && (#[trigger] m[j]).0.pos() <= x.pos() < m[j].1.pos();
        if j < len - 1 || x.pos() < before[len - 1].1.pos() {
            assert(before[j].0.pos() <= x.pos() < before[j].1.pos());
            assert(covered_by(before, x));
            let k = choose|k: int| 0 <= k < i && (#[trigger] s[k]).0.pos() <= x.pos() < s[k].1.pos();
            assert(s[k].0.pos() <= x.pos() < s[k].1.pos());
        } else {
            assert(s[i].0.pos() <= x.pos() < s[i].1.pos());
        }
    }
}

proof fn lemma_extend_ends(before: Seq<BusyRange>, s: Seq<BusyRange>, i: int)
    requires
        0 <= i < s.len(),
        before.len() > 0,
        starts_from(before, s, i),
        ends_from(before, s, i),
    ensures
        starts_from(extended(before, later_of(before[before.len() - 1].1, s[i].1)), s, i + 1),
        ends_from(extended(before, later_of(before[before.len() - 1].1, s[i].1)), s, i + 1),
{
    let len = before.len();
    let m = extended(before, later_of(before[len - 1].1, s[i].1));
    assert forall|j: int| 0 <= j < m.len() implies #[trigger] starts_before(s, i + 1, m[j].0) by {
        assert(starts_before(s, i, before[j].0));
        let k = choose|k: int| 0 <= k < i && (#[trigger] s[k]).0 == before[j].0;
        assert(s[k].0 == m[j].0);
    }
    assert forall|j: int| 0 <= j < m.len() implies #[trigger] ends_before(s, i + 1, m[j].1) by {
        if j == len - 1 && m[j].1 == s[i].1 {
            assert(s[i].1 == m[j].1);
        } else {
            assert(ends_before(s, i, before[j].1));
            let k = choose|k: int| 0 <= k < i && (#[trigger] s[k]).1 == before[j].1;
            assert(s[k].1 == m[j].1);
        }
    }
}

proof fn lemma_push_window(before: Seq<BusyRange>, r: BusyRange, from: Timestamp, to: Timestamp)
    requires
        ranges_in_window(before, from, to),
        ranges_in_window(seq![r], from, to),
    ensures
        ranges_in_window(before.push(r), from, to),
{
    let m = before.push(r);
    assert(seq![r][0] == r);
    assert forall|j: int| #![trigger m[j]] 0 <= j < m.len() implies {
        &&& m[j].0.wf()
        &&& m[j].1.wf()
        &&& from.pos() <= m[j].0.pos()
        &&& m[j].0.pos() < m[j].1.pos()
        &&& m[j].1.pos() <= to.pos()
    } by {
        if j < before.len() {
            assert(before[j].0.wf());
        }
    }
}

proof fn lemma_push_separated(before: Seq<BusyRange>, r: BusyRange, from: Timestamp, to: Timestamp)
    requires
        separated(before),
        ranges_in_window(before, from, to),
        before.len() > 0 ==> r.0.pos() > before[before.len() - 1].1.pos(),
    ensures
        separated(before.push(r)),
{
    let len = before.len();
    let m = before.push(r);
    assert forall|a: int, b: int| 0 <= a < b < m.len() implies (#[trigger] m[a]).1.pos() < (#[trigger] m[b]).0.pos() by {
        if b < len {
            assert(before[a].1.pos() < before[b].0.pos());
        } else if a < len - 1 {
            assert(before[a].1.pos() < before[len - 1].0.pos());
            assert(before[len - 1].0.pos() < before[len - 1].1.pos());
        }
    }
}

proof fn lemma_push_inside(before: Seq<BusyRange>, s: Seq<BusyRange>, i: int)
    requires
        0 <= i < s.len(),
        all_inside(before, s, i),
    ensures
        all_inside(before.push(s[i]), s, i + 1),
{
    let len = before.len();
    let m = before.push(s[i]);
    assert forall|k: int| 0 <= k < i + 1 implies #[trigger] inside_some(m, s[k]) by {
        if k == i {
            assert(m[len as int] == s[k]);
        } else {
            assert(inside_some(before, s[k]));
            let j = choose|j: int|
                0 <= j < before.len() && (#[trigger] before[j]).0.pos() <= s[k].0.pos() && s[k].1.pos()
                    <= before[j].1.pos();
            assert(m[j] == before[j]);
        }
    }
}

proof fn lemma_push_covering(before: Seq<BusyRange>, s: Seq<BusyRange>, i: int)
    requires
        0 <= i < s.len(),
        covering(before, s, i),
    ensures
        covering(before.push(s[i]), s, i + 1),
{
    let len = before.len();
    let m = before.push(s[i]);
    assert forall|x: Timestamp| #[trigger] covered_by(m, x) implies covered_before(s, i + 1, x) by {
        let j = choose|j: int| 0 <= j < m.len() && (#[trigger] m[j]).0.pos() <= x.pos() < m[j].1.pos();
        if j < len {
            assert(before[j].0.pos() <= x.pos() < before[j].1.pos());
            assert(covered_by(before, x));
            let k = choose|k: int| 0 <= k < i && (#[trigger] s[k]).0.pos() <= x.pos() < s[k].1.pos();
            assert(s[k].0.pos() <= x.pos() < s[k].1.pos());
        } else {
            assert(m[j] == s[i]);
        }
    }
}

proof fn lemma_push_ends(before: Seq<BusyRange>, s: Seq<BusyRange>, i: int)
    requires
        0 <= i < s.len(),
        starts_from(before, s, i),
        ends_from(before, s, i),
    ensures
        starts_from(before.push(s[i]), s, i + 1),
        ends_from(before.push(s[i]), s, i + 1),
{
    let len = before.len();
    let m = before.push(s[i]);
    assert forall|j: int| 0 <= j < m.len() implies #[trigger] starts_before(s, i + 1, m[j].0) by {
        if j < len {
            assert(starts_before(s, i, before[j].0));
            let k = choose|k: int| 0 <= k < i && (#[trigger] s[k]).0 == before[j].0;
            assert(s[k].0 == m[j].0);
        } else {
            assert(m[j] == s[i]);
        }
    }
    assert forall|j: int| 0 <= j < m.len() implies #[trigger] ends_before(s, i + 1, m[j].1) by {
        if j < len {
            assert(ends_before(s, i, before[j].1));
            let k = choose|k: int| 0 <= k < i && (#[trigger] s[k]).1 == before[j].1;
            assert(s[k].1 == m[j].1);
        } else {
            assert(m[j] == s[i]);
        }
    }
}

/// Merges ranges sorted by start: ranges that overlap or touch become one.
fn merge_sorted(s: &Vec<BusyRange>, from: Timestamp, to: Timestamp) -> (m: Vec<BusyRange>)
    requires
        sorted_by_start(s@),
        ranges_in_window(s@, from, to),
    ensures
        merges(m@, s@, s@.len() as int),
        ranges_in_window(m@, from, to),
{
    let mut m: Vec<BusyRange> = Vec::new();
    let n = s.len();
    let mut i: usize = 0;
    while i < n
        invariant
            n == s@.len(),
            0 <= i <= n,
            sorted_by_start(s@),
            ranges_in_window(s@, from, to),
            ranges_in_window(m@, from, to),
            merges(m@, s@, i as int),
            i > 0 ==> m@.len() > 0,
        decreases n - i,
    {
        let (start, end) = s[i];
        assert(s@[i as int].0.wf() && s@[i as int].1.wf());
        let ghost before = m@;
        let len = m.len();
        if len > 0 && start.is_not_after(&m[len - 1].1) {
            let (last_start, last_end) = m[len - 1];
            assert(before[len - 1].0.wf() && before[len - 1].1.wf());
            let new_end = last_end.latest(end);
            m.set(len - 1, (last_start, new_end));
            proof {
                assert(m@ == extended(before, later_of(before[len - 1].1, s@[i as int].1)));
                assert(ranges_in_window(seq![s@[i as int]], from, to));
                lemma_extend_window(before, s@[i as int], from, to);
                lemma_extend_separated(before, new_end);
                lemma_extend_inside(before, s@, i as int);
                lemma_extend_covering(before, s@, i as int);
                lemma_extend_ends(before, s@, i as int);
            }
        } else {
            m.push((start, end));
            proof {
                assert(m@ == before.push(s@[i as int]));
                assert(ranges_in_window(seq![s@[i as int]], from, to));
                lemma_push_window(before, s@[i as int], from, to);
                lemma_push_separated(before, s@[i as int], from, to);
                lemma_push_inside(before, s@, i as int);
                lemma_push_covering(before, s@, i as int);
                lemma_push_ends(before, s@, i as int);
            }
        }
        i = i + 1;
    }
    m
}


// ---------------------------------------------------------------------------
// From the merged ranges to the free stretches of the window.

proof fn lemma_same_window(s: Seq<BusyRange>, f: Seq<BusyRange>, from: Timestamp, to: Timestamp)
    requires
        same_ranges(s, f),
        ranges_in_window(f, from, to),
    ensures
        ranges_in_window(s, from, to),
{
    assert forall|k: int| #![trigger s[k]] 0 <= k < s.len() implies {
        &&& s[k].0.wf()
        &&& s[k].1.wf()
        &&& from.pos() <= s[k].0.pos()
        &&& s[k].0.pos() < s[k].1.pos()
        &&& s[k].1.pos() <= to.pos()
    } by {
        assert(occurs(f, s[k]));
        let j = choose|j: int| 0 <= j < f.len() && #[trigger] f[j] == s[k];
        assert(f[j] == s[k]);
    }
}

/// What the merged ranges `m` say about the busy ranges they were made of.
proof fn lemma_merged_facts(
    busy: Seq<BusyRange>,
    from: Timestamp,
    to: Timestamp,
    f: Seq<BusyRange>,
    s: Seq<BusyRange>,
    m: Seq<BusyRange>,
)
    requires
        holds_clamped(f, busy, from, to),
        same_ranges(s, f),
        merges(m, s, s.len() as int),
    ensures
        forall|x: Timestamp| #[trigger] covered(busy, from, to, x) ==> covered_by(m, x),
        forall|x: Timestamp| #[trigger] covered_by(m, x) ==> covered(busy, from, to, x),
        forall|j: int| 0 <= j < m.len() ==> #[trigger] clamped_end(busy, from, to, m[j].1),
        forall|i: int|
            0 <= i < busy.len() && relevant(#[trigger] busy[i], from, to) ==> inside_some(m, clamp(busy[i], from, to)),
{
    assert forall|i: int|
        0 <= i < busy.len() && relevant(#[trigger] busy[i], from, to) implies inside_some(
        m,
        clamp(busy[i], from, to),
    ) by {
        let c = clamp(busy[i], from, to);
        assert(occurs(f, c));
        let jf = choose|j: int| 0 <= j < f.len() && #[trigger] f[j] == c;
        assert(occurs(s, f[jf]));
        let ks = choose|k: int| 0 <= k < s.len() && #[trigger] s[k] == f[jf];
        assert(inside_some(m, s[ks]));
    }
    assert forall|x: Timestamp| #[trigger] covered(busy, from, to, x) implies covered_by(m, x) by {
        let i = choose|i: int|
            0 <= i < busy.len() && relevant(#[trigger] busy[i], from, to) && clamp(busy[i], from, to).0.pos()
                <= x.pos() < clamp(busy[i], from, to).1.pos();
        assert(inside_some(m, clamp(busy[i], from, to)));
        let j = choose|j: int|
            0 <= j < m.len() && (#[trigger] m[j]).0.pos() <= clamp(busy[i], from, to).0.pos() && clamp(
                busy[i],
                from,
                to,
            ).1.pos() <= m[j].1.pos();
        assert(m[j].0.pos() <= x.pos() < m[j].1.pos());
    }
    assert forall|x: Timestamp| #[trigger] covered_by(m, x) implies covered(busy, from, to, x) by {
        assert(covered_before(s, s.len() as int, x));
        let k = choose|k: int| 0 <= k < s.len() && (#[trigger] s[k]).0.pos() <= x.pos() < s[k].1.pos();
        assert(occurs(f, s[k]));
        let jf = choose|j: int| 0 <= j < f.len() && #[trigger] f[j] == s[k];
        assert(clamp_of_some(f[jf], busy, from, to, busy.len() as int));
        let i = choose|i: int|
            0 <= i < busy.len() && relevant(#[trigger] busy[i], from, to) && f[jf] == clamp(busy[i], from, to);
        assert(relevant(busy[i], from, to));
    }
    assert forall|j: int| 0 <= j < m.len() implies #[trigger] clamped_end(busy, from, to, m[j].1) by {
        assert(ends_before(s, s.len() as int, m[j].1));
        let k = choose|k: int| 0 <= k < s.len() && (#[trigger] s[k]).1 == m[j].1;
        assert(occurs(f, s[k]));
        let jf = choose|j: int| 0 <= j < f.len() && #[trigger] f[j] == s[k];
        assert(clamp_of_some(f[jf], busy, from, to, busy.len() as int));
        let i = choose|i: int|
            0 <= i < busy.len() && relevant(#[trigger] busy[i], from, to) && f[jf] == clamp(busy[i], from, to);
        assert(relevant(busy[i], from, to));
    }
}

/// Start of the `j`-th free stretch between the merged ranges.
spec fn gap_lo(m: Seq<BusyRange>, from: Timestamp, j: int) -> Timestamp {
    if j == 0 { from } else { m[j - 1].1 }
}

/// End of the `j`-th free stretch between the merged ranges.
spec fn gap_hi(m: Seq<BusyRange>, to: Timestamp, j: int) -> Timestamp {
    if j < m.len() { m[j].0 } else { to }
}

/// The merged ranges describe the busy time of the window.
spec fn merged_ok(busy: Seq<BusyRange>, from: Timestamp, to: Timestamp, m: Seq<BusyRange>) -> bool {
    &&& ranges_wf(busy)
    &&& from.wf()
    &&& to.wf()
    &&& from.pos() < to.pos()
    &&& ranges_in_window(m, from, to)
    &&& separated(m)
    &&& forall|x: Timestamp| #[trigger] covered(busy, from, to, x) ==> covered_by(m, x)
    &&& forall|x: Timestamp| #[trigger] covered_by(m, x) ==> covered(busy, from, to, x)
    &&& forall|j: int| 0 <= j < m.len() ==> #[trigger] clamped_end(busy, from, to, m[j].1)
    &&& forall|i: int|
        0 <= i < busy.len() && relevant(#[trigger] busy[i], from, to) ==> inside_some(m, clamp(busy[i], from, to))
}

/// Ends of earlier merged ranges come before starts of later ones.
proof fn lemma_merged_order(m: Seq<BusyRange>, from: Timestamp, to: Timestamp, a: int, b: int)
    requires
        ranges_in_window(m, from, to),
        separated(m),
        0 <= a < b < m.len(),
    ensures
        m[a].1.pos() < m[b].0.pos(),
        m[a].1.pos() < m[b].1.pos(),
        m[a].0.pos() < m[b].0.pos(),
{
    assert(m[a].0.pos() < m[a].1.pos());
    assert(m[b].0.pos() < m[b].1.pos());
}

/// The `j`-th stretch between the merged ranges is free time of the window.
proof fn lemma_gap_sound(busy: Seq<BusyRange>, from: Timestamp, to: Timestamp, m: Seq<BusyRange>, j: int)
    requires
        merged_ok(busy, from, to, m),
        0 <= j <= m.len(),
    ensures
        is_gap(busy, from, to, gap_lo(m, from, j), gap_hi(m, to, j)),
        gap_lo(m, from, j).wf(),
        gap_hi(m, to, j).wf(),
{
    let g = gap_lo(m, from, j);
    let e = gap_hi(m, to, j);
    if j > 0 {
        assert(m[j - 1].1.wf());
        assert(clamped_end(busy, from, to, m[j - 1].1));
        if covered(busy, from, to, g) {
            assert(covered_by(m, g));
            let i = choose|i: int| 0 <= i < m.len() && (#[trigger] m[i]).0.pos() <= g.pos() < m[i].1.pos();
            if i < j - 1 {
                lemma_merged_order(m, from, to, i, j - 1);
            } else if i > j - 1 {
                lemma_merged_order(m, from, to, j - 1, i);
            }
        }
    }
    if j < m.len() {
        assert(m[j].0.wf() && m[j].0.pos() < m[j].1.pos());
        if j > 0 {
            lemma_merged_order(m, from, to, j - 1, j);
        }
        assert(m[j].0.pos() <= e.pos() < m[j].1.pos());
        assert(covered_by(m, e));
    }
    assert forall|x: Timestamp| g.pos() <= x.pos() < e.pos() implies !#[trigger] covered(busy, from, to, x) by {
        if covered(busy, from, to, x) {
            assert(covered_by(m, x));
            let i = choose|i: int| 0 <= i < m.len() && (#[trigger] m[i]).0.pos() <= x.pos() < m[i].1.pos();
            if i < j - 1 {
                lemma_merged_order(m, from, to, i, j - 1);
            } else if i > j {
                lemma_merged_order(m, from, to, j, i);
            }
        }
    }
}

/// Every stretch of free time is one of the stretches between the merged ranges.
proof fn lemma_gap_complete(
    busy: Seq<BusyRange>,
    from: Timestamp,
    to: Timestamp,
    m: Seq<BusyRange>,
    g: Timestamp,
    e: Timestamp,
) -> (j: int)
    requires
        merged_ok(busy, from, to, m),
        is_gap(busy, from, to, g, e),
    ensures
        0 <= j <= m.len(),
        g == gap_lo(m, from, j),
        e.pos() == gap_hi(m, to, j).pos(),
{
    let j: int = if g == from {
        0
    } else {
        let i = choose|i: int|
            0 <= i < busy.len() && relevant(#[trigger] busy[i], from, to) && clamp(busy[i], from, to).1 == g;
        assert(inside_some(m, clamp(busy[i], from, to)));
        let jm = choose|jm: int|
            0 <= jm < m.len() && (#[trigger] m[jm]).0.pos() <= clamp(busy[i], from, to).0.pos() && clamp(
                busy[i],
                from,
                to,
            ).1.pos() <= m[jm].1.pos();
        assert(busy[i].0.wf() && busy[i].1.wf());
        assert(m[jm].0.pos() <= g.pos());
        if g.pos() < m[jm].1.pos() {
            assert(covered_by(m, g));
        }
        assert(m[jm].1.wf());
        crate::time::lemma_pos_injective(g, m[jm].1);
        jm + 1
    };
    let h = gap_hi(m, to, j);
    if j < m.len() {
        assert(m[j].0.pos() < m[j].1.pos());
        assert(covered_by(m, h));
        if j > 0 {
            lemma_merged_order(m, from, to, j - 1, j);
        }
        assert(g.pos() <= h.pos());
    }
    if covered(busy, from, to, e) {
        assert(covered_by(m, e));
        let i = choose|i: int| 0 <= i < m.len() && (#[trigger] m[i]).0.pos() <= e.pos() < m[i].1.pos();
        if i < j - 1 {
            lemma_merged_order(m, from, to, i, j - 1);
        } else if i > j {
            lemma_merged_order(m, from, to, j, i);
        }
        assert(h.pos() <= e.pos());
    } else {
        assert(e == to);
        if j < m.len() {
            assert(m[j].0.pos() < m[j].1.pos());
        }
    }
    if h.pos() < e.pos() {
        if j < m.len() {
            assert(!covered(busy, from, to, h));
        }
    }
    j
}


// ---------------------------------------------------------------------------
// Filling the free stretches with slots.

/// A step that ends inside the window is still representable.
proof fn lemma_reach_bound(g: Timestamp, k: nat, d: int, e: Timestamp)
    requires
        g.wf(),
        e.wf(),
        d > 0,
        reach(g, k, d) <= e.pos(),
    ensures
        g.secs + k * d <= e.secs,
        step(g, k, d).pos() == reach(g, k, d),
        step(g, k, d).wf(),
{
    assert(k * d >= 0) by (nonlinear_arith)
        requires
            d > 0,
    ;
    if k > 0 {
        assert((g.secs + k * d) * 2_000_000_000 <= e.pos());
        if g.secs + k * d > e.secs {
            assert((g.secs + k * d) * 2_000_000_000 >= (e.secs + 1) * 2_000_000_000) by (nonlinear_arith)
                requires
                    g.secs + k * d > e.secs,
            ;
        }
    }
    lemma_reach_step(g, k, d);
}

/// One more slot after the `k`-th one starts where the `k`-th ends.
proof fn lemma_step_plus(g: Timestamp, k: nat, d: int)
    requires
        g.wf(),
        d > 0,
        g.secs + (k + 1) * d <= MAX_UNIX_SECS,
    ensures
        step(g, k, d).plus_secs(d) == step(g, k + 1, d),
{
    lemma_reach_next(g, k, d);
    lemma_reach_step(g, k, d);
    lemma_reach_step(g, k + 1, d);
}

/// The slot was produced for one of the first `j` free stretches.
spec fn slot_from_gaps(m: Seq<BusyRange>, from: Timestamp, to: Timestamp, d: int, j: int, sl: AvailabilitySlot) -> bool {
    exists|mm: int, k: nat|
        #![trigger slot_at(gap_lo(m, from, mm), k, d)]
        0 <= mm < j && sl == slot_at(gap_lo(m, from, mm), k, d) && reach(gap_lo(m, from, mm), k + 1, d)
            <= gap_hi(m, to, mm).pos()
}

/// Some slot of the list starts at `c`.
pub open spec fn listed(slots: Seq<AvailabilitySlot>, c: Timestamp) -> bool {
    exists|i: int| 0 <= i < slots.len() && (#[trigger] slots[i]).start == c
}

/// `slots` holds, in order, all slots of the first `j` free stretches, and
/// every one of them ends by `limit`.
spec fn slots_upto(
    m: Seq<BusyRange>,
    from: Timestamp,
    to: Timestamp,
    d: int,
    j: int,
    slots: Seq<AvailabilitySlot>,
    limit: Timestamp,
) -> bool {
    &&& forall|i: int| 0 <= i < slots.len() ==> #[trigger] slot_from_gaps(m, from, to, d, j, slots[i])
    &&& forall|a: int, b: int|
        0 <= a < b < slots.len() ==> (#[trigger] slots[a]).start.pos() < (#[trigger] slots[b]).start.pos()
    &&& forall|i: int|
        0 <= i < slots.len() ==> (#[trigger] slots[i]).start.pos() < slots[i].end.pos() <= limit.pos()
    &&& forall|mm: int, k: nat|
        0 <= mm < j && reach(gap_lo(m, from, mm), k + 1, d) <= gap_hi(m, to, mm).pos() ==> #[trigger] listed(
            slots,
            step(gap_lo(m, from, mm), k, d),
        )
    &&& forall|mm: int| 0 <= mm < j ==> #[trigger] gap_fits(gap_lo(m, from, mm), gap_hi(m, to, mm), d)
}

/// Appending the slots of the `j`-th free stretch extends the invariant to `j + 1`.
proof fn lemma_slots_step(
    busy: Seq<BusyRange>,
    from: Timestamp,
    to: Timestamp,
    m: Seq<BusyRange>,
    d: int,
    j: int,
    before: Seq<AvailabilitySlot>,
    after: Seq<AvailabilitySlot>,
)
    requires
        merged_ok(busy, from, to, m),
        0 <= j <= m.len(),
        d > 0,
        slots_upto(m, from, to, d, j, before, gap_lo(m, from, j)),
        gap_fits(gap_lo(m, from, j), gap_hi(m, to, j), d),
        after.len() >= before.len(),
        forall|i: int| 0 <= i < before.len() ==> after[i] == before[i],
        forall|i: int|
            before.len() <= i < after.len() ==> after[i] == slot_at(
                gap_lo(m, from, j),
                (i - before.len()) as nat,
                d,
            ) && reach(gap_lo(m, from, j), (i - before.len() + 1) as nat, d) <= gap_hi(m, to, j).pos(),
        reach(gap_lo(m, from, j), (after.len() - before.len() + 1) as nat, d) > gap_hi(m, to, j).pos(),
    ensures
        slots_upto(m, from, to, d, j + 1, after, gap_hi(m, to, j)),
{
    let lo = gap_lo(m, from, j);
    let hi = gap_hi(m, to, j);
    let base = before.len();
    lemma_gap_sound(busy, from, to, m, j);
    assert forall|i: int| 0 <= i < after.len() implies #[trigger] slot_from_gaps(m, from, to, d, j + 1, after[i]) by {
        if i < base {
            assert(slot_from_gaps(m, from, to, d, j, before[i]));
            let (mm, k) = choose|mm: int, k: nat|
                #![trigger slot_at(gap_lo(m, from, mm), k, d)]
                0 <= mm < j && before[i] == slot_at(gap_lo(m, from, mm), k, d) && reach(
                    gap_lo(m, from, mm),
                    k + 1,
                    d,
                ) <= gap_hi(m, to, mm).pos();
            assert(after[i] == slot_at(gap_lo(m, from, mm), k, d));
        } else {
            let k = (i - base) as nat;
            assert(after[i] == slot_at(lo, k, d));
            assert(reach(lo, k + 1, d) <= hi.pos());
        }
    }
    // Bounds of the new slots.
    assert forall|i: int| base <= i < after.len() implies {
        &&& (#[trigger] after[i]).start.pos() == reach(lo, (i - base) as nat, d)
        &&& after[i].end.pos() == reach(lo, (i - base + 1) as nat, d)
        &&& after[i].start.pos() < after[i].end.pos() <= hi.pos()
        &&& lo.pos() <= after[i].start.pos()
    } by {
        let k = (i - base) as nat;
        assert(after[i] == slot_at(lo, k, d) && reach(lo, (i - base + 1) as nat, d) <= hi.pos());
        assert((i - base + 1) as nat == k + 1);
        lemma_reach_bound(lo, k + 1, d, hi);
        lemma_reach_next(lo, k, d);
        lemma_reach_monotonic(lo, k, k + 1, d);
        lemma_reach_bound(lo, k, d, hi);
        lemma_reach_monotonic(lo, 0, k, d);
    }
    assert forall|a: int, b: int|
        0 <= a < b < after.len() implies (#[trigger] after[a]).start.pos() < (#[trigger] after[b]).start.pos() by {
        if b < base {
            assert(after[a] == before[a] && after[b] == before[b]);
        } else if a < base {
            assert(after[a] == before[a]);
            assert(before[a].start.pos() < before[a].end.pos() <= lo.pos());
        } else {
            lemma_reach_monotonic(lo, (a - base) as nat, (b - base) as nat, d);
        }
    }
    assert forall|i: int|
        0 <= i < after.len() implies (#[trigger] after[i]).start.pos() < after[i].end.pos() <= hi.pos() by {
        if i < base {
            assert(after[i] == before[i]);
            assert(before[i].end.pos() <= lo.pos());
        }
    }
    assert forall|mm: int, k: nat|
        0 <= mm < j + 1 && reach(gap_lo(m, from, mm), k + 1, d) <= gap_hi(m, to, mm).pos() implies #[trigger] listed(
        after,
        step(gap_lo(m, from, mm), k, d),
    ) by {
        if mm < j {
            assert(listed(before, step(gap_lo(m, from, mm), k, d)));
            let i = choose|i: int| 0 <= i < before.len() && (#[trigger] before[i]).start == step(gap_lo(m, from, mm), k, d);
            assert(after[i] == before[i]);
        } else {
            let cnt = (after.len() - base) as nat;
            if k + 1 > cnt {
                lemma_reach_monotonic(lo, cnt + 1, k + 1, d);
            }
            assert(after[base + k as int] == slot_at(lo, k, d));
        }
    }
    assert forall|mm: int| 0 <= mm < j + 1 implies #[trigger] gap_fits(gap_lo(m, from, mm), gap_hi(m, to, mm), d) by {
        if mm < j {
        }
    }
}

/// The slots of length `slot_minutes` (at least one) in the free time of
/// `[from, to]`, or `None` where a step would leave the representable range.
pub open spec fn slots_exact(
    busy: Seq<BusyRange>,
    from: Timestamp,
    to: Timestamp,
    slot_minutes: i64,
    slots: Seq<AvailabilitySlot>,
) -> bool {
    let d = slot_secs(slot_minutes);
    if to.pos() <= from.pos() {
        slots.len() == 0
    } else {
        &&& forall|i: int|
            0 <= i < slots.len() ==> is_slot_start(busy, from, to, d, (#[trigger] slots[i]).start)
                && slots[i].end == slots[i].start.plus_secs(d)
        &&& forall|a: int, b: int|
            0 <= a < b < slots.len() ==> (#[trigger] slots[a]).start.pos() < (#[trigger] slots[b]).start.pos()
        &&& forall|c: Timestamp| #[trigger] is_slot_start(busy, from, to, d, c) ==> listed(slots, c)
    }
}

/// Convert busy ranges into free availability slots of `slot_minutes`
/// minutes (at least one), or `None` where a slot step would leave the
/// representable time range.
///
/// Busy ranges are clamped to `[from, to]`, sorted, and merged. Only slots at
/// least `slot_minutes` long are returned.
pub fn try_availability_slots(from: Timestamp, to: Timestamp, busy: &[BusyRange], slot_minutes: i64) -> (r:
    Option<Availability>)
    requires
        from.wf(),
        to.wf(),
        ranges_wf(busy@),
    ensures
        r is Some <==> slots_fit(busy@, from, to, slot_minutes),
        r matches Some(a) ==> slots_exact(busy@, from, to, slot_minutes, a.slots@),
{
    if to.is_not_after(&from) {
        return Some(Availability { slots: Vec::new() });
    }
    if slot_minutes > MAX_SLOT_MINUTES {
        return None;
    }
    let minutes: i64 = if slot_minutes >= 1 { slot_minutes } else { 1 };
    let d: i64 = minutes * 60;
    let ghost dd = slot_secs(slot_minutes);
    assert(d as int == dd);
    let clamped = clamped_ranges(busy, from, to);
    let sorted = sort_by_start(clamped);
    proof {
        lemma_same_window(sorted@, clamped@, from, to);
    }
    let merged = merge_sorted(&sorted, from, to);
    proof {
        lemma_merged_facts(busy@, from, to, clamped@, sorted@, merged@);
    }
    let ghost m = merged@;
    assert(merged_ok(busy@, from, to, m));
    let n = merged.len();
    let mut slots: Vec<AvailabilitySlot> = Vec::new();
    let mut cursor = from;
    let mut j: usize = 0;
    loop
        invariant_except_break
            slots_upto(m, from, to, dd, j as int, slots@, cursor),
        invariant
            merged_ok(busy@, from, to, m),
            m == merged@,
            n == m.len(),
            0 <= j <= n,
            d as int == dd,
            dd == slot_secs(slot_minutes),
            0 < d <= MAX_DELTA_SECS,
            cursor == gap_lo(m, from, j as int),
        ensures
            slots_upto(m, from, to, dd, n + 1, slots@, to),
        decreases n - j,
    {
        proof {
            lemma_gap_sound(busy@, from, to, m, j as int);
        }
        let hi = if j < n { merged[j].0 } else { to };
        assert(hi == gap_hi(m, to, j as int));
        let ghost before = slots@;
        if !push_slots(&mut slots, cursor, hi, d) {
            assert(!gap_fits(gap_lo(m, from, j as int), gap_hi(m, to, j as int), dd));
            assert(is_gap(busy@, from, to, gap_lo(m, from, j as int), gap_hi(m, to, j as int)));
            assert(!slots_fit(busy@, from, to, slot_minutes));
            return None;
        }
        proof {
            let after = slots@;
            let jj = j as int;
            let lo = gap_lo(m, from, jj);
            let hg = gap_hi(m, to, jj);
            assert(lo == cursor);
            assert(hg == hi);
            assert forall|i: int| before.len() <= i < after.len() implies (#[trigger] after[i]) == slot_at(lo, (i - before.len()) as nat, dd)
                && reach(lo, (i - before.len() + 1) as nat, dd) <= hg.pos() by {
                assert(slots@[i] == slot_at(cursor, (i - before.len()) as nat, d as int));
                assert(reach(cursor, (i - before.len() + 1) as nat, d as int) <= hi.pos());
            }
            lemma_slots_step(busy@, from, to, m, dd, jj, before, after);
        }
        if j == n {
            break;
        }
        assert(m[j as int].1.wf() && m[j as int].0.pos() < m[j as int].1.pos());
        cursor = merged[j].1.latest(cursor);
        j = j + 1;
    }
    let ghost fin = slots@;
    assert(slots_upto(m, from, to, dd, n + 1, fin, to));
    assert forall|g: Timestamp, e: Timestamp| #[trigger] is_gap(busy@, from, to, g, e) implies gap_fits(g, e, dd) by {
        let mm = lemma_gap_complete(busy@, from, to, m, g, e);
        assert(gap_fits(gap_lo(m, from, mm), gap_hi(m, to, mm), dd));
        let k = choose|k: nat|
            1 <= k && #[trigger] reach(gap_lo(m, from, mm), k, dd) > gap_hi(m, to, mm).pos() && gap_lo(m, from, mm).secs
                + k * dd <= MAX_UNIX_SECS;
        assert(reach(g, k, dd) > e.pos());
    }
    assert forall|i: int| 0 <= i < fin.len() implies is_slot_start(busy@, from, to, dd, (#[trigger] fin[i]).start)
        && fin[i].end == fin[i].start.plus_secs(dd) by {
        assert(slot_from_gaps(m, from, to, dd, n + 1, fin[i]));
        let (mm, k) = choose|mm: int, k: nat|
            #![trigger slot_at(gap_lo(m, from, mm), k, dd)]
            0 <= mm < n + 1 && fin[i] == slot_at(gap_lo(m, from, mm), k, dd) && reach(gap_lo(m, from, mm), k + 1, dd)
                <= gap_hi(m, to, mm).pos();
        lemma_gap_sound(busy@, from, to, m, mm);
        let g = gap_lo(m, from, mm);
        let e = gap_hi(m, to, mm);
        assert(is_gap(busy@, from, to, g, e) && fin[i].start == step(g, k, dd) && reach(g, k + 1, dd) <= e.pos());
        lemma_reach_bound(g, k + 1, dd, e);
        lemma_step_plus(g, k, dd);
    }
    assert forall|c: Timestamp| #[trigger] is_slot_start(busy@, from, to, dd, c) implies listed(fin, c) by {
        let (g, e, k) = choose|g: Timestamp, e: Timestamp, k: nat|
            #![trigger is_gap(busy@, from, to, g, e), step(g, k, dd)]
            is_gap(busy@, from, to, g, e) && c == step(g, k, dd) && reach(g, k + 1, dd) <= e.pos();
        let mm = lemma_gap_complete(busy@, from, to, m, g, e);
        assert(listed(fin, step(gap_lo(m, from, mm), k, dd)));
    }
    Some(Availability { slots })
}

/// Convert busy ranges into free availability slots of `slot_minutes`
/// minutes (at least one).
///
/// Busy ranges are clamped to `[from, to]`, sorted, and merged. Only slots at
/// least `slot_minutes` long are returned.
pub fn availability_slots(from: Timestamp, to: Timestamp, busy: &[BusyRange], slot_minutes: i64) -> (r: Availability)
    requires
        from.wf(),
        to.wf(),
        ranges_wf(busy@),
        slots_fit(busy@, from, to, slot_minutes),
    ensures
        slots_exact(busy@, from, to, slot_minutes, r.slots@),
{
    match try_availability_slots(from, to, busy, slot_minutes) {
        Some(a) => a,
        None => Availability { slots: Vec::new() },
    }
}


// ---------------------------------------------------------------------------
// Laws of the computed slots.

/// Every range of the list is proper: it ends after it starts.
pub open spec fn ranges_proper(busy: Seq<BusyRange>) -> bool {
    forall|i: int| 0 <= i < busy.len() ==> (#[trigger] busy[i]).0.pos() < busy[i].1.pos()
}

/// An element of a joined list is an element of one of its parts.
pub(crate) proof fn lemma_concat_contains<A>(a: Seq<A>, b: Seq<A>, x: A)
    ensures
        (a + b).contains(x) <==> a.contains(x) || b.contains(x),
{
    if (a + b).contains(x) {
        let i = choose|i: int| 0 <= i < (a + b).len() && (a + b)[i] == x;
        if i < a.len() {
            assert(a[i] == x);
        } else {
            assert(b[i - a.len()] == x);
        }
    }
    if a.contains(x) {
        let i = choose|i: int| 0 <= i < a.len() && a[i] == x;
        assert((a + b)[i] == x);
    }
    if b.contains(x) {
        let i = choose|i: int| 0 <= i < b.len() && b[i] == x;
        assert((a + b)[a.len() + i] == x);
    }
}

/// Joining two lists of proper ranges gives a list of proper ranges.
pub(crate) proof fn lemma_proper_concat(a: Seq<BusyRange>, b: Seq<BusyRange>)
    requires
        ranges_proper(a),
        ranges_proper(b),
    ensures
        ranges_proper(a + b),
{
    assert forall|i: int| 0 <= i < (a + b).len() implies (#[trigger] (a + b)[i]).0.pos() < (a + b)[i].1.pos() by {
        if i < a.len() {
            assert((a + b)[i] == a[i]);
        } else {
            assert((a + b)[i] == b[i - a.len()]);
        }
    }
}

/// Joining two lists of well-formed ranges gives a list of well-formed ranges.
pub(crate) proof fn lemma_wf_concat(a: Seq<BusyRange>, b: Seq<BusyRange>)
    requires
        ranges_wf(a),
        ranges_wf(b),
    ensures
        ranges_wf(a + b),
{
    assert forall|i: int| 0 <= i < (a + b).len() implies (#[trigger] (a + b)[i]).0.wf() && (a + b)[i].1.wf() by {
        if i < a.len() {
            assert((a + b)[i] == a[i]);
        } else {
            assert((a + b)[i] == b[i - a.len()]);
        }
    }
}

/// The start of a free stretch that holds a slot is at or after `from`, and
/// the instants of the stretch are not covered.
proof fn lemma_gap_bounds(busy: Seq<BusyRange>, from: Timestamp, to: Timestamp, g: Timestamp, e: Timestamp)
    requires
        from.wf(),
        to.wf(),
        from.pos() < to.pos(),
        ranges_wf(busy),
        is_gap(busy, from, to, g, e),
    ensures
        from.pos() <= g.pos(),
        g.wf(),
{
    if g != from {
        let i = choose|i: int|
            0 <= i < busy.len() && relevant(#[trigger] busy[i], from, to) && clamp(busy[i], from, to).1 == g;
        assert(busy[i].1.wf());
    }
}

/// Two free stretches that share an instant are the same stretch.
proof fn lemma_gap_unique(
    busy: Seq<BusyRange>,
    from: Timestamp,
    to: Timestamp,
    g1: Timestamp,
    e1: Timestamp,
    g2: Timestamp,
    e2: Timestamp,
    y: Timestamp,
)
    requires
        from.wf(),
        to.wf(),
        from.pos() < to.pos(),
        ranges_wf(busy),
        is_gap(busy, from, to, g1, e1),
        is_gap(busy, from, to, g2, e2),
        g1.pos() <= y.pos() < e1.pos(),
        g2.pos() <= y.pos() < e2.pos(),
    ensures
        g1 == g2,
{
    lemma_gap_bounds(busy, from, to, g1, e1);
    lemma_gap_bounds(busy, from, to, g2, e2);
    if g1.pos() < g2.pos() {
        lemma_gap_order(busy, from, to, g1, e1, g2, e2, y);
    } else if g2.pos() < g1.pos() {
        lemma_gap_order(busy, from, to, g2, e2, g1, e1, y);
    } else {
        crate::time::lemma_pos_injective(g1, g2);
    }
}

/// A later free stretch cannot start inside an earlier one.
proof fn lemma_gap_order(
    busy: Seq<BusyRange>,
    from: Timestamp,
    to: Timestamp,
    g1: Timestamp,
    e1: Timestamp,
    g2: Timestamp,
    e2: Timestamp,
    y: Timestamp,
)
    requires
        from.wf(),
        to.wf(),
        from.pos() < to.pos(),
        ranges_wf(busy),
        is_gap(busy, from, to, g1, e1),
        is_gap(busy, from, to, g2, e2),
        g1.pos() < g2.pos(),
    ensures
        !(g2.pos() <= y.pos() < e1.pos()),
{
    if !(g2.pos() <= y.pos() < e1.pos()) {
        return;
    }
    lemma_gap_bounds(busy, from, to, g1, e1);
    // `g2` is later than `from`, so it ends a clamped busy range.
    let i = choose|i: int|
        0 <= i < busy.len() && relevant(#[trigger] busy[i], from, to) && clamp(busy[i], from, to).1 == g2;
    let c = clamp(busy[i], from, to);
    assert(c.0.pos() < c.1.pos());
    if c.0.pos() >= g1.pos() {
        assert(covered(busy, from, to, c.0));
    } else {
        assert(covered(busy, from, to, g1));
        assert(covered(busy, from, to, e1) || e1 == to);
        assert(!covered(busy, from, to, g1));
    }
}

/// Every offered slot lies in `[from, to]`, has the requested length,
/// overlaps no busy range that ends after it starts (so, when every range is
/// such, is never reported as a conflict by `has_conflict`), and ends no
/// later than the next slot starts.
pub proof fn lemma_slots_are_free(
    busy: Seq<BusyRange>,
    from: Timestamp,
    to: Timestamp,
    slot_minutes: i64,
    slots: Seq<AvailabilitySlot>,
)
    requires
        from.wf(),
        to.wf(),
        ranges_wf(busy),
        slots_exact(busy, from, to, slot_minutes, slots),
    ensures
        forall|i: int|
            0 <= i < slots.len() ==> {
                &&& from.pos() <= (#[trigger] slots[i]).start.pos()
                &&& slots[i].start.pos() < slots[i].end.pos()
                &&& slots[i].end.pos() <= to.pos()
                &&& slots[i].end == slots[i].start.plus_secs(slot_secs(slot_minutes))
                &&& forall|q: int|
                    0 <= q < busy.len() && busy[q].0.pos() < busy[q].1.pos() ==> !overlaps(
                        #[trigger] busy[q],
                        slots[i].start,
                        slots[i].end,
                    )
                &&& ranges_proper(busy) ==> !conflicts(busy, slots[i].start, slots[i].end)
            },
        forall|i: int, j: int|
            0 <= i < j < slots.len() ==> (#[trigger] slots[i]).end.pos() <= (#[trigger] slots[j]).start.pos(),
{
    let d = slot_secs(slot_minutes);
    if to.pos() <= from.pos() {
        return;
    }
    assert forall|i: int| 0 <= i < slots.len() implies {
        &&& from.pos() <= (#[trigger] slots[i]).start.pos()
        &&& slots[i].start.pos() < slots[i].end.pos()
        &&& slots[i].end.pos() <= to.pos()
        &&& slots[i].end == slots[i].start.plus_secs(d)
        &&& forall|q: int|
            0 <= q < busy.len() && busy[q].0.pos() < busy[q].1.pos() ==> !overlaps(
                #[trigger] busy[q],
                slots[i].start,
                slots[i].end,
            )
        &&& ranges_proper(busy) ==> !conflicts(busy, slots[i].start, slots[i].end)
    } by {
        lemma_slot_is_free(busy, from, to, d, slots[i].start, slots[i].end);
    }
    assert forall|i: int, j: int| 0 <= i < j < slots.len() implies (#[trigger] slots[i]).end.pos()
        <= (#[trigger] slots[j]).start.pos() by {
        lemma_slots_apart(busy, from, to, d, slots[i], slots[j]);
    }
}

/// The facts about one slot start that the slot laws use.
proof fn lemma_slot_facts(busy: Seq<BusyRange>, from: Timestamp, to: Timestamp, d: int, c: Timestamp) -> (r: (Timestamp, Timestamp, nat))
    requires
        from.wf(),
        to.wf(),
        from.pos() < to.pos(),
        ranges_wf(busy),
        d >= 60,
        is_slot_start(busy, from, to, d, c),
    ensures
        is_gap(busy, from, to, r.0, r.1),
        c == step(r.0, r.2, d),
        r.0.wf(),
        from.pos() <= r.0.pos() <= c.pos(),
        c.pos() == reach(r.0, r.2, d),
        c.pos() < reach(r.0, r.2 + 1, d),
        reach(r.0, r.2 + 1, d) <= r.1.pos() <= to.pos(),
        step(r.0, r.2 + 1, d).pos() == reach(r.0, r.2 + 1, d),
        c.plus_secs(d) == step(r.0, r.2 + 1, d),
{
    let (g, e, k) = choose|g: Timestamp, e: Timestamp, k: nat|
        #![trigger is_gap(busy, from, to, g, e), step(g, k, d)]
        is_gap(busy, from, to, g, e) && c == step(g, k, d) && reach(g, k + 1, d) <= e.pos();
    lemma_gap_bounds(busy, from, to, g, e);
    lemma_reach_monotonic(g, 0, k, d);
    lemma_reach_monotonic(g, k, k + 1, d);
    lemma_reach_bound(g, k + 1, d, to);
    lemma_reach_bound(g, k, d, to);
    lemma_step_plus(g, k, d);
    (g, e, k)
}

/// A slot lies in the window and overlaps no proper busy range.
proof fn lemma_slot_is_free(busy: Seq<BusyRange>, from: Timestamp, to: Timestamp, d: int, c: Timestamp, end: Timestamp)
    requires
        from.wf(),
        to.wf(),
        from.pos() < to.pos(),
        ranges_wf(busy),
        d >= 60,
        is_slot_start(busy, from, to, d, c),
        end == c.plus_secs(d),
    ensures
        from.pos() <= c.pos() < end.pos() <= to.pos(),
        forall|q: int|
            0 <= q < busy.len() && busy[q].0.pos() < busy[q].1.pos() ==> !overlaps(#[trigger] busy[q], c, end),
        ranges_proper(busy) ==> !conflicts(busy, c, end),
{
    let (g, e, k) = lemma_slot_facts(busy, from, to, d, c);
    assert forall|q: int| 0 <= q < busy.len() && busy[q].0.pos() < busy[q].1.pos() implies !overlaps(
        #[trigger] busy[q],
        c,
        end,
    ) by {
        if overlaps(busy[q], c, end) {
            assert(relevant(busy[q], from, to));
            let x = later_of(c, clamp(busy[q], from, to).0);
            assert(covered(busy, from, to, x));
        }
    }
    if ranges_proper(busy) && conflicts(busy, c, end) {
        let q = choose|q: int| 0 <= q < busy.len() && overlaps(#[trigger] busy[q], c, end);
        assert(busy[q].0.pos() < busy[q].1.pos());
    }
}

/// Of two slots, the earlier one ends by the time the later one starts.
proof fn lemma_slots_apart(busy: Seq<BusyRange>, from: Timestamp, to: Timestamp, d: int, a: AvailabilitySlot, b: AvailabilitySlot)
    requires
        from.wf(),
        to.wf(),
        from.pos() < to.pos(),
        ranges_wf(busy),
        d >= 60,
        is_slot_start(busy, from, to, d, a.start),
        is_slot_start(busy, from, to, d, b.start),
        a.end == a.start.plus_secs(d),
        a.start.pos() < b.start.pos(),
    ensures
        a.end.pos() <= b.start.pos(),
{
    let (gi, ei, ki) = lemma_slot_facts(busy, from, to, d, a.start);
    let (gj, ej, kj) = lemma_slot_facts(busy, from, to, d, b.start);
    if a.end.pos() > b.start.pos() {
        lemma_gap_unique(busy, from, to, gi, ei, gj, ej, b.start);
        if ki < kj {
            lemma_reach_monotonic(gi, ki + 1, kj, d);
        } else {
            lemma_reach_monotonic(gi, kj, ki, d);
        }
    }
}


/// The slot starts rise strictly along the list.
spec fn starts_rising(s: Seq<AvailabilitySlot>) -> bool {
    forall|a: int, b: int| 0 <= a < b < s.len() ==> (#[trigger] s[a]).start.pos() < (#[trigger] s[b]).start.pos()
}

/// Every slot of `a` starts where some slot of `b` starts.
spec fn starts_within(a: Seq<AvailabilitySlot>, b: Seq<AvailabilitySlot>) -> bool {
    forall|i: int| 0 <= i < a.len() ==> listed(b, (#[trigger] a[i]).start)
}

/// Two lists with rising starts and the same starts have them in the same places.
proof fn lemma_same_starts(a: Seq<AvailabilitySlot>, b: Seq<AvailabilitySlot>)
    requires
        starts_rising(a),
        starts_rising(b),
        starts_within(a, b),
        starts_within(b, a),
    ensures
        a.len() == b.len(),
        forall|i: int| 0 <= i < a.len() ==> (#[trigger] a[i]).start == b[i].start,
    decreases a.len(),
{
    if a.len() == 0 {
        if b.len() > 0 {
            assert(listed(a, b[0].start));
        }
        return;
    }
    assert(listed(b, a[0].start));
    let j = choose|j: int| 0 <= j < b.len() && (#[trigger] b[j]).start == a[0].start;
    assert(listed(a, b[0].start));
    let k = choose|k: int| 0 <= k < a.len() && (#[trigger] a[k]).start == b[0].start;
    if j > 0 {
        assert(b[0].start.pos() < b[j].start.pos());
        if k > 0 {
            assert(a[0].start.pos() < a[k].start.pos());
        }
    }
    assert(j == 0);
    let a1 = a.skip(1);
    let b1 = b.skip(1);
    assert forall|i: int| 0 <= i < a1.len() implies listed(b1, (#[trigger] a1[i]).start) by {
        assert(a1[i] == a[i + 1]);
        assert(listed(b, a[i + 1].start));
        let q = choose|q: int| 0 <= q < b.len() && (#[trigger] b[q]).start == a[i + 1].start;
        assert(a[0].start.pos() < a[i + 1].start.pos());
        assert(q != 0);
        assert(b1[q - 1] == b[q]);
    }
    assert forall|i: int| 0 <= i < b1.len() implies listed(a1, (#[trigger] b1[i]).start) by {
        assert(b1[i] == b[i + 1]);
        assert(listed(a, b[i + 1].start));
        let q = choose|q: int| 0 <= q < a.len() && (#[trigger] a[q]).start == b[i + 1].start;
        assert(b[0].start.pos() < b[i + 1].start.pos());
        assert(q != 0);
        assert(a1[q - 1] == a[q]);
    }
    lemma_same_starts(a1, b1);
    assert forall|i: int| 0 <= i < a.len() implies (#[trigger] a[i]).start == b[i].start by {
        if i > 0 {
            assert(a1[i - 1] == a[i] && b1[i - 1] == b[i]);
        }
    }
}

/// The slots of a window are determined by the busy ranges: two lists that
/// both meet `slots_exact` for the same window and slot length are equal.
pub proof fn lemma_slots_unique(
    busy: Seq<BusyRange>,
    from: Timestamp,
    to: Timestamp,
    slot_minutes: i64,
    s1: Seq<AvailabilitySlot>,
    s2: Seq<AvailabilitySlot>,
)
    requires
        slots_exact(busy, from, to, slot_minutes, s1),
        slots_exact(busy, from, to, slot_minutes, s2),
    ensures
        s1 == s2,
{
    let d = slot_secs(slot_minutes);
    if to.pos() <= from.pos() {
        assert(s1 =~= s2);
        return;
    }
    assert forall|i: int| 0 <= i < s1.len() implies listed(s2, (#[trigger] s1[i]).start) by {
        assert(is_slot_start(busy, from, to, d, s1[i].start));
    }
    assert forall|i: int| 0 <= i < s2.len() implies listed(s1, (#[trigger] s2[i]).start) by {
        assert(is_slot_start(busy, from, to, d, s2[i].start));
    }
    lemma_same_starts(s1, s2);
    assert forall|i: int| 0 <= i < s1.len() implies s1[i] == s2[i] by {
        assert(s1[i].start == s2[i].start);
    }
    assert(s1 =~= s2);
}

/// Every range of `b1` that takes part in the computation occurs in `b2`.
spec fn relevant_within(b1: Seq<BusyRange>, b2: Seq<BusyRange>, from: Timestamp, to: Timestamp) -> bool {
    forall|i: int| 0 <= i < b1.len() && relevant(#[trigger] b1[i], from, to) ==> b2.contains(b1[i])
}

/// Lists with the same relevant ranges, in whatever order and however often,
/// leave the same instants free.
proof fn lemma_same_cover(b1: Seq<BusyRange>, b2: Seq<BusyRange>, from: Timestamp, to: Timestamp)
    requires
        relevant_within(b1, b2, from, to),
    ensures
        forall|x: Timestamp| #[trigger] covered(b1, from, to, x) ==> covered(b2, from, to, x),
        forall|t: Timestamp| #[trigger] clamped_end(b1, from, to, t) ==> clamped_end(b2, from, to, t),
{
    assert forall|x: Timestamp| #[trigger] covered(b1, from, to, x) implies covered(b2, from, to, x) by {
        let i = choose|i: int|
            0 <= i < b1.len() && relevant(#[trigger] b1[i], from, to) && clamp(b1[i], from, to).0.pos() <= x.pos()
                < clamp(b1[i], from, to).1.pos();
        assert(b1.contains(b1[i]));
        let j = choose|j: int| 0 <= j < b2.len() && b2[j] == b1[i];
        assert(relevant(b2[j], from, to));
    }
    assert forall|t: Timestamp| #[trigger] clamped_end(b1, from, to, t) implies clamped_end(b2, from, to, t) by {
        let i = choose|i: int| 0 <= i < b1.len() && relevant(#[trigger] b1[i], from, to) && clamp(b1[i], from, to).1 == t;
        assert(b1.contains(b1[i]));
        let j = choose|j: int| 0 <= j < b2.len() && b2[j] == b1[i];
        assert(relevant(b2[j], from, to));
    }
}

/// Only which busy ranges there are matters, not their order nor how often
/// one is repeated: two lists with the same ranges give the same slots, and
/// fit in the representable range alike.
pub proof fn lemma_slots_order_free(
    b1: Seq<BusyRange>,
    b2: Seq<BusyRange>,
    from: Timestamp,
    to: Timestamp,
    slot_minutes: i64,
    s1: Seq<AvailabilitySlot>,
    s2: Seq<AvailabilitySlot>,
)
    requires
        forall|r: BusyRange| b1.contains(r) <==> b2.contains(r),
        slots_exact(b1, from, to, slot_minutes, s1),
        slots_exact(b2, from, to, slot_minutes, s2),
    ensures
        s1 == s2,
        slots_fit(b1, from, to, slot_minutes) == slots_fit(b2, from, to, slot_minutes),
{
    assert forall|i: int| 0 <= i < b1.len() && relevant(#[trigger] b1[i], from, to) implies b2.contains(b1[i]) by {
        assert(b1.contains(b1[i]));
    }
    assert forall|i: int| 0 <= i < b2.len() && relevant(#[trigger] b2[i], from, to) implies b1.contains(b2[i]) by {
        assert(b2.contains(b2[i]));
    }
    lemma_same_relevant_slots(b1, b2, from, to, slot_minutes, s1, s2);
}

/// Two lists with the same relevant ranges give the same slots, and fit in
/// the representable range alike.
proof fn lemma_same_relevant_slots(
    b1: Seq<BusyRange>,
    b2: Seq<BusyRange>,
    from: Timestamp,
    to: Timestamp,
    slot_minutes: i64,
    s1: Seq<AvailabilitySlot>,
    s2: Seq<AvailabilitySlot>,
)
    requires
        relevant_within(b1, b2, from, to),
        relevant_within(b2, b1, from, to),
        slots_exact(b1, from, to, slot_minutes, s1),
        slots_exact(b2, from, to, slot_minutes, s2),
    ensures
        s1 == s2,
        slots_fit(b1, from, to, slot_minutes) == slots_fit(b2, from, to, slot_minutes),
{
    let d = slot_secs(slot_minutes);
    lemma_same_cover(b1, b2, from, to);
    lemma_same_cover(b2, b1, from, to);
    assert forall|g: Timestamp, e: Timestamp| #[trigger] is_gap(b1, from, to, g, e) == is_gap(b2, from, to, g, e) by {
        if is_gap(b1, from, to, g, e) {
            assert forall|x: Timestamp| g.pos() <= x.pos() < e.pos() implies !#[trigger] covered(b2, from, to, x) by {
                assert(!covered(b1, from, to, x));
            }
        }
        if is_gap(b2, from, to, g, e) {
            assert forall|x: Timestamp| g.pos() <= x.pos() < e.pos() implies !#[trigger] covered(b1, from, to, x) by {
                assert(!covered(b2, from, to, x));
            }
        }
    }
    assert forall|c: Timestamp| #[trigger] is_slot_start(b1, from, to, d, c) == is_slot_start(b2, from, to, d, c) by {
        if is_slot_start(b1, from, to, d, c) {
            let (g, e, k) = choose|g: Timestamp, e: Timestamp, k: nat|
                #![trigger is_gap(b1, from, to, g, e), step(g, k, d)]
                is_gap(b1, from, to, g, e) && c == step(g, k, d) && reach(g, k + 1, d) <= e.pos();
            assert(is_gap(b2, from, to, g, e));
        }
        if is_slot_start(b2, from, to, d, c) {
            let (g, e, k) = choose|g: Timestamp, e: Timestamp, k: nat|
                #![trigger is_gap(b2, from, to, g, e), step(g, k, d)]
                is_gap(b2, from, to, g, e) && c == step(g, k, d) && reach(g, k + 1, d) <= e.pos();
            assert(is_gap(b1, from, to, g, e));
        }
    }
    if to.pos() > from.pos() {
        assert forall|i: int| 0 <= i < s2.len() implies is_slot_start(b1, from, to, d, (#[trigger] s2[i]).start)
            && s2[i].end == s2[i].start.plus_secs(d) by {
            assert(is_slot_start(b2, from, to, d, s2[i].start));
        }
        assert forall|c: Timestamp| #[trigger] is_slot_start(b1, from, to, d, c) implies listed(s2, c) by {
            assert(is_slot_start(b2, from, to, d, c));
        }
    }
    assert(slots_exact(b1, from, to, slot_minutes, s2));
    lemma_slots_unique(b1, from, to, slot_minutes, s1, s2);
    if slots_fit(b1, from, to, slot_minutes) && to.pos() > from.pos() {
        assert forall|g: Timestamp, e: Timestamp| #[trigger] is_gap(b2, from, to, g, e) implies gap_fits(g, e, d) by {
            assert(is_gap(b1, from, to, g, e));
        }
    }
    if slots_fit(b2, from, to, slot_minutes) && to.pos() > from.pos() {
        assert forall|g: Timestamp, e: Timestamp| #[trigger] is_gap(b1, from, to, g, e) implies gap_fits(g, e, d) by {
            assert(is_gap(b2, from, to, g, e));
        }
    }
}

/// A busy range that is empty, inverted, or lies outside the window changes
/// nothing: the slots are the same with it as without it, and fit in the
/// representable range alike.
pub proof fn lemma_irrelevant_range_ignored(
    busy: Seq<BusyRange>,
    r: BusyRange,
    from: Timestamp,
    to: Timestamp,
    slot_minutes: i64,
    s1: Seq<AvailabilitySlot>,
    s2: Seq<AvailabilitySlot>,
)
    requires
        r.1.pos() <= r.0.pos() || r.1.pos() <= from.pos() || r.0.pos() >= to.pos(),
        slots_exact(busy, from, to, slot_minutes, s1),
        slots_exact(busy.push(r), from, to, slot_minutes, s2),
    ensures
        s1 == s2,
        slots_fit(busy, from, to, slot_minutes) == slots_fit(busy.push(r), from, to, slot_minutes),
{
    let b2 = busy.push(r);
    assert forall|i: int| 0 <= i < busy.len() && relevant(#[trigger] busy[i], from, to) implies b2.contains(busy[i]) by {
        assert(b2[i] == busy[i]);
    }
    assert forall|i: int| 0 <= i < b2.len() && relevant(#[trigger] b2[i], from, to) implies busy.contains(b2[i]) by {
        if i == busy.len() {
            assert(b2[i] == r);
        } else {
            assert(b2[i] == busy[i]);
        }
    }
    lemma_same_relevant_slots(busy, b2, from, to, slot_minutes, s1, s2);
}

/// A slot length below one minute counts as one minute: the slots are those
/// of one-minute slots, and fit in the representable range alike.
pub proof fn lemma_short_slot_length(
    busy: Seq<BusyRange>,
    from: Timestamp,
    to: Timestamp,
    slot_minutes: i64,
    s1: Seq<AvailabilitySlot>,
    s2: Seq<AvailabilitySlot>,
)
    requires
        slot_minutes <= 0,
        slots_exact(busy, from, to, slot_minutes, s1),
        slots_exact(busy, from, to, 1, s2),
    ensures
        s1 == s2,
        slots_fit(busy, from, to, slot_minutes) == slots_fit(busy, from, to, 1),
{
    assert(slot_secs(slot_minutes) == slot_secs(1));
    assert(slots_exact(busy, from, to, 1, s1));
    lemma_slots_unique(busy, from, to, 1, s1, s2);
}

// ---------------------------------------------------------------------------
// More busy time, fewer slots.

/// The latest of `from` and of the clamped ends, not after `x`, of the
/// relevant ranges among the first `n`.
spec fn last_end_upto(busy: Seq<BusyRange>, from: Timestamp, to: Timestamp, x: Timestamp, n: int) -> Timestamp
    decreases n,
{
    if n <= 0 {
        from
    } else {
        let prev = last_end_upto(busy, from, to, x, n - 1);
        let t = clamp(busy[n - 1], from, to).1;
        if relevant(busy[n - 1], from, to) && t.pos() <= x.pos() && t.pos() > prev.pos() {
            t
        } else {
            prev
        }
    }
}

/// The earliest of `to` and of the clamped starts, after `x`, of the
/// relevant ranges among the first `n`.
spec fn first_start_after(busy: Seq<BusyRange>, from: Timestamp, to: Timestamp, x: Timestamp, n: int) -> Timestamp
    decreases n,
{
    if n <= 0 {
        to
    } else {
        let prev = first_start_after(busy, from, to, x, n - 1);
        let t = clamp(busy[n - 1], from, to).0;
        if relevant(busy[n - 1], from, to) && t.pos() > x.pos() && t.pos() < prev.pos() {
            t
        } else {
            prev
        }
    }
}

proof fn lemma_last_end(busy: Seq<BusyRange>, from: Timestamp, to: Timestamp, x: Timestamp, n: int)
    requires
        0 <= n <= busy.len(),
        from.pos() <= x.pos(),
    ensures
        ({
            let g = last_end_upto(busy, from, to, x, n);
            &&& g == from || exists|i: int|
                0 <= i < n && relevant(#[trigger] busy[i], from, to) && clamp(busy[i], from, to).1 == g
            &&& from.pos() <= g.pos() <= x.pos()
            &&& forall|i: int|
                0 <= i < n && relevant(#[trigger] busy[i], from, to) && clamp(busy[i], from, to).1.pos() <= x.pos()
                    ==> clamp(busy[i], from, to).1.pos() <= g.pos()
        }),
    decreases n,
{
    if n > 0 {
        lemma_last_end(busy, from, to, x, n - 1);
    }
}

proof fn lemma_first_start(busy: Seq<BusyRange>, from: Timestamp, to: Timestamp, x: Timestamp, n: int)
    requires
        0 <= n <= busy.len(),
        x.pos() < to.pos(),
    ensures
        ({
            let e = first_start_after(busy, from, to, x, n);
            &&& e == to || exists|i: int|
                0 <= i < n && relevant(#[trigger] busy[i], from, to) && clamp(busy[i], from, to).0 == e
            &&& x.pos() < e.pos() <= to.pos()
            &&& forall|i: int|
                0 <= i < n && relevant(#[trigger] busy[i], from, to) && clamp(busy[i], from, to).0.pos() > x.pos()
                    ==> e.pos() <= clamp(busy[i], from, to).0.pos()
        }),
    decreases n,
{
    if n > 0 {
        lemma_first_start(busy, from, to, x, n - 1);
    }
}

/// An instant of the window that no busy range covers lies in a free stretch.
proof fn lemma_gap_around(busy: Seq<BusyRange>, from: Timestamp, to: Timestamp, x: Timestamp) -> (r: (Timestamp, Timestamp))
    requires
        from.wf(),
        to.wf(),
        ranges_wf(busy),
        from.pos() <= x.pos() < to.pos(),
        !covered(busy, from, to, x),
    ensures
        is_gap(busy, from, to, r.0, r.1),
        r.0.pos() <= x.pos() < r.1.pos(),
        r.0 == last_end_upto(busy, from, to, x, busy.len() as int),
        r.0.wf(),
        r.1.wf(),
{
    let n = busy.len() as int;
    let g = last_end_upto(busy, from, to, x, n);
    let e = first_start_after(busy, from, to, x, n);
    lemma_last_end(busy, from, to, x, n);
    lemma_first_start(busy, from, to, x, n);
    assert forall|y: Timestamp| g.pos() <= y.pos() < e.pos() implies !#[trigger] covered(busy, from, to, y) by {
        if covered(busy, from, to, y) {
            let i = choose|i: int|
                0 <= i < busy.len() && relevant(#[trigger] busy[i], from, to) && clamp(busy[i], from, to).0.pos()
                    <= y.pos() < clamp(busy[i], from, to).1.pos();
            let c = clamp(busy[i], from, to);
            if y.pos() <= x.pos() {
                if c.1.pos() <= x.pos() {
                    assert(c.1.pos() <= g.pos());
                }
            } else {
                if c.0.pos() > x.pos() {
                    assert(e.pos() <= c.0.pos());
                }
            }
            assert(covered(busy, from, to, x));
        }
    }
    if g != from {
        let i = choose|i: int| 0 <= i < n && relevant(#[trigger] busy[i], from, to) && clamp(busy[i], from, to).1 == g;
        assert(clamped_end(busy, from, to, g));
        assert(busy[i].1.wf());
    }
    if e != to {
        let i = choose|i: int| 0 <= i < n && relevant(#[trigger] busy[i], from, to) && clamp(busy[i], from, to).0 == e;
        assert(busy[i].0.wf());
        assert(covered(busy, from, to, e));
    }
    assert(is_gap(busy, from, to, g, e));
    (g, e)
}

/// Where the slot grid from `g` counts its steps from: `g`, with a leap
/// second folded into the second before it.
spec fn grid_base(g: Timestamp) -> int {
    g.secs * 2_000_000_000 + strip_leap(g.nanos as int)
}

/// The point of the slot grid of the free stretch around `c` that is latest
/// not after `c`.
spec fn grid_below(busy: Seq<BusyRange>, from: Timestamp, to: Timestamp, d: int, c: Timestamp) -> Timestamp {
    let g = last_end_upto(busy, from, to, c, busy.len() as int);
    step(g, ((c.pos() - grid_base(g)) / (d * 2_000_000_000)) as nat, d)
}

/// Every range of `b2` that ends in a leap second is also in `b1`.
pub open spec fn leap_ends_kept(b1: Seq<BusyRange>, b2: Seq<BusyRange>) -> bool {
    forall|i: int| 0 <= i < b2.len() && (#[trigger] b2[i]).1.nanos >= NANOS_PER_SEC ==> b1.contains(b2[i])
}

/// Past its start, the slot grid from `g` moves in whole slot lengths from its base.
proof fn lemma_reach_base(g: Timestamp, k: nat, d: int)
    requires
        g.wf(),
        d > 0,
    ensures
        k >= 1 ==> reach(g, k, d) == grid_base(g) + (k * d) * 2_000_000_000,
        grid_base(g) <= g.pos() <= grid_base(g) + 1_000_000_000,
        g.nanos < NANOS_PER_SEC ==> grid_base(g) == g.pos(),
        g.nanos >= NANOS_PER_SEC ==> grid_base(g) + 1_000_000_000 == g.pos(),
{
}

/// Every slot of the busier list lies inside a slot of the other list, and
/// that slot ends no later than it, when the ranges added to the busier list
/// do not end in a leap second.
proof fn lemma_slot_maps(
    b1: Seq<BusyRange>,
    b2: Seq<BusyRange>,
    from: Timestamp,
    to: Timestamp,
    d: int,
    c: Timestamp,
)
    requires
        from.wf(),
        to.wf(),
        from.pos() < to.pos(),
        ranges_wf(b1),
        ranges_wf(b2),
        leap_ends_kept(b1, b2),
        relevant_within(b1, b2, from, to),
        d >= 60,
        is_slot_start(b2, from, to, d, c),
    ensures
        is_slot_start(b1, from, to, d, grid_below(b1, from, to, d, c)),
        grid_below(b1, from, to, d, c).pos() <= c.pos(),
        c.pos() < grid_below(b1, from, to, d, c).plus_secs(d).pos(),
        grid_below(b1, from, to, d, c).plus_secs(d).pos() <= c.plus_secs(d).pos(),
{
    let dd = d * 2_000_000_000;
    let (g2, e2, k) = lemma_slot_facts(b2, from, to, d, c);
    // `c` is free in the busier list, so in the other one too.
    assert(!covered(b2, from, to, c));
    lemma_same_cover(b1, b2, from, to);
    assert(!covered(b1, from, to, c));
    let (g1, e1) = lemma_gap_around(b1, from, to, c);
    // The stretch of `b1` reaches at least as far as that of `b2`.
    if e1.pos() < e2.pos() {
        assert(!covered(b2, from, to, e1));
        assert(!covered(b1, from, to, e1));
    }
    lemma_reach_base(g1, 0, d);
    lemma_reach_base(g2, 0, d);
    if c.nanos >= NANOS_PER_SEC {
        // A slot that starts in a leap second starts its stretch, and that
        // stretch starts where one of `b1` does.
        if k > 0 {
            assert(c.nanos == strip_leap(g2.nanos as int));
        }
        assert(c == g2);
        if g2 != from {
            let i = choose|i: int|
                0 <= i < b2.len() && relevant(#[trigger] b2[i], from, to) && clamp(b2[i], from, to).1 == g2;
            assert(b2[i].1 == g2);
            assert(b2[i].1.nanos >= NANOS_PER_SEC);
            assert(b1.contains(b2[i]));
            let j = choose|j: int| 0 <= j < b1.len() && b1[j] == b2[i];
            assert(relevant(b1[j], from, to) && clamp(b1[j], from, to).1 == g2);
            assert(clamped_end(b1, from, to, g2));
        }
        assert(is_gap(b1, from, to, g2, e1));
        lemma_gap_unique(b1, from, to, g1, e1, g2, e1, c);
    }
    let base = grid_base(g1);
    let diff = c.pos() - base;
    let m = diff / dd;
    vstd::arithmetic::div_mod::lemma_fundamental_div_mod(diff, dd);
    vstd::arithmetic::div_mod::lemma_mod_pos_bound(diff, dd);
    assert(m >= 0) by (nonlinear_arith)
        requires
            diff >= 0,
            dd > 0,
            m == diff / dd,
    ;
    let mn = m as nat;
    lemma_reach_base(g1, mn, d);
    lemma_reach_base(g1, mn + 1, d);
    assert((mn * d) * 2_000_000_000 == dd * m) by (nonlinear_arith)
        requires
            dd == d * 2_000_000_000,
            mn == m,
    ;
    assert(((mn + 1) * d) * 2_000_000_000 == dd * m + dd) by (nonlinear_arith)
        requires
            dd == d * 2_000_000_000,
            mn == m,
    ;
    assert(reach(g1, mn, d) <= c.pos());
    assert(c.pos() < reach(g1, mn + 1, d));
    lemma_reach_next(g2, k, d);
    if c.nanos >= NANOS_PER_SEC {
        assert(g1 == c);
        assert(diff == 1_000_000_000);
        assert(m == 0) by (nonlinear_arith)
            requires
                dd * m <= diff,
                diff < dd,
                m >= 0,
                dd > 0,
        ;
    } else if k == 0 {
        assert(g2.nanos < NANOS_PER_SEC);
    }
    assert(reach(g1, mn + 1, d) <= reach(g2, k + 1, d));
    assert(is_gap(b1, from, to, g1, e1) && grid_below(b1, from, to, d, c) == step(g1, mn, d) && reach(g1, mn + 1, d)
        <= e1.pos());
    lemma_reach_monotonic(g1, mn, mn + 1, d);
    lemma_reach_bound(g1, mn, d, e1);
    lemma_reach_bound(g1, mn + 1, d, e1);
    lemma_step_plus(g1, mn, d);
}

/// A rising map of the first `n` indices stays at or above each index.
proof fn lemma_rising_at_least(f: spec_fn(int) -> int, n: int, i: int)
    requires
        0 <= i < n,
        forall|a: int| 0 <= a < n ==> 0 <= #[trigger] f(a),
        forall|a: int, b: int| 0 <= a < b < n ==> #[trigger] f(a) < #[trigger] f(b),
    ensures
        f(i) >= i,
    decreases i,
{
    if i > 0 {
        lemma_rising_at_least(f, n, i - 1);
        assert(f(i - 1) < f(i));
    }
}

/// Adding busy ranges never adds slots: with every range of `b1` also in
/// `b2`, there are at most as many slots for `b2` as for `b1`. Stated where
/// no added range ends in a leap second: a free stretch that starts there has
/// a shorter first slot, which can fit where no slot of `b1` did.
pub proof fn lemma_more_busy_fewer_slots(
    b1: Seq<BusyRange>,
    b2: Seq<BusyRange>,
    from: Timestamp,
    to: Timestamp,
    slot_minutes: i64,
    s1: Seq<AvailabilitySlot>,
    s2: Seq<AvailabilitySlot>,
)
    requires
        from.wf(),
        to.wf(),
        ranges_wf(b1),
        ranges_wf(b2),
        forall|r: BusyRange| b1.contains(r) ==> b2.contains(r),
        leap_ends_kept(b1, b2),
        slots_exact(b1, from, to, slot_minutes, s1),
        slots_exact(b2, from, to, slot_minutes, s2),
    ensures
        s2.len() <= s1.len(),
{
    let d = slot_secs(slot_minutes);
    if to.pos() <= from.pos() {
        return;
    }
    assert forall|i: int| 0 <= i < b1.len() && relevant(#[trigger] b1[i], from, to) implies b2.contains(b1[i]) by {
        assert(b1.contains(b1[i]));
    }
    assert forall|i: int| 0 <= i < s2.len() implies {
        &&& is_slot_start(b1, from, to, d, grid_below(b1, from, to, d, (#[trigger] s2[i]).start))
        &&& grid_below(b1, from, to, d, s2[i].start).pos() <= s2[i].start.pos()
        &&& s2[i].start.pos() < grid_below(b1, from, to, d, s2[i].start).plus_secs(d).pos()
        &&& grid_below(b1, from, to, d, s2[i].start).plus_secs(d).pos() <= s2[i].end.pos()
        &&& listed(s1, grid_below(b1, from, to, d, s2[i].start))
    } by {
        assert(is_slot_start(b2, from, to, d, s2[i].start));
        lemma_slot_maps(b1, b2, from, to, d, s2[i].start);
    }
    let f = |i: int|
        choose|j: int| 0 <= j < s1.len() && (#[trigger] s1[j]).start == grid_below(b1, from, to, d, s2[i].start);
    assert forall|a: int| 0 <= a < s2.len() implies 0 <= #[trigger] f(a) < s1.len() && s1[f(a)].start == grid_below(
        b1,
        from,
        to,
        d,
        s2[a].start,
    ) by {
        assert(listed(s1, grid_below(b1, from, to, d, s2[a].start)));
    }
    assert forall|a: int, b: int| 0 <= a < b < s2.len() implies #[trigger] f(a) < #[trigger] f(b) by {
        let ca = s2[a].start;
        let cb = s2[b].start;
        assert(ca.pos() < cb.pos());
        assert(is_slot_start(b2, from, to, d, ca) && is_slot_start(b2, from, to, d, cb));
        lemma_slots_apart(b2, from, to, d, s2[a], s2[b]);
        let ga = grid_below(b1, from, to, d, ca);
        let gb = grid_below(b1, from, to, d, cb);
        if f(a) > f(b) {
            assert(s1[f(b)].start.pos() < s1[f(a)].start.pos());
            assert(is_slot_start(b1, from, to, d, s1[f(b)].start) && is_slot_start(b1, from, to, d, s1[f(a)].start));
            lemma_slots_apart(b1, from, to, d, s1[f(b)], s1[f(a)]);
        }
    }
    if s2.len() > 0 {
        lemma_rising_at_least(f, s2.len() as int, s2.len() - 1);
        assert(f(s2.len() - 1) < s1.len());
    }
}

} // verus!
