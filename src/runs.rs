//! The run encoding of one container: ascending, non-overlapping,
//! non-adjacent closed intervals of low parts.
use vstd::prelude::*;
use crate::order::{ascending16, lemma_ascending16_len};

verus! {

/// The closed interval `start..=end`.
#[derive(Clone, Copy, Debug, PartialEq, Eq, Structural)]
pub struct Interval {
    pub start: u16,
    pub end: u16,
}

/// The members of an interval, ascending.
pub open spec fn interval_seq(iv: Interval) -> Seq<u16> {
    Seq::new((iv.end - iv.start + 1) as nat, |k: int| (iv.start + k) as u16)
}

/// The members of a list of intervals, in list order.
pub open spec fn runs_seq(r: Seq<Interval>) -> Seq<u16>
    decreases r.len(),
{
    if r.len() == 0 {
        Seq::empty()
    } else {
        runs_seq(r.drop_last()) + interval_seq(r.last())
    }
}

/// Every interval is non-empty, and each ends more than one below the start
/// of every later one (so intervals neither overlap nor touch).
pub open spec fn runs_wf(r: Seq<Interval>) -> bool {
    &&& forall|k: int| 0 <= k < r.len() ==> r[k].start <= r[k].end
    &&& forall|k: int, l: int| 0 <= k < l < r.len() ==> r[k].end + 1 < r[l].start
}

/// `x` lies in one of the intervals.
pub open spec fn covered(r: Seq<Interval>, x: u16) -> bool {
    exists|k: int| 0 <= k < r.len() && #[trigger] r[k].start <= x <= r[k].end
}

/// The number of maximal runs of consecutive values in an ascending `s`.
pub open spec fn run_count(s: Seq<u16>) -> nat
    decreases s.len(),
{
    if s.len() == 0 {
        0
    } else if s.len() == 1 {
        1
    } else if s.last() == s[s.len() - 2] + 1 {
        run_count(s.drop_last())
    } else {
        run_count(s.drop_last()) + 1
    }
}

/// The first member is the first interval's start.
pub proof fn lemma_runs_first(r: Seq<Interval>)
    requires
        runs_wf(r),
        r.len() > 0,
    ensures
        runs_seq(r).len() > 0,
        runs_seq(r)[0] == r[0].start,
    decreases r.len(),
{
    let p = r.drop_last();
    if p.len() > 0 {
        lemma_runs_first(p);
    } else {
        assert(runs_seq(p) =~= Seq::<u16>::empty());
    }
}

/// An interval appended above a gap adds one run.
proof fn lemma_run_count_interval(a: Seq<u16>, iv: Interval)
    requires
        iv.start <= iv.end,
        a.len() > 0 ==> a.last() + 1 < iv.start,
    ensures
        run_count(a + interval_seq(iv)) == run_count(a) + 1,
    decreases iv.end - iv.start,
{
    if iv.start == iv.end {
        assert(a + interval_seq(iv) =~= a.push(iv.start));
        assert(a.push(iv.start).drop_last() =~= a);
    } else {
        let shorter = Interval { start: iv.start, end: (iv.end - 1) as u16 };
        lemma_run_count_interval(a, shorter);
        let s = a + interval_seq(iv);
        assert(s.drop_last() =~= a + interval_seq(shorter));
        assert(s.last() == iv.end);
        assert(s[s.len() - 2] == iv.end - 1);
    }
}

/// A well-formed list has exactly as many intervals as its members have
/// maximal runs.
pub proof fn lemma_run_count_of_runs(r: Seq<Interval>)
    requires
        runs_wf(r),
    ensures
        run_count(runs_seq(r)) == r.len(),
    decreases r.len(),
{
    if r.len() > 0 {
        let p = r.drop_last();
        assert(runs_wf(p));
        lemma_run_count_of_runs(p);
        lemma_runs_seq(p);
        if p.len() > 0 {
            assert(p.last().end + 1 < r.last().start);
            assert(runs_seq(p).len() > 0) by {
                lemma_runs_first(p);
            }
            assert(runs_seq(p).last() <= p.last().end);
        }
        lemma_run_count_interval(runs_seq(p), r.last());
    }
}

/// A well-formed list has no more intervals than members.
pub proof fn lemma_run_list_len(r: Seq<Interval>)
    requires
        runs_wf(r),
    ensures
        r.len() <= runs_seq(r).len(),
    decreases r.len(),
{
    if r.len() > 0 {
        let p = r.drop_last();
        assert(runs_wf(p));
        lemma_run_list_len(p);
    }
}

/// There are no more runs than members.
pub proof fn lemma_run_count_le(s: Seq<u16>)
    ensures
        run_count(s) <= s.len(),
    decreases s.len(),
{
    if s.len() > 1 {
        lemma_run_count_le(s.drop_last());
    }
}

/// The members of well-formed intervals are ascending, bounded by the last
/// end, and exactly the covered values.
pub proof fn lemma_runs_seq(r: Seq<Interval>)
    requires
        runs_wf(r),
    ensures
        ascending16(runs_seq(r)),
        r.len() > 0 ==> forall|k: int|
            0 <= k < runs_seq(r).len() ==> runs_seq(r)[k] <= r.last().end,
        forall|x: u16| #[trigger] runs_seq(r).contains(x) <==> covered(r, x),
    decreases r.len(),
{
    if r.len() > 0 {
        let p = r.drop_last();
        lemma_runs_seq(p);
        let a = runs_seq(p);
        let b = interval_seq(r.last());
        assert(runs_seq(r) == a + b);
        if p.len() > 0 {
            assert(p.last().end + 1 < r.last().start);
        }
        assert forall|x: u16| #[trigger] runs_seq(r).contains(x) <==> covered(r, x) by {
            if (a + b).contains(x) {
                let i = choose|i: int| 0 <= i < (a + b).len() && (a + b)[i] == x;
                if i < a.len() {
                    assert(a.contains(x));
                    let k = choose|k: int| 0 <= k < p.len() && #[trigger] p[k].start <= x <= p[k].end;
                    assert(r[k] == p[k]);
                } else {
                    assert(b[i - a.len()] == x);
                    assert(r[r.len() - 1].start <= x <= r[r.len() - 1].end);
                }
            }
            if covered(r, x) {
                let k = choose|k: int| 0 <= k < r.len() && #[trigger] r[k].start <= x <= r[k].end;
                if k < p.len() {
                    assert(p[k] == r[k]);
                    assert(covered(p, x));
                    assert(a.contains(x));
                    let i = choose|i: int| 0 <= i < a.len() && a[i] == x;
                    assert((a + b)[i] == x);
                } else {
                    let j = x - r.last().start;
                    assert(b[j] == x);
                    assert((a + b)[a.len() + j] == x);
                }
            }
        }
    }
}

/// Sums the interval lengths: the number of members.
pub fn runs_len(r: &Vec<Interval>) -> (n: u32)
    requires
        runs_wf(r@),
    ensures
        n == runs_seq(r@).len(),
{
    let mut total: u32 = 0;
    let mut k: usize = 0;
    while k < r.len()
        invariant
            runs_wf(r@),
            k <= r@.len(),
            total == runs_seq(r@.subrange(0, k as int)).len(),
        decreases r@.len() - k,
    {
        let iv = r[k];
        proof {
            let s = r@.subrange(0, k + 1);
            assert(s.drop_last() =~= r@.subrange(0, k as int));
            assert(runs_wf(s));
            lemma_runs_seq(s);
            lemma_ascending16_len(runs_seq(s));
        }
        total = total + (iv.end - iv.start) as u32 + 1;
        k = k + 1;
    }
    assert(r@.subrange(0, k as int) =~= r@);
    total
}

/// Whether `x` is a member: binary search over the interval starts.
pub fn runs_contains(r: &Vec<Interval>, x: u16) -> (b: bool)
    requires
        runs_wf(r@),
    ensures
        b == runs_seq(r@).contains(x),
{
    proof {
        lemma_runs_seq(r@);
    }
    let mut lo: usize = 0;
    let mut hi: usize = r.len();
    while lo < hi
        invariant
            lo <= hi <= r@.len(),
            runs_wf(r@),
            forall|k: int| 0 <= k < lo ==> r@[k].start <= x,
            forall|k: int| hi <= k < r@.len() ==> r@[k].start > x,
        decreases hi - lo,
    {
        let mid = lo + (hi - lo) / 2;
        if r[mid].start <= x {
            lo = mid + 1;
        } else {
            hi = mid;
        }
    }
    let found = lo > 0 && r[lo - 1].end >= x;
    proof {
        if !found && covered(r@, x) {
            let k = choose|k: int| 0 <= k < r@.len() && #[trigger] r@[k].start <= x <= r@[k].end;
            if k < lo - 1 {
                assert(r@[k].end + 1 < r@[lo - 1].start);
            }
        }
    }
    found
}

/// The members in ascending order.
pub fn runs_to_array(r: &Vec<Interval>) -> (out: Vec<u16>)
    requires
        runs_wf(r@),
    ensures
        out@ == runs_seq(r@),
{
    let mut out: Vec<u16> = Vec::new();
    let mut k: usize = 0;
    while k < r.len()
        invariant
            runs_wf(r@),
            k <= r@.len(),
            out@ == runs_seq(r@.subrange(0, k as int)),
        decreases r@.len() - k,
    {
        let iv = r[k];
        let ghost base = out@;
        let mut v: u32 = iv.start as u32;
        while v <= iv.end as u32
            invariant
                iv == r@[k as int],
                iv.start <= v <= iv.end as int + 1,
                out@ == base + interval_seq(iv).subrange(0, v - iv.start),
            decreases iv.end as int + 1 - v,
        {
            let ghost before = out@;
            out.push(v as u16);
            assert(out@ =~= base + interval_seq(iv).subrange(0, v + 1 - iv.start));
            v = v + 1;
        }
        proof {
            let s = r@.subrange(0, k + 1);
            assert(s.drop_last() =~= r@.subrange(0, k as int));
            assert(interval_seq(iv).subrange(0, v - iv.start) =~= interval_seq(iv));
        }
        k = k + 1;
    }
    assert(r@.subrange(0, k as int) =~= r@);
    out
}

/// The intervals of the maximal runs of the ascending `v`.
pub fn runs_from_sorted(v: &Vec<u16>) -> (r: Vec<Interval>)
    requires
        ascending16(v@),
    ensures
        runs_wf(r@),
        runs_seq(r@) == v@,
        r@.len() == run_count(v@),
{
    let mut runs: Vec<Interval> = Vec::new();
    if v.len() == 0 {
        assert(runs_seq(runs@) =~= v@);
        return runs;
    }
    let mut cur = Interval { start: v[0], end: v[0] };
    let mut i: usize = 1;
    assert(runs@.push(cur).drop_last() =~= runs@);
    assert(runs_seq(runs@) =~= Seq::<u16>::empty());
    assert(interval_seq(cur) =~= v@.subrange(0, 1));
    assert(runs_seq(runs@.push(cur)) =~= v@.subrange(0, 1));
    while i < v.len()
        invariant
            ascending16(v@),
            1 <= i <= v@.len(),
            cur.end == v@[i - 1],
            runs_wf(runs@.push(cur)),
            runs_seq(runs@.push(cur)) == v@.subrange(0, i as int),
            runs@.len() + 1 == run_count(v@.subrange(0, i as int)),
        decreases v@.len() - i,
    {
        let x = v[i];
        let ghost pre = v@.subrange(0, i as int);
        let ghost next = v@.subrange(0, i + 1);
        assert(next.drop_last() =~= pre);
        assert(runs@.push(cur).drop_last() =~= runs@);
        if x == cur.end + 1 {
            let ghost old_cur = cur;
            cur = Interval { start: cur.start, end: x };
            proof {
                assert(runs@.push(cur).drop_last() =~= runs@);
                assert(interval_seq(cur) =~= interval_seq(old_cur).push(x));
                assert(runs_seq(runs@.push(cur)) =~= runs_seq(runs@.push(old_cur)).push(x));
                assert(next =~= pre.push(x));
            }
        } else {
            let ghost prev = runs@.push(cur);
            runs.push(cur);
            cur = Interval { start: x, end: x };
            proof {
                assert(runs@ == prev);
                assert(runs@.push(cur).drop_last() =~= runs@);
                assert(runs_seq(runs@.push(cur)) =~= runs_seq(prev).push(x));
                assert(next =~= pre.push(x));
            }
        }
        i = i + 1;
    }
    runs.push(cur);
    assert(v@.subrange(0, i as int) =~= v@);
    runs
}

/// Index of the first interval starting above `x`.
fn first_start_above(r: &Vec<Interval>, x: u16) -> (pos: usize)
    requires
        runs_wf(r@),
    ensures
        pos <= r@.len(),
        forall|k: int| 0 <= k < pos ==> r@[k].start <= x,
        forall|k: int| pos <= k < r@.len() ==> r@[k].start > x,
{
    let mut lo: usize = 0;
    let mut hi: usize = r.len();
    while lo < hi
        invariant
            lo <= hi <= r@.len(),
            runs_wf(r@),
            forall|k: int| 0 <= k < lo ==> r@[k].start <= x,
            forall|k: int| hi <= k < r@.len() ==> r@[k].start > x,
        decreases hi - lo,
    {
        let mid = lo + (hi - lo) / 2;
        if r[mid].start <= x {
            lo = mid + 1;
        } else {
            hi = mid;
        }
    }
    lo
}

/// After an insertion, `n` covers what `o` covered and `x`.
pub open spec fn covers_plus(n: Seq<Interval>, o: Seq<Interval>, x: u16) -> bool {
    forall|y: u16| #[trigger] covered(n, y) == (covered(o, y) || y == x)
}

/// Filling the one-value gap at `x` joins intervals `pos - 1` and `pos`.
proof fn lemma_insert_join(o: Seq<Interval>, pos: int, x: u16)
    requires
        runs_wf(o),
        0 < pos < o.len(),
        o[pos - 1].end + 1 == x,
        x + 1 == o[pos].start,
    ensures
        ({
            let n = o.update(pos - 1, Interval { start: o[pos - 1].start, end: o[pos].end }).remove(pos);
            runs_wf(n) && covers_plus(n, o, x) && n.len() == o.len() - 1
        }),
{
    let iv = Interval { start: o[pos - 1].start, end: o[pos].end };
    let mid = o.update(pos - 1, iv);
    let n = mid.remove(pos);
    mid.remove_ensures(pos);
    assert forall|k: int| 0 <= k < n.len() implies #[trigger] n[k] == if k < pos - 1 {
        o[k]
    } else if k == pos - 1 {
        iv
    } else {
        o[k + 1]
    } by {}
    assert forall|k: int, l: int| 0 <= k < l < n.len() implies n[k].end + 1 < n[l].start by {
        if k == pos - 1 {
            assert(o[pos].end + 1 < o[l + 1].start);
        } else if k < pos - 1 && l == pos - 1 {
            assert(o[k].end + 1 < o[pos - 1].start);
        } else if k < pos - 1 {
            assert(o[k].end + 1 < o[l + 1].start);
        } else {
            assert(o[k + 1].end + 1 < o[l + 1].start);
        }
    }
    assert forall|y: u16| #[trigger] covered(n, y) == (covered(o, y) || y == x) by {
        if covered(n, y) {
            let k = choose|k: int| 0 <= k < n.len() && #[trigger] n[k].start <= y <= n[k].end;
            if k == pos - 1 {
                if y < x {
                    assert(o[pos - 1].start <= y <= o[pos - 1].end);
                } else if y > x {
                    assert(o[pos].start <= y <= o[pos].end);
                }
            } else if k < pos - 1 {
                assert(o[k].start <= y <= o[k].end);
            } else {
                assert(o[k + 1].start <= y <= o[k + 1].end);
            }
        }
        if covered(o, y) {
            let k = choose|k: int| 0 <= k < o.len() && #[trigger] o[k].start <= y <= o[k].end;
            if k < pos - 1 {
                assert(n[k].start <= y <= n[k].end);
            } else if k == pos - 1 || k == pos {
                assert(n[pos - 1].start <= y <= n[pos - 1].end);
            } else {
                assert(n[k - 1].start <= y <= n[k - 1].end);
            }
        }
        if y == x {
            assert(n[pos - 1].start <= y <= n[pos - 1].end);
        }
    }
}

/// `x`, just above interval `pos - 1` and not just below the next, extends
/// that interval.
proof fn lemma_insert_after(o: Seq<Interval>, pos: int, x: u16)
    requires
        runs_wf(o),
        0 < pos <= o.len(),
        o[pos - 1].end + 1 == x,
        pos < o.len() ==> x + 1 < o[pos].start,
    ensures
        ({
            let n = o.update(pos - 1, Interval { start: o[pos - 1].start, end: x });
            runs_wf(n) && covers_plus(n, o, x)
        }),
{
    let n = o.update(pos - 1, Interval { start: o[pos - 1].start, end: x });
    assert forall|k: int, l: int| 0 <= k < l < n.len() implies n[k].end + 1 < n[l].start by {
        if k == pos - 1 {
            if l > pos {
                assert(o[pos].end + 1 < o[l].start);
            }
        } else if l == pos - 1 {
            assert(o[k].end + 1 < o[pos - 1].start);
        }
    }
    assert forall|y: u16| #[trigger] covered(n, y) == (covered(o, y) || y == x) by {
        if covered(n, y) {
            let k = choose|k: int| 0 <= k < n.len() && #[trigger] n[k].start <= y <= n[k].end;
            if k != pos - 1 || y != x {
                assert(o[k].start <= y <= o[k].end);
            }
        }
        if covered(o, y) {
            let k = choose|k: int| 0 <= k < o.len() && #[trigger] o[k].start <= y <= o[k].end;
            assert(n[k].start <= y <= n[k].end);
        }
        if y == x {
            assert(n[pos - 1].start <= y <= n[pos - 1].end);
        }
    }
}

/// `x`, just below interval `pos` and not just above the one before,
/// extends that interval.
proof fn lemma_insert_before(o: Seq<Interval>, pos: int, x: u16)
    requires
        runs_wf(o),
        0 <= pos < o.len(),
        x + 1 == o[pos].start,
        pos > 0 ==> o[pos - 1].end + 1 < x,
    ensures
        ({
            let n = o.update(pos, Interval { start: x, end: o[pos].end });
            runs_wf(n) && covers_plus(n, o, x)
        }),
{
    let n = o.update(pos, Interval { start: x, end: o[pos].end });
    assert forall|k: int, l: int| 0 <= k < l < n.len() implies n[k].end + 1 < n[l].start by {
        if l == pos {
            if k < pos - 1 {
                assert(o[k].end + 1 < o[pos - 1].start);
            }
        } else if k == pos {
            assert(o[pos].end + 1 < o[l].start);
        }
    }
    assert forall|y: u16| #[trigger] covered(n, y) == (covered(o, y) || y == x) by {
        if covered(n, y) {
            let k = choose|k: int| 0 <= k < n.len() && #[trigger] n[k].start <= y <= n[k].end;
            if k != pos || y != x {
                assert(o[k].start <= y <= o[k].end);
            }
        }
        if covered(o, y) {
            let k = choose|k: int| 0 <= k < o.len() && #[trigger] o[k].start <= y <= o[k].end;
            assert(n[k].start <= y <= n[k].end);
        }
        if y == x {
            assert(n[pos].start <= y <= n[pos].end);
        }
    }
}

/// `x`, with a gap on both sides, becomes an interval of its own at `pos`.
proof fn lemma_insert_alone(o: Seq<Interval>, pos: int, x: u16)
    requires
        runs_wf(o),
        0 <= pos <= o.len(),
        pos > 0 ==> o[pos - 1].end + 1 < x,
        pos < o.len() ==> x + 1 < o[pos].start,
    ensures
        ({
            let n = o.insert(pos, Interval { start: x, end: x });
            runs_wf(n) && covers_plus(n, o, x) && n.len() == o.len() + 1
        }),
{
    let iv = Interval { start: x, end: x };
    let n = o.insert(pos, iv);
    o.insert_ensures(pos, iv);
    assert forall|k: int| 0 <= k < n.len() implies #[trigger] n[k] == if k < pos {
        o[k]
    } else if k == pos {
        iv
    } else {
        o[k - 1]
    } by {}
    assert forall|k: int, l: int| 0 <= k < l < n.len() implies n[k].end + 1 < n[l].start by {
        if k < pos && l == pos {
            if k < pos - 1 {
                assert(o[k].end + 1 < o[pos - 1].start);
            }
        } else if k == pos {
            if l - 1 > pos {
                assert(o[pos].end + 1 < o[l - 1].start);
            }
        } else if k < pos && l > pos {
            assert(o[k].end + 1 < o[l - 1].start);
        } else if k > pos {
            assert(o[k - 1].end + 1 < o[l - 1].start);
        }
    }
    assert forall|y: u16| #[trigger] covered(n, y) == (covered(o, y) || y == x) by {
        if covered(n, y) {
            let k = choose|k: int| 0 <= k < n.len() && #[trigger] n[k].start <= y <= n[k].end;
            if k < pos {
                assert(o[k].start <= y <= o[k].end);
            } else if k > pos {
                assert(o[k - 1].start <= y <= o[k - 1].end);
            }
        }
        if covered(o, y) {
            let k = choose|k: int| 0 <= k < o.len() && #[trigger] o[k].start <= y <= o[k].end;
            if k < pos {
                assert(n[k].start <= y <= n[k].end);
            } else {
                assert(n[k + 1].start <= y <= n[k + 1].end);
            }
        }
        if y == x {
            assert(n[pos].start <= y <= n[pos].end);
        }
    }
}

/// Adds the uncovered `x` in place: it extends the interval that ends just
/// below it or starts just above it, joins the two when it fills the gap
/// between them, or else becomes an interval of its own. Refuses (and
/// changes nothing) only when a new interval would bring the list to the
/// cost of a dense vector.
pub fn runs_insert(r: &mut Vec<Interval>, x: u16) -> (ok: bool)
    requires
        runs_wf(old(r)@),
        4 + 4 * old(r)@.len() < 8192,
        !covered(old(r)@, x),
    ensures
        ok ==> runs_wf(final(r)@) && 4 + 4 * final(r)@.len() < 8192 && covers_plus(
            final(r)@,
            old(r)@,
            x,
        ),
        !ok ==> final(r)@ == old(r)@ && 4 + 4 * (old(r)@.len() + 1) >= 8192 && forall|k: int|
            0 <= k < old(r)@.len() ==> #[trigger] old(r)@[k].end + 1 != x && x + 1 != old(r)@[k].start,
{
    let ghost o = r@;
    let len = r.len();
    let pos = first_start_above(r, x);
    proof {
        assert forall|k: int| 0 <= k < pos implies o[k].end < x by {
            assert(!(o[k].start <= x <= o[k].end));
        }
    }
    let left = pos > 0 && r[pos - 1].end as u32 + 1 == x as u32;
    let right = pos < len && x as u32 + 1 == r[pos].start as u32;
    if left && right {
        let s = r[pos - 1].start;
        let e = r[pos].end;
        proof {
            lemma_insert_join(o, pos as int, x);
        }
        r.set(pos - 1, Interval { start: s, end: e });
        r.remove(pos);
    } else if left {
        let s = r[pos - 1].start;
        proof {
            lemma_insert_after(o, pos as int, x);
        }
        r.set(pos - 1, Interval { start: s, end: x });
    } else if right {
        let e = r[pos].end;
        proof {
            lemma_insert_before(o, pos as int, x);
        }
        r.set(pos, Interval { start: x, end: e });
    } else {
        if 4 + 4 * (len + 1) >= 8192 {
            proof {
                assert forall|k: int| 0 <= k < o.len() implies #[trigger] o[k].end + 1 != x && x + 1
                    != o[k].start by {
                    if k < pos - 1 {
                        assert(o[k].end + 1 < o[pos - 1].start);
                    } else if k > pos {
                        assert(o[pos as int].end + 1 < o[k].start);
                    }
                }
            }
            return false;
        }
        proof {
            lemma_insert_alone(o, pos as int, x);
        }
        r.insert(pos, Interval { start: x, end: x });
    }
    true
}

/// After a removal, `n` covers what `o` covered but `x`.
pub open spec fn covers_minus(n: Seq<Interval>, o: Seq<Interval>, x: u16) -> bool {
    forall|y: u16| #[trigger] covered(n, y) == (covered(o, y) && y != x)
}

/// Replacing interval `p`, which holds `x`, by `iv`, which holds what it
/// held but `x`, removes `x`.
proof fn lemma_remove_update(o: Seq<Interval>, p: int, x: u16, iv: Interval)
    requires
        runs_wf(o),
        0 <= p < o.len(),
        iv.start <= iv.end,
        (o[p].start == x && iv.start == x + 1 && iv.end == o[p].end) || (o[p].end == x && iv.end
            == x - 1 && iv.start == o[p].start),
    ensures
        runs_wf(o.update(p, iv)),
        covers_minus(o.update(p, iv), o, x),
{
    let n = o.update(p, iv);
    assert forall|k: int, l: int| 0 <= k < l < n.len() implies n[k].end + 1 < n[l].start by {
        assert(o[k].end + 1 < o[l].start);
    }
    assert forall|y: u16| #[trigger] covered(n, y) == (covered(o, y) && y != x) by {
        if covered(n, y) {
            let k = choose|k: int| 0 <= k < n.len() && #[trigger] n[k].start <= y <= n[k].end;
            assert(o[k].start <= y <= o[k].end);
            if k != p && y == x {
                if k < p {
                    assert(o[k].end + 1 < o[p].start);
                } else {
                    assert(o[p].end + 1 < o[k].start);
                }
            }
        }
        if covered(o, y) && y != x {
            let k = choose|k: int| 0 <= k < o.len() && #[trigger] o[k].start <= y <= o[k].end;
            assert(n[k].start <= y <= n[k].end);
        }
    }
}

/// Dropping interval `p`, which holds `x` alone, removes `x`.
proof fn lemma_remove_drop(o: Seq<Interval>, p: int, x: u16)
    requires
        runs_wf(o),
        0 <= p < o.len(),
        o[p].start == x == o[p].end,
    ensures
        runs_wf(o.remove(p)),
        covers_minus(o.remove(p), o, x),
        o.remove(p).len() == o.len() - 1,
{
    let n = o.remove(p);
    o.remove_ensures(p);
    assert forall|k: int| 0 <= k < n.len() implies #[trigger] n[k] == if k < p {
        o[k]
    } else {
        o[k + 1]
    } by {}
    assert forall|k: int, l: int| 0 <= k < l < n.len() implies n[k].end + 1 < n[l].start by {
        if k < p && l >= p {
            assert(o[k].end + 1 < o[l + 1].start);
        } else if k >= p {
            assert(o[k + 1].end + 1 < o[l + 1].start);
        }
    }
    assert forall|y: u16| #[trigger] covered(n, y) == (covered(o, y) && y != x) by {
        if covered(n, y) {
            let k = choose|k: int| 0 <= k < n.len() && #[trigger] n[k].start <= y <= n[k].end;
            if k < p {
                assert(o[k].start <= y <= o[k].end);
                assert(o[k].end + 1 < o[p].start);
            } else {
                assert(o[k + 1].start <= y <= o[k + 1].end);
                assert(o[p].end + 1 < o[k + 1].start);
            }
        }
        if covered(o, y) && y != x {
            let k = choose|k: int| 0 <= k < o.len() && #[trigger] o[k].start <= y <= o[k].end;
            if k < p {
                assert(n[k].start <= y <= n[k].end);
            } else {
                assert(k != p);
                assert(n[k - 1].start <= y <= n[k - 1].end);
            }
        }
    }
}

/// Splitting interval `p` around `x`, strictly inside it, removes `x`.
proof fn lemma_remove_split(o: Seq<Interval>, p: int, x: u16)
    requires
        runs_wf(o),
        0 <= p < o.len(),
        o[p].start < x < o[p].end,
    ensures
        ({
            let n = o.update(p, Interval { start: o[p].start, end: (x - 1) as u16 }).insert(
                p + 1,
                Interval { start: (x + 1) as u16, end: o[p].end },
            );
            runs_wf(n) && covers_minus(n, o, x) && n.len() == o.len() + 1
        }),
{
    let lo = Interval { start: o[p].start, end: (x - 1) as u16 };
    let hi = Interval { start: (x + 1) as u16, end: o[p].end };
    let mid = o.update(p, lo);
    let n = mid.insert(p + 1, hi);
    mid.insert_ensures(p + 1, hi);
    assert forall|k: int| 0 <= k < n.len() implies #[trigger] n[k] == if k < p {
        o[k]
    } else if k == p {
        lo
    } else if k == p + 1 {
        hi
    } else {
        o[k - 1]
    } by {}
    assert forall|k: int, l: int| 0 <= k < l < n.len() implies n[k].end + 1 < n[l].start by {
        if k < p && l > p + 1 {
            assert(o[k].end + 1 < o[l - 1].start);
        } else if k < p {
            assert(o[k].end + 1 < o[p].start);
        } else if k <= p + 1 && l > p + 1 {
            assert(o[p].end + 1 < o[l - 1].start);
        } else if k > p + 1 {
            assert(o[k - 1].end + 1 < o[l - 1].start);
        }
    }
    assert forall|y: u16| #[trigger] covered(n, y) == (covered(o, y) && y != x) by {
        if covered(n, y) {
            let k = choose|k: int| 0 <= k < n.len() && #[trigger] n[k].start <= y <= n[k].end;
            if k < p {
                assert(o[k].start <= y <= o[k].end);
                assert(o[k].end + 1 < o[p].start);
            } else if k == p || k == p + 1 {
                assert(o[p].start <= y <= o[p].end);
            } else {
                assert(o[k - 1].start <= y <= o[k - 1].end);
                assert(o[p].end + 1 < o[k - 1].start);
            }
        }
        if covered(o, y) && y != x {
            let k = choose|k: int| 0 <= k < o.len() && #[trigger] o[k].start <= y <= o[k].end;
            if k < p {
                assert(n[k].start <= y <= n[k].end);
            } else if k == p {
                if y < x {
                    assert(n[p].start <= y <= n[p].end);
                } else {
                    assert(n[p + 1].start <= y <= n[p + 1].end);
                }
            } else {
                assert(n[k + 1].start <= y <= n[k + 1].end);
            }
        }
    }
}

/// Removes the covered `x` in place: it drops a one-value interval, trims
/// an interval at either end, or splits it in two. Refuses (and changes
/// nothing) only when a split would bring the list to the cost of a dense
/// vector.
pub fn runs_remove(r: &mut Vec<Interval>, x: u16) -> (ok: bool)
    requires
        runs_wf(old(r)@),
        4 + 4 * old(r)@.len() < 8192,
        covered(old(r)@, x),
    ensures
        ok ==> runs_wf(final(r)@) && 4 + 4 * final(r)@.len() < 8192 && covers_minus(
            final(r)@,
            old(r)@,
            x,
        ),
        !ok ==> final(r)@ == old(r)@ && 4 + 4 * (old(r)@.len() + 1) >= 8192 && exists|k: int|
            0 <= k < old(r)@.len() && #[trigger] old(r)@[k].start < x && x < old(r)@[k].end,
{
    let ghost o = r@;
    let len = r.len();
    let pos = first_start_above(r, x);
    proof {
        let k = choose|k: int| 0 <= k < o.len() && #[trigger] o[k].start <= x <= o[k].end;
        assert(k < pos);
        if k < pos - 1 {
            assert(o[k].end + 1 < o[pos - 1].start);
        }
    }
    let p = pos - 1;
    let iv = r[p];
    if iv.start == x && iv.end == x {
        proof {
            lemma_remove_drop(o, p as int, x);
        }
        r.remove(p);
    } else if iv.start == x {
        let nv = Interval { start: x + 1, end: iv.end };
        proof {
            lemma_remove_update(o, p as int, x, nv);
        }
        r.set(p, nv);
    } else if iv.end == x {
        let nv = Interval { start: iv.start, end: x - 1 };
        proof {
            lemma_remove_update(o, p as int, x, nv);
        }
        r.set(p, nv);
    } else {
        if 4 + 4 * (len + 1) >= 8192 {
            proof {
                assert(o[p as int].start < x && x < o[p as int].end);
            }
            return false;
        }
        proof {
            lemma_remove_split(o, p as int, x);
        }
        r.set(p, Interval { start: iv.start, end: x - 1 });
        r.insert(p + 1, Interval { start: x + 1, end: iv.end });
    }
    true
}

/// The members of a list of intervals are those of a prefix followed by
/// those of the rest.
pub proof fn lemma_runs_split(r: Seq<Interval>, k: int)
    requires
        0 <= k <= r.len(),
    ensures
        runs_seq(r) == runs_seq(r.subrange(0, k)) + runs_seq(r.subrange(k, r.len() as int)),
    decreases r.len(),
{
    if k == r.len() {
        assert(r.subrange(0, k) =~= r);
        assert(runs_seq(r.subrange(k, r.len() as int)) =~= Seq::<u16>::empty());
        assert(runs_seq(r) + Seq::<u16>::empty() =~= runs_seq(r));
    } else {
        let p = r.drop_last();
        lemma_runs_split(p, k);
        assert(p.subrange(0, k) =~= r.subrange(0, k));
        let t = r.subrange(k, r.len() as int);
        assert(t.drop_last() =~= p.subrange(k, p.len() as int));
        assert(t.last() == r.last());
        assert(runs_seq(r) =~= runs_seq(r.subrange(0, k)) + runs_seq(t));
    }
}

/// A sub-list of well-formed intervals is well formed.
proof fn lemma_runs_sub(r: Seq<Interval>, lo: int, hi: int)
    requires
        runs_wf(r),
        0 <= lo <= hi <= r.len(),
    ensures
        runs_wf(r.subrange(lo, hi)),
{
    let s = r.subrange(lo, hi);
    assert forall|k: int, l: int| 0 <= k < l < s.len() implies s[k].end + 1 < s[l].start by {
        assert(s[k] == r[lo + k]);
        assert(s[l] == r[lo + l]);
    }
}

/// The member at position `n`: a walk over the intervals.
pub fn runs_select(r: &Vec<Interval>, n: u32) -> (x: u16)
    requires
        runs_wf(r@),
        n < runs_seq(r@).len(),
    ensures
        x == runs_seq(r@)[n as int],
{
    let mut acc: u32 = 0;
    let mut k: usize = 0;
    assert(r@.subrange(0, 0) =~= Seq::<Interval>::empty());
    while k < r.len()
        invariant
            runs_wf(r@),
            n < runs_seq(r@).len(),
            k <= r@.len(),
            acc == runs_seq(r@.subrange(0, k as int)).len(),
            acc <= n,
        decreases r@.len() - k,
    {
        let iv = r[k];
        let m = (iv.end - iv.start) as u32 + 1;
        proof {
            let s = r@.subrange(0, k + 1);
            assert(s.drop_last() =~= r@.subrange(0, k as int));
        }
        if n - acc < m {
            proof {
                lemma_runs_split(r@, k + 1);
                let s = r@.subrange(0, k + 1);
                assert(runs_seq(r@)[n as int] == runs_seq(s)[n as int]);
                assert(runs_seq(s)[n as int] == interval_seq(iv)[n - acc]);
            }
            return iv.start + (n - acc) as u16;
        }
        acc = acc + m;
        k = k + 1;
    }
    proof {
        assert(r@.subrange(0, k as int) =~= r@);
    }
    0
}

/// The number of members at most `x`: a walk over the intervals that start
/// at or below it.
#[verifier::rlimit(50)]
pub fn runs_rank(r: &Vec<Interval>, x: u16) -> (n: u32)
    requires
        runs_wf(r@),
    ensures
        crate::order::splits16(runs_seq(r@), x as int, n as int),
{
    let mut acc: u32 = 0;
    let mut k: usize = 0;
    assert(r@.subrange(0, 0) =~= Seq::<Interval>::empty());
    proof {
        lemma_runs_seq(r@);
        lemma_ascending16_len(runs_seq(r@));
    }
    while k < r.len() && r[k].start <= x
        invariant
            runs_wf(r@),
            k <= r@.len(),
            acc == runs_seq(r@.subrange(0, k as int)).len(),
            acc <= runs_seq(r@).len() <= 65536,
            k > 0 ==> r@[k - 1].end <= x,
        decreases r@.len() - k,
    {
        let iv = r[k];
        proof {
            let s = r@.subrange(0, k + 1);
            assert(s.drop_last() =~= r@.subrange(0, k as int));
            lemma_runs_split(r@, k + 1);
        }
        if iv.end > x {
            let within = (x - iv.start) as u32 + 1;
            proof {
                let s = r@.subrange(0, k + 1);
                let p = r@.subrange(0, k as int);
                let t = r@.subrange(k + 1, r@.len() as int);
                lemma_runs_sub(r@, 0, k as int);
                lemma_runs_sub(r@, k + 1, r@.len() as int);
                lemma_runs_seq(p);
                lemma_runs_seq(t);
                let v = runs_seq(r@);
                assert(v == runs_seq(p) + interval_seq(iv) + runs_seq(t));
                assert forall|i: int| 0 <= i < acc + within implies v[i] <= x by {
                    if i >= acc {
                        assert(v[i] == interval_seq(iv)[i - acc]);
                    } else if k > 0 {
                        assert(p.last() == r@[k - 1]);
                    }
                }
                assert forall|i: int| acc + within <= i < v.len() implies v[i] > x by {
                    if i < acc + interval_seq(iv).len() {
                        assert(v[i] == interval_seq(iv)[i - acc]);
                    } else {
                        let j = i - acc - interval_seq(iv).len();
                        assert(v[i] == runs_seq(t)[j]);
                        crate::runs::lemma_runs_first(t);
                        assert(t[0] == r@[k + 1]);
                        assert(r@[k as int].end + 1 < r@[k + 1].start);
                        if j > 0 {
                            assert(runs_seq(t)[0] < runs_seq(t)[j]);
                        }
                    }
                }
            }
            return acc + within;
        }
        acc = acc + (iv.end - iv.start) as u32 + 1;
        k = k + 1;
    }
    proof {
        let p = r@.subrange(0, k as int);
        let t = r@.subrange(k as int, r@.len() as int);
        lemma_runs_split(r@, k as int);
        lemma_runs_sub(r@, 0, k as int);
        lemma_runs_sub(r@, k as int, r@.len() as int);
        lemma_runs_seq(p);
        lemma_runs_seq(t);
        let v = runs_seq(r@);
        assert forall|i: int| 0 <= i < acc implies v[i] <= x by {
            assert(v[i] == runs_seq(p)[i]);
            assert(p.last() == r@[k - 1]);
        }
        assert forall|i: int| acc <= i < v.len() implies v[i] > x by {
            let j = i - acc;
            assert(v[i] == runs_seq(t)[j]);
            crate::runs::lemma_runs_first(t);
            assert(t[0] == r@[k as int]);
            if j > 0 {
                assert(runs_seq(t)[0] < runs_seq(t)[j]);
            }
        }
    }
    acc
}

/// `y` lies in one of the first `k` intervals.
pub open spec fn covered_before(r: Seq<Interval>, k: int, y: u16) -> bool {
    exists|p: int| 0 <= p < k && #[trigger] r[p].start <= y <= r[p].end
}

/// Intersects two interval lists by sweeping them together: each step
/// keeps the overlap of the two current intervals and moves past the one
/// that ends first.
pub fn runs_intersect(a: &Vec<Interval>, b: &Vec<Interval>) -> (r: Vec<Interval>)
    requires
        runs_wf(a@),
        runs_wf(b@),
    ensures
        runs_wf(r@),
        forall|y: u16| #[trigger] covered(r@, y) == (covered(a@, y) && covered(b@, y)),
{
    let mut out: Vec<Interval> = Vec::new();
    let mut i: usize = 0;
    let mut j: usize = 0;
    while i < a.len() && j < b.len()
        invariant
            runs_wf(a@),
            runs_wf(b@),
            runs_wf(out@),
            i <= a@.len(),
            j <= b@.len(),
            out@.len() > 0 && i < a@.len() && j < b@.len() ==> out@.last().end + 1 < a@[i as int].start
                || out@.last().end + 1 < b@[j as int].start,
            forall|y: u16| #[trigger]
                covered(out@, y) == (covered(a@, y) && covered(b@, y) && (covered_before(
                    a@,
                    i as int,
                    y,
                ) || covered_before(b@, j as int, y))),
        decreases a@.len() + b@.len() - i - j,
    {
        let x = a[i];
        let z = b[j];
        let lo = if x.start >= z.start { x.start } else { z.start };
        let hi = if x.end <= z.end { x.end } else { z.end };
        let ghost o = out@;
        if lo <= hi {
            let iv = Interval { start: lo, end: hi };
            assert(o.push(iv).len() == o.len() + 1);
            proof {
                assert forall|k: int, l: int| 0 <= k < l < o.push(iv).len() implies o.push(iv)[k].end
                    + 1 < o.push(iv)[l].start by {
                    if l == o.len() && k < o.len() - 1 {
                        assert(o[k].end + 1 < o[o.len() - 1].start);
                        assert(o[o.len() - 1].start <= o[o.len() - 1].end);
                    }
                }
            }
            out.push(iv);
        }
        let ghost out1 = out@;
        let adv_a = x.end <= z.end;
        let adv_b = z.end <= x.end;
        if adv_a {
            i = i + 1;
        }
        if adv_b {
            j = j + 1;
        }
        proof {
            let i0 = if adv_a { i - 1 } else { i as int };
            let j0 = if adv_b { j - 1 } else { j as int };
            assert forall|y: u16| #[trigger] covered(out@, y) == (covered(a@, y) && covered(b@, y) && (
            covered_before(a@, i as int, y) || covered_before(b@, j as int, y))) by {
                let in_o = covered(o, y);
                let in_ov = lo <= y <= hi;
                if lo <= hi {
                    assert(covered(out@, y) == (in_o || in_ov)) by {
                        if covered(out@, y) {
                            let k = choose|k: int| 0 <= k < out@.len() && #[trigger] out@[k].start <= y
                                <= out@[k].end;
                            if k < o.len() {
                                assert(o[k] == out@[k]);
                            } else {
                                assert(out@[k] == Interval { start: lo, end: hi });
                            }
                        }
                        if in_o {
                            let k = choose|k: int| 0 <= k < o.len() && #[trigger] o[k].start <= y <= o[k].end;
                            assert(out@[k] == o[k]);
                            assert(out@[k].start <= y <= out@[k].end);
                        }
                        if in_ov {
                            let k = o.len() as int;
                            assert(out@[k] == Interval { start: lo, end: hi });
                            assert(out@[k].start <= y <= out@[k].end);
                        }
                    }
                } else {
                    assert(out@ == o);
                }
                if in_ov {
                    assert(a@[i0].start <= y <= a@[i0].end);
                    assert(b@[j0].start <= y <= b@[j0].end);
                    if adv_a {
                        assert(covered_before(a@, i as int, y));
                    } else {
                        assert(covered_before(b@, j as int, y));
                    }
                }
                if covered_before(a@, i as int, y) && !covered_before(a@, i0, y) {
                    assert(a@[i0].start <= y <= a@[i0].end) by {
                        let p = choose|p: int| 0 <= p < i && #[trigger] a@[p].start <= y <= a@[p].end;
                        assert(p == i0);
                    }
                    if covered(b@, y) && !covered_before(b@, j0, y) {
                        let q = choose|q: int| 0 <= q < b@.len() && #[trigger] b@[q].start <= y <= b@[q].end;
                        if q > j0 {
                            assert(b@[j0].end + 1 < b@[q].start);
                        }
                        assert(q == j0);
                    }
                }
                if covered_before(b@, j as int, y) && !covered_before(b@, j0, y) {
                    assert(b@[j0].start <= y <= b@[j0].end) by {
                        let q = choose|q: int| 0 <= q < j && #[trigger] b@[q].start <= y <= b@[q].end;
                        assert(q == j0);
                    }
                    if covered(a@, y) && !covered_before(a@, i0, y) {
                        let p = choose|p: int| 0 <= p < a@.len() && #[trigger] a@[p].start <= y <= a@[p].end;
                        if p > i0 {
                            assert(a@[i0].end + 1 < a@[p].start);
                        }
                        assert(p == i0);
                    }
                }
                if covered_before(a@, i0, y) {
                    let p = choose|p: int| 0 <= p < i0 && #[trigger] a@[p].start <= y <= a@[p].end;
                    assert(covered_before(a@, i as int, y));
                }
                if covered_before(b@, j0, y) {
                    let q = choose|q: int| 0 <= q < j0 && #[trigger] b@[q].start <= y <= b@[q].end;
                    assert(covered_before(b@, j as int, y));
                }
            }
            if out@.len() > 0 && i < a@.len() && j < b@.len() {
                if adv_a {
                    assert(a@[i0].end + 1 < a@[i as int].start);
                }
                if adv_b {
                    assert(b@[j0].end + 1 < b@[j as int].start);
                }
            }
        }
    }
    proof {
        assert forall|y: u16| #[trigger] covered(out@, y) == (covered(a@, y) && covered(b@, y)) by {
            if covered(a@, y) && covered(b@, y) {
                let p = choose|p: int| 0 <= p < a@.len() && #[trigger] a@[p].start <= y <= a@[p].end;
                let q = choose|q: int| 0 <= q < b@.len() && #[trigger] b@[q].start <= y <= b@[q].end;
                if i == a@.len() {
                    assert(covered_before(a@, i as int, y));
                } else {
                    assert(covered_before(b@, j as int, y));
                }
            }
        }
    }
    out
}

/// Adds `iv`, which starts no lower than any interval of `out`, to `out`:
/// it widens the last interval when it overlaps or touches it, and is
/// appended otherwise.
fn absorb(out: &mut Vec<Interval>, iv: Interval)
    requires
        runs_wf(old(out)@),
        iv.start <= iv.end,
        old(out)@.len() > 0 ==> old(out)@.last().start <= iv.start,
    ensures
        runs_wf(final(out)@),
        final(out)@.len() > 0,
        final(out)@.last().start <= iv.start,
        final(out)@.last().end >= iv.end,
        old(out)@.len() > 0 ==> final(out)@.last().end >= old(out)@.last().end,
        forall|y: u16| #[trigger]
            covered(final(out)@, y) == (covered(old(out)@, y) || iv.start <= y <= iv.end),
{
    let ghost o = out@;
    let n = out.len();
    if n > 0 && iv.start as u32 <= out[n - 1].end as u32 + 1 {
        let last = out[n - 1];
        let end = if iv.end > last.end { iv.end } else { last.end };
        out.set(n - 1, Interval { start: last.start, end });
        proof {
            let w = out@;
            assert forall|k: int, l: int| 0 <= k < l < w.len() implies w[k].end + 1 < w[l].start by {
                assert(o[k].end + 1 < o[l].start);
            }
            assert forall|y: u16| #[trigger] covered(w, y) == (covered(o, y) || iv.start <= y <= iv.end) by {
                if covered(w, y) {
                    let k = choose|k: int| 0 <= k < w.len() && #[trigger] w[k].start <= y <= w[k].end;
                    if k < n - 1 {
                        assert(o[k].start <= y <= o[k].end);
                    } else if y > last.end {
                        assert(iv.start <= y <= iv.end);
                    } else {
                        assert(o[k].start <= y <= o[k].end);
                    }
                }
                if covered(o, y) {
                    let k = choose|k: int| 0 <= k < o.len() && #[trigger] o[k].start <= y <= o[k].end;
                    assert(w[k].start <= y <= w[k].end);
                }
                if iv.start <= y <= iv.end {
                    let k = n - 1;
                    assert(w[k].start <= y <= w[k].end);
                }
            }
        }
    } else {
        out.push(iv);
        proof {
            let w = out@;
            assert forall|k: int, l: int| 0 <= k < l < w.len() implies w[k].end + 1 < w[l].start by {
                if l == n && k < n - 1 {
                    assert(o[k].end + 1 < o[n - 1].start);
                    assert(o[n - 1].start <= o[n - 1].end);
                }
            }
            assert forall|y: u16| #[trigger] covered(w, y) == (covered(o, y) || iv.start <= y <= iv.end) by {
                if covered(w, y) {
                    let k = choose|k: int| 0 <= k < w.len() && #[trigger] w[k].start <= y <= w[k].end;
                    if k < n {
                        assert(o[k].start <= y <= o[k].end);
                    }
                }
                if covered(o, y) {
                    let k = choose|k: int| 0 <= k < o.len() && #[trigger] o[k].start <= y <= o[k].end;
                    assert(w[k].start <= y <= w[k].end);
                }
                if iv.start <= y <= iv.end {
                    let k = n as int;
                    assert(w[k].start <= y <= w[k].end);
                }
            }
        }
    }
}

/// Unites two interval lists by sweeping them in order of start,
/// widening the last interval whenever the next overlaps or touches it.
pub fn runs_union(a: &Vec<Interval>, b: &Vec<Interval>) -> (r: Vec<Interval>)
    requires
        runs_wf(a@),
        runs_wf(b@),
    ensures
        runs_wf(r@),
        forall|y: u16| #[trigger] covered(r@, y) == (covered(a@, y) || covered(b@, y)),
{
    let mut out: Vec<Interval> = Vec::new();
    let mut i: usize = 0;
    let mut j: usize = 0;
    while i < a.len() || j < b.len()
        invariant
            runs_wf(a@),
            runs_wf(b@),
            runs_wf(out@),
            i <= a@.len(),
            j <= b@.len(),
            out@.len() > 0 && i < a@.len() ==> out@.last().start <= a@[i as int].start,
            out@.len() > 0 && j < b@.len() ==> out@.last().start <= b@[j as int].start,
            forall|y: u16| #[trigger]
                covered(out@, y) == (covered_before(a@, i as int, y) || covered_before(
                    b@,
                    j as int,
                    y,
                )),
        decreases a@.len() + b@.len() - i - j,
    {
        let take_a = j >= b.len() || (i < a.len() && a[i].start <= b[j].start);
        let iv = if take_a { a[i] } else { b[j] };
        let ghost o = out@;
        absorb(&mut out, iv);
        if take_a {
            i = i + 1;
        } else {
            j = j + 1;
        }
        proof {
            assert forall|y: u16| #[trigger] covered(out@, y) == (covered_before(a@, i as int, y)
                || covered_before(b@, j as int, y)) by {
                if take_a {
                    if covered_before(a@, i as int, y) {
                        let p = choose|p: int| 0 <= p < i && #[trigger] a@[p].start <= y <= a@[p].end;
                        if p < i - 1 {
                            assert(covered_before(a@, i - 1, y));
                        }
                    }
                    if covered_before(a@, i - 1, y) {
                        let p = choose|p: int| 0 <= p < i - 1 && #[trigger] a@[p].start <= y <= a@[p].end;
                        assert(covered_before(a@, i as int, y));
                    }
                    if iv.start <= y <= iv.end {
                        let p = i - 1;
                        assert(a@[p].start <= y <= a@[p].end);
                    }
                } else {
                    if covered_before(b@, j as int, y) {
                        let q = choose|q: int| 0 <= q < j && #[trigger] b@[q].start <= y <= b@[q].end;
                        if q < j - 1 {
                            assert(covered_before(b@, j - 1, y));
                        }
                    }
                    if covered_before(b@, j - 1, y) {
                        let q = choose|q: int| 0 <= q < j - 1 && #[trigger] b@[q].start <= y <= b@[q].end;
                        assert(covered_before(b@, j as int, y));
                    }
                    if iv.start <= y <= iv.end {
                        let q = j - 1;
                        assert(b@[q].start <= y <= b@[q].end);
                    }
                }
            }
            if take_a && i < a@.len() {
                assert(a@[i - 1].end + 1 < a@[i as int].start);
            }
            if !take_a && j < b@.len() {
                assert(b@[j - 1].end + 1 < b@[j as int].start);
            }
        }
    }
    proof {
        assert forall|y: u16| #[trigger] covered(out@, y) == (covered(a@, y) || covered(b@, y)) by {
            if covered(a@, y) {
                let p = choose|p: int| 0 <= p < a@.len() && #[trigger] a@[p].start <= y <= a@[p].end;
                assert(covered_before(a@, i as int, y));
            }
            if covered(b@, y) {
                let q = choose|q: int| 0 <= q < b@.len() && #[trigger] b@[q].start <= y <= b@[q].end;
                assert(covered_before(b@, j as int, y));
            }
        }
    }
    out
}

/// Well-formed interval lists with the same members are the same list.
pub proof fn lemma_runs_unique(r1: Seq<Interval>, r2: Seq<Interval>)
    requires
        runs_wf(r1),
        runs_wf(r2),
        runs_seq(r1) == runs_seq(r2),
    ensures
        r1 == r2,
    decreases r1.len() + r2.len(),
{
    lemma_runs_seq(r1);
    lemma_runs_seq(r2);
    if r1.len() == 0 || r2.len() == 0 {
        if r1.len() > 0 {
            lemma_runs_first(r1);
        }
        if r2.len() > 0 {
            lemma_runs_first(r2);
        }
        assert(r1 =~= r2);
    } else {
        let s = runs_seq(r1);
        let p1 = r1.drop_last();
        let p2 = r2.drop_last();
        let l1 = r1.last();
        let l2 = r2.last();
        assert(l1 == r1[r1.len() - 1]);
        assert(l2 == r2[r2.len() - 1]);
        assert(s == runs_seq(p1) + interval_seq(l1));
        assert(s == runs_seq(p2) + interval_seq(l2));
        assert(s.last() == l1.end);
        assert(s.last() == l2.end);
        if l1.start < l2.start {
            let v = (l2.start - 1) as u16;
            assert(r1[r1.len() - 1].start <= v <= r1[r1.len() - 1].end);
            assert(s.contains(v));
            let k = choose|k: int| 0 <= k < r2.len() && #[trigger] r2[k].start <= v <= r2[k].end;
            if k < r2.len() - 1 {
                assert(r2[k].end + 1 < r2[r2.len() - 1].start);
            }
        }
        if l2.start < l1.start {
            let v = (l1.start - 1) as u16;
            assert(r2[r2.len() - 1].start <= v <= r2[r2.len() - 1].end);
            assert(s.contains(v));
            let k = choose|k: int| 0 <= k < r1.len() && #[trigger] r1[k].start <= v <= r1[k].end;
            if k < r1.len() - 1 {
                assert(r1[k].end + 1 < r1[r1.len() - 1].start);
            }
        }
        assert(l1 == l2);
        let n = s.len() - interval_seq(l1).len();
        assert(runs_seq(p1) =~= s.subrange(0, n));
        assert(runs_seq(p2) =~= s.subrange(0, n));
        assert(runs_wf(p1));
        assert(runs_wf(p2));
        lemma_runs_unique(p1, p2);
        assert(r1 =~= r2) by {
            assert forall|i: int| 0 <= i < r1.len() implies r1[i] == r2[i] by {
                if i < r1.len() - 1 {
                    assert(r1[i] == p1[i]);
                    assert(r2[i] == p2[i]);
                }
            }
        }
    }
}

} // verus!
