use vstd::prelude::*;

use crate::helpers::find_shift_index;
use crate::scheduler::{all_valid, lemma_views_push, views, well_formed, ScheduleError, Shift, ShiftSpec};

verus! {

/// `x` with its end lowered to `t` where it ends later.
pub open spec fn clip_end(x: ShiftSpec, t: int) -> ShiftSpec {
    ShiftSpec { user: x.user, start: x.start, end: if x.end < t { x.end } else { t } }
}

/// `x` with its start raised to `t` where it starts earlier.
pub open spec fn clip_start(x: ShiftSpec, t: int) -> ShiftSpec {
    ShiftSpec { user: x.user, start: if x.start > t { x.start } else { t }, end: x.end }
}

/// What remains of the intervals of `s` before time `t`, in order.
pub open spec fn before_part(s: Seq<ShiftSpec>, t: int) -> Seq<ShiftSpec>
    decreases s.len(),
{
    if s.len() == 0 {
        Seq::empty()
    } else {
        let rest = before_part(s.drop_last(), t);
        if s.last().start < t {
            rest.push(clip_end(s.last(), t))
        } else {
            rest
        }
    }
}

/// What remains of the intervals of `s` after time `t`, in order.
pub open spec fn after_part(s: Seq<ShiftSpec>, t: int) -> Seq<ShiftSpec>
    decreases s.len(),
{
    if s.len() == 0 {
        Seq::empty()
    } else {
        let rest = after_part(s.drop_last(), t);
        if s.last().end > t {
            rest.push(clip_start(s.last(), t))
        } else {
            rest
        }
    }
}

/// `s` with the override `o` laid over it: the parts of the existing intervals
/// before `o`, then `o`, then the parts after `o`.
pub open spec fn overridden(s: Seq<ShiftSpec>, o: ShiftSpec) -> Seq<ShiftSpec> {
    before_part(s, o.start) + seq![o] + after_part(s, o.end)
}

/// `s` with the overrides `os` laid over it one after another, first to last.
pub open spec fn all_overridden(s: Seq<ShiftSpec>, os: Seq<ShiftSpec>) -> Seq<ShiftSpec>
    decreases os.len(),
{
    if os.len() == 0 {
        s
    } else {
        overridden(all_overridden(s, os.drop_last()), os.last())
    }
}

/// Every interval of `s` ends no later than `b`.
pub open spec fn ends_by(s: Seq<ShiftSpec>, b: int) -> bool {
    forall|k: int| 0 <= k < s.len() ==> #[trigger] s[k].end <= b
}

/// Every interval of `s` starts no earlier than `b`.
pub open spec fn starts_from(s: Seq<ShiftSpec>, b: int) -> bool {
    forall|k: int| 0 <= k < s.len() ==> #[trigger] s[k].start >= b
}

pub(crate) proof fn lemma_wf_push(r: Seq<ShiftSpec>, x: ShiftSpec)
    requires
        well_formed(r),
        x.is_valid(),
        ends_by(r, x.start),
    ensures
        well_formed(r.push(x)),
{
    let q = r.push(x);
    assert forall|i: int, j: int| #![trigger q[i], q[j]] 0 <= i < j < q.len() implies q[i].end <= q[j].start by {
        if j < r.len() {
            assert(r[i].end <= r[j].start);
        } else {
            assert(r[i].end <= x.start);
        }
    }
}

proof fn lemma_wf_concat(a: Seq<ShiftSpec>, b: Seq<ShiftSpec>, m: int)
    requires
        well_formed(a),
        well_formed(b),
        ends_by(a, m),
        starts_from(b, m),
    ensures
        well_formed(a + b),
{
    let q = a + b;
    assert forall|i: int, j: int| #![trigger q[i], q[j]] 0 <= i < j < q.len() implies q[i].end <= q[j].start by {
        if j < a.len() {
            assert(a[i].end <= a[j].start);
        } else if i >= a.len() {
            assert(b[i - a.len()].end <= b[j - a.len()].start);
        } else {
            assert(a[i].end <= m);
            assert(b[j - a.len()].start >= m);
        }
    }
    assert forall|i: int| 0 <= i < q.len() implies #[trigger] q[i].is_valid() by {
        if i < a.len() {
            assert(a[i].is_valid());
        } else {
            assert(b[i - a.len()].is_valid());
        }
    }
}

proof fn lemma_before_ends_by(s: Seq<ShiftSpec>, t: int, b: int)
    requires
        ends_by(s, b),
    ensures
        ends_by(before_part(s, t), b),
        ends_by(before_part(s, t), t),
        forall|k: int| 0 <= k < before_part(s, t).len() ==> #[trigger] before_part(s, t)[k].start < t,
    decreases s.len(),
{
    if s.len() > 0 {
        let p = s.drop_last();
        assert(ends_by(p, b)) by {
            assert forall|k: int| 0 <= k < p.len() implies #[trigger] p[k].end <= b by {
                assert(s[k].end <= b);
            }
        }
        lemma_before_ends_by(p, t, b);
        assert(s[s.len() - 1].end <= b);
    }
}

proof fn lemma_after_ends_by(s: Seq<ShiftSpec>, t: int, b: int)
    requires
        ends_by(s, b),
    ensures
        ends_by(after_part(s, t), b),
        starts_from(after_part(s, t), t),
        forall|k: int| 0 <= k < after_part(s, t).len() ==> #[trigger] after_part(s, t)[k].end > t,
    decreases s.len(),
{
    if s.len() > 0 {
        let p = s.drop_last();
        assert(ends_by(p, b)) by {
            assert forall|k: int| 0 <= k < p.len() implies #[trigger] p[k].end <= b by {
                assert(s[k].end <= b);
            }
        }
        lemma_after_ends_by(p, t, b);
        assert(s[s.len() - 1].end <= b);
    }
}

pub(crate) proof fn lemma_wf_drop_last(s: Seq<ShiftSpec>)
    requires
        well_formed(s),
        s.len() > 0,
    ensures
        well_formed(s.drop_last()),
        ends_by(s.drop_last(), s.last().start),
        s.last().is_valid(),
{
    let p = s.drop_last();
    assert forall|i: int, j: int| #![trigger p[i], p[j]] 0 <= i < j < p.len() implies p[i].end <= p[j].start by {
        assert(s[i].end <= s[j].start);
    }
    assert forall|i: int| 0 <= i < p.len() implies #[trigger] p[i].is_valid() by {
        assert(s[i].is_valid());
    }
    assert forall|k: int| 0 <= k < p.len() implies #[trigger] p[k].end <= s.last().start by {
        assert(s[k].end <= s[s.len() - 1].start);
    }
    assert(s[s.len() - 1].is_valid());
}

proof fn lemma_before_wf(s: Seq<ShiftSpec>, t: int)
    requires
        well_formed(s),
    ensures
        well_formed(before_part(s, t)),
        ends_by(before_part(s, t), t),
    decreases s.len(),
{
    if s.len() > 0 {
        let p = s.drop_last();
        lemma_wf_drop_last(s);
        lemma_before_wf(p, t);
        lemma_before_ends_by(p, t, s.last().start);
        if s.last().start < t {
            lemma_wf_push(before_part(p, t), clip_end(s.last(), t));
        }
    }
}

proof fn lemma_after_wf(s: Seq<ShiftSpec>, t: int)
    requires
        well_formed(s),
    ensures
        well_formed(after_part(s, t)),
        starts_from(after_part(s, t), t),
    decreases s.len(),
{
    if s.len() > 0 {
        let p = s.drop_last();
        lemma_wf_drop_last(s);
        lemma_after_wf(p, t);
        lemma_after_ends_by(p, t, s.last().start);
        if s.last().end > t {
            lemma_wf_push(after_part(p, t), clip_start(s.last(), t));
        }
    }
}

/// Laying a valid override over a well-formed sequence gives a well-formed
/// sequence: sorted, free of overlaps, every interval valid.
pub proof fn lemma_override_keeps_order(s: Seq<ShiftSpec>, o: ShiftSpec)
    requires
        well_formed(s),
        o.is_valid(),
    ensures
        well_formed(overridden(s, o)),
{
    let b = before_part(s, o.start);
    let a = after_part(s, o.end);
    lemma_before_wf(s, o.start);
    lemma_after_wf(s, o.end);
    let single = seq![o];
    assert(well_formed(single));
    assert(starts_from(single, o.start));
    lemma_wf_concat(b, single, o.start);
    assert(ends_by(b + single, o.end)) by {
        assert forall|k: int| 0 <= k < (b + single).len() implies #[trigger] (b + single)[k].end <= o.end by {
            if k < b.len() {
                assert(b[k].end <= o.start);
            }
        }
    }
    lemma_wf_concat(b + single, a, o.end);
}

/// Laying valid overrides, one after another, over a well-formed sequence
/// gives a well-formed sequence.
pub proof fn lemma_overrides_keep_order(s: Seq<ShiftSpec>, os: Seq<ShiftSpec>)
    requires
        well_formed(s),
        all_valid(os),
    ensures
        well_formed(all_overridden(s, os)),
    decreases os.len(),
{
    if os.len() > 0 {
        let p = os.drop_last();
        assert(all_valid(p)) by {
            assert forall|i: int| 0 <= i < p.len() implies #[trigger] p[i].is_valid() by {
                assert(os[i].is_valid());
            }
        }
        assert(os[os.len() - 1].is_valid());
        lemma_overrides_keep_order(s, p);
        lemma_override_keeps_order(all_overridden(s, p), os.last());
    }
}

proof fn lemma_before_concat(a: Seq<ShiftSpec>, b: Seq<ShiftSpec>, t: int)
    ensures
        before_part(a + b, t) == before_part(a, t) + before_part(b, t),
    decreases b.len(),
{
    if b.len() == 0 {
        assert(a + b =~= a);
        assert(before_part(a, t) + before_part(b, t) =~= before_part(a, t));
    } else {
        assert((a + b).drop_last() =~= a + b.drop_last());
        lemma_before_concat(a, b.drop_last(), t);
        assert((a + b).last() == b.last());
        if b.last().start < t {
            assert(before_part(a, t) + before_part(b.drop_last(), t).push(clip_end(b.last(), t))
                =~= (before_part(a, t) + before_part(b.drop_last(), t)).push(clip_end(b.last(), t)));
        }
    }
}

proof fn lemma_after_concat(a: Seq<ShiftSpec>, b: Seq<ShiftSpec>, t: int)
    ensures
        after_part(a + b, t) == after_part(a, t) + after_part(b, t),
    decreases b.len(),
{
    if b.len() == 0 {
        assert(a + b =~= a);
        assert(after_part(a, t) + after_part(b, t) =~= after_part(a, t));
    } else {
        assert((a + b).drop_last() =~= a + b.drop_last());
        lemma_after_concat(a, b.drop_last(), t);
        assert((a + b).last() == b.last());
        if b.last().end > t {
            assert(after_part(a, t) + after_part(b.drop_last(), t).push(clip_start(b.last(), t))
                =~= (after_part(a, t) + after_part(b.drop_last(), t)).push(clip_start(b.last(), t)));
        }
    }
}

proof fn lemma_before_unchanged(s: Seq<ShiftSpec>, t: int)
    requires
        ends_by(s, t),
        forall|k: int| 0 <= k < s.len() ==> #[trigger] s[k].start < t,
    ensures
        before_part(s, t) == s,
    decreases s.len(),
{
    if s.len() > 0 {
        let p = s.drop_last();
        assert forall|k: int| 0 <= k < p.len() implies #[trigger] p[k].end <= t && p[k].start < t by {
            assert(s[k].end <= t);
            assert(s[k].start < t);
        }
        lemma_before_unchanged(p, t);
        assert(s[s.len() - 1].end <= t && s[s.len() - 1].start < t);
        assert(p.push(s.last()) =~= s);
    }
}

proof fn lemma_before_empty(s: Seq<ShiftSpec>, t: int)
    requires
        starts_from(s, t),
    ensures
        before_part(s, t) == Seq::<ShiftSpec>::empty(),
    decreases s.len(),
{
    if s.len() > 0 {
        let p = s.drop_last();
        assert forall|k: int| 0 <= k < p.len() implies #[trigger] p[k].start >= t by {
            assert(s[k].start >= t);
        }
        lemma_before_empty(p, t);
        assert(s[s.len() - 1].start >= t);
    }
}

proof fn lemma_after_unchanged(s: Seq<ShiftSpec>, t: int)
    requires
        starts_from(s, t),
        forall|k: int| 0 <= k < s.len() ==> #[trigger] s[k].end > t,
    ensures
        after_part(s, t) == s,
    decreases s.len(),
{
    if s.len() > 0 {
        let p = s.drop_last();
        assert forall|k: int| 0 <= k < p.len() implies #[trigger] p[k].start >= t && p[k].end > t by {
            assert(s[k].start >= t);
            assert(s[k].end > t);
        }
        lemma_after_unchanged(p, t);
        assert(s[s.len() - 1].start >= t && s[s.len() - 1].end > t);
        assert(p.push(s.last()) =~= s);
    }
}

proof fn lemma_after_empty(s: Seq<ShiftSpec>, t: int)
    requires
        ends_by(s, t),
    ensures
        after_part(s, t) == Seq::<ShiftSpec>::empty(),
    decreases s.len(),
{
    if s.len() > 0 {
        let p = s.drop_last();
        assert forall|k: int| 0 <= k < p.len() implies #[trigger] p[k].end <= t by {
            assert(s[k].end <= t);
        }
        lemma_after_empty(p, t);
        assert(s[s.len() - 1].end <= t);
    }
}

proof fn lemma_parts_bounds(s: Seq<ShiftSpec>, o: ShiftSpec)
    requires
        o.is_valid(),
    ensures
        ends_by(before_part(s, o.start), o.start),
        forall|k: int| 0 <= k < before_part(s, o.start).len() ==> #[trigger] before_part(s, o.start)[k].start < o.start,
        starts_from(after_part(s, o.end), o.end),
        forall|k: int| 0 <= k < after_part(s, o.end).len() ==> #[trigger] after_part(s, o.end)[k].end > o.end,
{
    lemma_seq_max_end(s);
    let b = choose|b: int| ends_by(s, b);
    lemma_before_ends_by(s, o.start, b);
    lemma_after_ends_by(s, o.end, b);
}

proof fn lemma_seq_max_end(s: Seq<ShiftSpec>)
    ensures
        exists|b: int| ends_by(s, b),
    decreases s.len(),
{
    if s.len() > 0 {
        let p = s.drop_last();
        lemma_seq_max_end(p);
        let b = choose|b: int| ends_by(p, b);
        let c = if b > s.last().end { b } else { s.last().end };
        assert forall|k: int| 0 <= k < s.len() implies #[trigger] s[k].end <= c by {
            if k < p.len() {
                assert(p[k].end <= b);
            }
        }
        assert(ends_by(s, c));
    } else {
        assert(ends_by(s, 0));
    }
}

/// Laying the same valid override over a sequence a second time changes
/// nothing.
pub proof fn lemma_override_idempotent(s: Seq<ShiftSpec>, o: ShiftSpec)
    requires
        o.is_valid(),
    ensures
        overridden(overridden(s, o), o) == overridden(s, o),
{
    let b = before_part(s, o.start);
    let a = after_part(s, o.end);
    let single = seq![o];
    lemma_parts_bounds(s, o);
    assert(overridden(s, o) == (b + single) + a);
    lemma_before_concat(b + single, a, o.start);
    lemma_before_concat(b, single, o.start);
    lemma_before_unchanged(b, o.start);
    assert(single.drop_last() =~= Seq::<ShiftSpec>::empty());
    assert(before_part(Seq::<ShiftSpec>::empty(), o.start) =~= Seq::<ShiftSpec>::empty());
    assert(before_part(single, o.start) =~= Seq::<ShiftSpec>::empty());
    assert(starts_from(a, o.start)) by {
        assert forall|k: int| 0 <= k < a.len() implies #[trigger] a[k].start >= o.start by {
            assert(a[k].start >= o.end);
        }
    }
    lemma_before_empty(a, o.start);
    lemma_after_concat(b + single, a, o.end);
    lemma_after_concat(b, single, o.end);
    assert(ends_by(b, o.end)) by {
        assert forall|k: int| 0 <= k < b.len() implies #[trigger] b[k].end <= o.end by {
            assert(b[k].end <= o.start);
        }
    }
    lemma_after_empty(b, o.end);
    assert(after_part(Seq::<ShiftSpec>::empty(), o.end) =~= Seq::<ShiftSpec>::empty());
    assert(after_part(single, o.end) =~= Seq::<ShiftSpec>::empty());
    lemma_after_unchanged(a, o.end);
    assert(before_part(overridden(s, o), o.start) =~= b);
    assert(after_part(overridden(s, o), o.end) =~= a);
}

/// Of two overrides laid one after the other, the later one holds every
/// moment of its own interval: it stands in the result, and no other interval
/// of the result holds any moment of it.
pub proof fn lemma_later_override_wins(s: Seq<ShiftSpec>, first: ShiftSpec, second: ShiftSpec)
    requires
        first.is_valid(),
        second.is_valid(),
    ensures
        all_overridden(s, seq![first, second]).contains(second),
        ({
            let r = all_overridden(s, seq![first, second]);
            forall|k: int, t: int|
                0 <= k < r.len() && second.holds(t) && #[trigger] r[k].holds(t) ==> r[k] == second
        }),
{
    let os = seq![first, second];
    assert(os.drop_last() =~= seq![first]);
    assert(seq![first].drop_last() =~= Seq::<ShiftSpec>::empty());
    assert(all_overridden(s, Seq::<ShiftSpec>::empty()) == s);
    assert(all_overridden(s, seq![first]) == overridden(s, first));
    let q = overridden(s, first);
    assert(all_overridden(s, os) == overridden(q, second));
    let r = overridden(q, second);
    let b = before_part(q, second.start);
    let a = after_part(q, second.end);
    lemma_parts_bounds(q, second);
    assert(r[b.len() as int] == second);
    assert forall|k: int, t: int|
        0 <= k < r.len() && second.holds(t) && #[trigger] r[k].holds(t) implies r[k] == second by {
        if k < b.len() {
            assert(b[k].end <= second.start);
        } else if k > b.len() {
            assert(a[k - b.len() - 1].start >= second.end);
        }
    }
}

proof fn lemma_before_as_prefix(s: Seq<ShiftSpec>, a: int, lo: int)
    requires
        0 <= lo <= s.len(),
        forall|k: int| 0 <= k < lo ==> #[trigger] s[k].start < a,
        starts_from(s.subrange(lo, s.len() as int), a),
    ensures
        before_part(s, a) == Seq::new(lo as nat, |k: int| clip_end(s[k], a)),
    decreases s.len(),
{
    let p = s.drop_last();
    if s.len() > lo {
        assert(s.subrange(lo, s.len() as int)[s.len() - 1 - lo].start >= a);
        assert(starts_from(p.subrange(lo, p.len() as int), a)) by {
            assert forall|k: int| 0 <= k < p.subrange(lo, p.len() as int).len()
                implies #[trigger] p.subrange(lo, p.len() as int)[k].start >= a by {
                assert(s.subrange(lo, s.len() as int)[k].start >= a);
            }
        }
        lemma_before_as_prefix(p, a, lo);
        assert(Seq::new(lo as nat, |k: int| clip_end(p[k], a)) =~= Seq::new(lo as nat, |k: int| clip_end(s[k], a)));
    } else if lo > 0 {
        assert(s[lo - 1].start < a);
        assert(starts_from(p.subrange(lo - 1, p.len() as int), a));
        lemma_before_as_prefix(p, a, lo - 1);
        assert(Seq::new((lo - 1) as nat, |k: int| clip_end(p[k], a)).push(clip_end(s.last(), a))
            =~= Seq::new(lo as nat, |k: int| clip_end(s[k], a)));
    } else {
        assert(Seq::new(0, |k: int| clip_end(s[k], a)) =~= Seq::<ShiftSpec>::empty());
    }
}

proof fn lemma_after_as_suffix(s: Seq<ShiftSpec>, b: int, hi: int)
    requires
        0 <= hi <= s.len(),
        ends_by(s.subrange(0, hi), b),
        forall|k: int| hi <= k < s.len() ==> #[trigger] s[k].end > b,
    ensures
        after_part(s, b) == Seq::new((s.len() - hi) as nat, |k: int| clip_start(s[hi + k], b)),
    decreases s.len(),
{
    let p = s.drop_last();
    if s.len() > hi {
        assert(s[s.len() - 1].end > b);
        assert(p.subrange(0, hi) =~= s.subrange(0, hi));
        lemma_after_as_suffix(p, b, hi);
        assert(Seq::new((p.len() - hi) as nat, |k: int| clip_start(p[hi + k], b)).push(clip_start(s.last(), b))
            =~= Seq::new((s.len() - hi) as nat, |k: int| clip_start(s[hi + k], b)));
    } else {
        assert(s.subrange(0, hi) =~= s);
        lemma_after_empty(s, b);
        assert(Seq::new(0, |k: int| clip_start(s[hi + k], b)) =~= Seq::<ShiftSpec>::empty());
    }
}

/// `p` with its last interval cut back to end no later than `a`.
pub open spec fn cut_head(p: Seq<ShiftSpec>, a: int) -> Seq<ShiftSpec> {
    if p.len() > 0 {
        p.update(p.len() - 1, clip_end(p.last(), a))
    } else {
        p
    }
}

/// `q` with its first interval cut back to start no earlier than `b`.
pub open spec fn cut_tail(q: Seq<ShiftSpec>, b: int) -> Seq<ShiftSpec> {
    if q.len() > 0 {
        q.update(0, clip_start(q[0], b))
    } else {
        q
    }
}

/// Where `lo` intervals start before the override and `hi` end no later than
/// its end, laying it over `s` keeps the first `lo` intervals, the last one
/// cut back, then the override, then the intervals from `hi` on, the first one
/// cut back.
proof fn lemma_splice(s: Seq<ShiftSpec>, o: ShiftSpec, lo: int, hi: int)
    requires
        well_formed(s),
        o.is_valid(),
        0 <= lo <= s.len(),
        0 <= hi <= s.len(),
        forall|k: int| 0 <= k < lo ==> #[trigger] s[k].start < o.start,
        forall|k: int| lo <= k < s.len() ==> #[trigger] s[k].start >= o.start,
        forall|k: int| 0 <= k < hi ==> #[trigger] s[k].end <= o.end,
        forall|k: int| hi <= k < s.len() ==> #[trigger] s[k].end > o.end,
    ensures
        lo <= hi + 1,
        overridden(s, o) == cut_head(s.subrange(0, lo), o.start) + seq![o] + cut_tail(
            s.subrange(hi, s.len() as int),
            o.end,
        ),
{
    let a = o.start;
    let b = o.end;
    if lo > hi + 1 {
        assert(s[hi].end <= s[hi + 1].start);
    }
    assert(starts_from(s.subrange(lo, s.len() as int), a)) by {
        assert forall|k: int| 0 <= k < s.subrange(lo, s.len() as int).len()
            implies #[trigger] s.subrange(lo, s.len() as int)[k].start >= a by {
            assert(s[lo + k].start >= a);
        }
    }
    lemma_before_as_prefix(s, a, lo);
    assert(ends_by(s.subrange(0, hi), b)) by {
        assert forall|k: int| 0 <= k < hi implies #[trigger] s.subrange(0, hi)[k].end <= b by {
            assert(s[k].end <= b);
        }
    }
    lemma_after_as_suffix(s, b, hi);
    let head = Seq::new(lo as nat, |k: int| clip_end(s[k], a));
    assert forall|k: int| 0 <= k < lo implies #[trigger] head[k] == cut_head(s.subrange(0, lo), a)[k] by {
        if k + 1 < lo {
            assert(s[k].end <= s[k + 1].start);
        }
    }
    assert(head =~= cut_head(s.subrange(0, lo), a));
    let rest = Seq::new((s.len() - hi) as nat, |k: int| clip_start(s[hi + k], b));
    assert forall|k: int| 0 <= k < s.len() - hi implies #[trigger] rest[k] == cut_tail(
        s.subrange(hi, s.len() as int),
        b,
    )[k] by {
        if k > 0 {
            assert(s[hi].end <= s[hi + k].start);
            assert(s[hi].is_valid());
        }
    }
    assert(rest =~= cut_tail(s.subrange(hi, s.len() as int), b));
}

/// Number of leading intervals that start before `t`.
fn count_starting_before(shifts: &Vec<Shift>, t: i64) -> (r: usize)
    requires
        well_formed(views(shifts@)),
    ensures
        r <= shifts@.len(),
        forall|k: int| 0 <= k < r ==> #[trigger] views(shifts@)[k].start < t,
        forall|k: int| r <= k < shifts@.len() ==> #[trigger] views(shifts@)[k].start >= t,
{
    let ghost s = views(shifts@);
    let mut i: usize = 0;
    while i < shifts.len() && shifts[i].start_at < t
        invariant
            s == views(shifts@),
            i <= shifts@.len(),
            forall|k: int| 0 <= k < i ==> #[trigger] s[k].start < t,
        decreases shifts@.len() - i,
    {
        assert(s[i as int] == shifts@[i as int]@);
        i += 1;
    }
    if i < shifts.len() {
        assert(s[i as int] == shifts@[i as int]@);
        assert forall|k: int| i <= k < s.len() implies #[trigger] s[k].start >= t by {
            if k > i {
                assert(s[i as int].end <= s[k].start);
                assert(s[i as int].is_valid());
            }
        }
    }
    i
}

/// Number of leading intervals that end no later than `t`.
fn count_ending_by(shifts: &Vec<Shift>, t: i64) -> (r: usize)
    requires
        well_formed(views(shifts@)),
    ensures
        r <= shifts@.len(),
        forall|k: int| 0 <= k < r ==> #[trigger] views(shifts@)[k].end <= t,
        forall|k: int| r <= k < shifts@.len() ==> #[trigger] views(shifts@)[k].end > t,
{
    let ghost s = views(shifts@);
    let mut i: usize = 0;
    while i < shifts.len() && shifts[i].end_at <= t
        invariant
            s == views(shifts@),
            i <= shifts@.len(),
            forall|k: int| 0 <= k < i ==> #[trigger] s[k].end <= t,
        decreases shifts@.len() - i,
    {
        assert(s[i as int] == shifts@[i as int]@);
        i += 1;
    }
    if i < shifts.len() {
        assert(s[i as int] == shifts@[i as int]@);
        assert forall|k: int| i <= k < s.len() implies #[trigger] s[k].end > t by {
            if k > i {
                assert(s[i as int].end <= s[k].start);
                assert(s[k].is_valid());
            }
        }
    }
    i
}

/// Number of intervals that start before `a`: found by looking up the interval
/// that holds `a`, or by a scan where none does.
fn prev_edge(shifts: &Vec<Shift>, a: i64) -> (lo: usize)
    requires
        well_formed(views(shifts@)),
    ensures
        lo <= shifts@.len(),
        forall|k: int| 0 <= k < lo ==> #[trigger] views(shifts@)[k].start < a,
        forall|k: int| lo <= k < shifts@.len() ==> #[trigger] views(shifts@)[k].start >= a,
{
    let ghost s = views(shifts@);
    let n = shifts.len();
    assert(s.len() == n);
    match find_shift_index(a, shifts.as_slice()) {
        Some(i) => {
            assert(s[i as int] == shifts@[i as int]@);
            if shifts[i].start_at < a {
                assert forall|k: int| 0 <= k <= i implies #[trigger] s[k].start < a by {
                    if k < i {
                        assert(s[k].end <= s[i as int].start);
                        assert(s[k].is_valid());
                    }
                }
                assert forall|k: int| i < k < s.len() implies #[trigger] s[k].start >= a by {
                    assert(s[i as int].end <= s[k].start);
                }
                i + 1
            } else {
                assert forall|k: int| 0 <= k < i implies #[trigger] s[k].start < a by {
                    assert(s[k].end <= s[i as int].start);
                    assert(s[k].is_valid());
                }
                assert forall|k: int| i <= k < s.len() implies #[trigger] s[k].start >= a by {
                    if k > i {
                        assert(s[i as int].end <= s[k].start);
                        assert(s[i as int].is_valid());
                    }
                }
                i
            }
        },
        None => count_starting_before(shifts, a),
    }
}

/// Number of intervals that end no later than `b`: found by looking up the
/// interval that holds `b`, or by a scan where none does.
fn post_edge(shifts: &Vec<Shift>, b: i64) -> (hi: usize)
    requires
        well_formed(views(shifts@)),
    ensures
        hi <= shifts@.len(),
        forall|k: int| 0 <= k < hi ==> #[trigger] views(shifts@)[k].end <= b,
        forall|k: int| hi <= k < shifts@.len() ==> #[trigger] views(shifts@)[k].end > b,
{
    let ghost s = views(shifts@);
    let n = shifts.len();
    assert(s.len() == n);
    match find_shift_index(b, shifts.as_slice()) {
        Some(j) => {
            assert(s[j as int] == shifts@[j as int]@);
            if shifts[j].end_at > b {
                assert forall|k: int| 0 <= k < j implies #[trigger] s[k].end <= b by {
                    assert(s[k].end <= s[j as int].start);
                }
                assert forall|k: int| j <= k < s.len() implies #[trigger] s[k].end > b by {
                    if k > j {
                        assert(s[j as int].end <= s[k].start);
                        assert(s[k].is_valid());
                    }
                }
                j
            } else {
                assert forall|k: int| 0 <= k <= j implies #[trigger] s[k].end <= b by {
                    if k < j {
                        assert(s[k].end <= s[j as int].start);
                    }
                }
                assert forall|k: int| j < k < s.len() implies #[trigger] s[k].end > b by {
                    assert(s[j as int].end <= s[k].start);
                    assert(s[k].is_valid());
                }
                j + 1
            }
        },
        None => count_ending_by(shifts, b),
    }
}

/// Lays one override over a well-formed sequence: the intervals that hold its
/// edges are found by lookup; an interval that holds it whole is duplicated so
/// that a remainder is left on each side; the interval before it is cut back
/// to end at its start, the one after it to start at its end, those it covers
/// entirely are removed, and it is inserted between. Where an edge falls
/// outside every interval, nothing is cut on that side. An override that does
/// not start before it ends is refused and `shifts` is left as it was.
pub fn apply_override(override_shift: Shift, shifts: &mut Vec<Shift>) -> (r: Result<(), ScheduleError>)
    requires
        well_formed(views(old(shifts)@)),
    ensures
        r is Ok <==> override_shift@.is_valid(),
        r is Ok ==> views(final(shifts)@) == overridden(views(old(shifts)@), override_shift@),
        r is Err ==> r == Err::<(), ScheduleError>(ScheduleError::InvalidInterval),
        r is Err ==> final(shifts)@ == old(shifts)@,
        well_formed(views(final(shifts)@)),
{
    if override_shift.start_at >= override_shift.end_at {
        return Err(ScheduleError::InvalidInterval);
    }
    let ghost s = views(shifts@);
    let ghost o = override_shift@;
    let a = override_shift.start_at;
    let b = override_shift.end_at;
    let lo = prev_edge(shifts, a);
    let hi = post_edge(shifts, b);
    proof {
        lemma_splice(s, o, lo as int, hi as int);
    }
    let mut tail = shifts.split_off(hi);
    if lo > hi {
        /* The override lies inside one interval: keep a copy of it on each side. */
        let dup = tail[0].copied();
        shifts.push(dup);
    } else {
        /* Remove the intervals that the override covers entirely. */
        shifts.truncate(lo);
    }
    assert(views(shifts@) =~= s.subrange(0, lo as int));
    assert(views(tail@) =~= s.subrange(hi as int, s.len() as int));
    if lo > 0 && shifts[lo - 1].end_at > a {
        shifts[lo - 1].end_at = a;
    }
    if tail.len() > 0 && tail[0].start_at < b {
        tail[0].start_at = b;
    }
    assert(views(shifts@) =~= cut_head(s.subrange(0, lo as int), a as int));
    assert(views(tail@) =~= cut_tail(s.subrange(hi as int, s.len() as int), b as int));
    proof {
        lemma_views_push(shifts@, override_shift);
    }
    shifts.push(override_shift);
    let ghost mid = shifts@;
    let ghost last = tail@;
    shifts.append(&mut tail);
    assert(views(shifts@) =~= views(mid) + views(last));
    proof {
        lemma_override_keeps_order(s, o);
    }
    Ok(())
}

/// Lays the overrides over `shifts` one after another, lowest priority first,
/// so that a later override wins over an earlier one. If any override does not
/// start before it ends, nothing is changed and the error is returned.
pub fn apply_overrides(shifts: &mut Vec<Shift>, overrides: Vec<Shift>) -> (r: Result<(), ScheduleError>)
    requires
        well_formed(views(old(shifts)@)),
    ensures
        r is Ok <==> all_valid(views(overrides@)),
        r is Ok ==> views(final(shifts)@) == all_overridden(views(old(shifts)@), views(overrides@)),
        r is Err ==> r == Err::<(), ScheduleError>(ScheduleError::InvalidInterval),
        r is Err ==> final(shifts)@ == old(shifts)@,
        well_formed(views(final(shifts)@)),
{
    let ghost os = views(overrides@);
    let ghost start = views(shifts@);
    let n = overrides.len();
    let mut i: usize = 0;
    while i < n
        invariant
            n == overrides@.len(),
            os == views(overrides@),
            i <= n,
            forall|j: int| 0 <= j < i ==> #[trigger] os[j].is_valid(),
            well_formed(views(shifts@)),
        decreases n - i,
    {
        assert(os[i as int] == overrides@[i as int]@);
        if overrides[i].start_at >= overrides[i].end_at {
            assert(!os[i as int].is_valid());
            return Err(ScheduleError::InvalidInterval);
        }
        i += 1;
    }
    let mut k: usize = 0;
    while k < n
        invariant
            n == overrides@.len(),
            os == views(overrides@),
            all_valid(os),
            k <= n,
            views(shifts@) == all_overridden(start, os.subrange(0, k as int)),
            well_formed(views(shifts@)),
        decreases n - k,
    {
        let o = overrides[k].copied();
        assert(os.subrange(0, k + 1).drop_last() =~= os.subrange(0, k as int));
        assert(o@ == os[k as int]);
        let res = apply_override(o, shifts);
        assert(res is Ok);
        k += 1;
    }
    assert(os.subrange(0, n as int) =~= os);
    Ok(())
}

} // verus!
