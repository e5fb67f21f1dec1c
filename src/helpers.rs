use vstd::prelude::*;

use crate::overrides::{clip_end, clip_start, ends_by, lemma_wf_drop_last, lemma_wf_push};
use crate::scheduler::{all_valid, lemma_views_push, views, well_formed, Schedule, Shift, ShiftSpec};

verus! {

/// Index of the first interval of `s` whose closed range holds `t`, if any.
pub open spec fn first_covering(s: Seq<ShiftSpec>, t: int, r: Option<usize>) -> bool {
    match r {
        Some(i) => {
            &&& i < s.len()
            &&& s[i as int].covers(t)
            &&& forall|j: int| 0 <= j < i ==> !(#[trigger] s[j]).covers(t)
        },
        None => forall|j: int| 0 <= j < s.len() ==> !(#[trigger] s[j]).covers(t),
    }
}

/// The intervals of `s` that meet the window `[from, until)`, in order.
pub open spec fn in_window(s: Seq<ShiftSpec>, from: int, until: int) -> Seq<ShiftSpec>
    decreases s.len(),
{
    if s.len() == 0 {
        Seq::empty()
    } else {
        let rest = in_window(s.drop_last(), from, until);
        if s.last().meets(from, until) {
            rest.push(s.last())
        } else {
            rest
        }
    }
}

/// The valid intervals of `s`, in order.
pub open spec fn valid_only(s: Seq<ShiftSpec>) -> Seq<ShiftSpec>
    decreases s.len(),
{
    if s.len() == 0 {
        Seq::empty()
    } else {
        let rest = valid_only(s.drop_last());
        if s.last().is_valid() {
            rest.push(s.last())
        } else {
            rest
        }
    }
}

/// `s` with its first interval raised to start no earlier than `from`, where
/// `from` lies after the rotation's start, and its last interval lowered to
/// end no later than `until`.
pub open spec fn clip_ends(s: Seq<ShiftSpec>, rotation_start: int, from: int, until: int) -> Seq<ShiftSpec> {
    let head = if s.len() > 0 && from > rotation_start {
        s.update(0, clip_start(s[0], from))
    } else {
        s
    };
    if head.len() > 0 {
        head.update(head.len() - 1, clip_end(head.last(), until))
    } else {
        head
    }
}

/// `s` cut down to the window `[from, until)`: nothing where the window is
/// empty; otherwise the intervals that meet it, the first and last clipped to
/// it, and those that clipping leaves empty dropped.
pub open spec fn truncated(s: Seq<ShiftSpec>, rotation_start: int, from: int, until: int) -> Seq<ShiftSpec> {
    if from >= until {
        Seq::empty()
    } else {
        valid_only(clip_ends(in_window(s, from, until), rotation_start, from, until))
    }
}

/// Every interval of `s` meets the window `[from, until)`.
pub open spec fn all_meet(s: Seq<ShiftSpec>, from: int, until: int) -> bool {
    forall|k: int| 0 <= k < s.len() ==> #[trigger] s[k].meets(from, until)
}

proof fn lemma_in_window_elems(s: Seq<ShiftSpec>, from: int, until: int)
    requires
        all_valid(s),
    ensures
        all_valid(in_window(s, from, until)),
        all_meet(in_window(s, from, until), from, until),
    decreases s.len(),
{
    if s.len() > 0 {
        let p = s.drop_last();
        assert(all_valid(p)) by {
            assert forall|k: int| 0 <= k < p.len() implies #[trigger] p[k].is_valid() by {
                assert(s[k].is_valid());
            }
        }
        assert(s[s.len() - 1].is_valid());
        lemma_in_window_elems(p, from, until);
    }
}

proof fn lemma_in_window_unchanged(s: Seq<ShiftSpec>, from: int, until: int)
    requires
        all_meet(s, from, until),
    ensures
        in_window(s, from, until) == s,
    decreases s.len(),
{
    if s.len() > 0 {
        let p = s.drop_last();
        assert(all_meet(p, from, until)) by {
            assert forall|k: int| 0 <= k < p.len() implies #[trigger] p[k].meets(from, until) by {
                assert(s[k].meets(from, until));
            }
        }
        lemma_in_window_unchanged(p, from, until);
        assert(s[s.len() - 1].meets(from, until));
        assert(p.push(s.last()) =~= s);
    }
}

proof fn lemma_valid_only_unchanged(s: Seq<ShiftSpec>)
    requires
        all_valid(s),
    ensures
        valid_only(s) == s,
    decreases s.len(),
{
    if s.len() > 0 {
        let p = s.drop_last();
        assert(all_valid(p)) by {
            assert forall|k: int| 0 <= k < p.len() implies #[trigger] p[k].is_valid() by {
                assert(s[k].is_valid());
            }
        }
        lemma_valid_only_unchanged(p);
        assert(s[s.len() - 1].is_valid());
        assert(p.push(s.last()) =~= s);
    }
}

proof fn lemma_clip_ends_settled(w: Seq<ShiftSpec>, rotation_start: int, from: int, until: int)
    requires
        from < until,
        all_valid(w),
        all_meet(w, from, until),
    ensures
        all_valid(clip_ends(w, rotation_start, from, until)),
        all_meet(clip_ends(w, rotation_start, from, until), from, until),
        clip_ends(clip_ends(w, rotation_start, from, until), rotation_start, from, until)
            == clip_ends(w, rotation_start, from, until),
{
    let c = clip_ends(w, rotation_start, from, until);
    if w.len() > 0 {
        assert forall|k: int| #![trigger c[k]] 0 <= k < c.len() implies c[k].is_valid() && c[k].meets(from, until) by {
            assert(w[k].is_valid() && w[k].meets(from, until));
        }
        let d = clip_ends(c, rotation_start, from, until);
        assert forall|k: int| 0 <= k < c.len() implies #[trigger] d[k] == c[k] by {
            assert(w[k].is_valid() && w[k].meets(from, until));
        }
        assert(d =~= c);
    }
}

/// Cutting a sequence of valid intervals down to a window a second time, to
/// the same window, changes nothing.
pub proof fn lemma_truncate_twice(s: Seq<ShiftSpec>, rotation_start: int, from: int, until: int)
    requires
        all_valid(s),
    ensures
        truncated(truncated(s, rotation_start, from, until), rotation_start, from, until)
            == truncated(s, rotation_start, from, until),
{
    if from < until {
        let w = in_window(s, from, until);
        lemma_in_window_elems(s, from, until);
        lemma_clip_ends_settled(w, rotation_start, from, until);
        let c = clip_ends(w, rotation_start, from, until);
        lemma_valid_only_unchanged(c);
        lemma_in_window_unchanged(c, from, until);
    }
}

proof fn lemma_filters_end_by(s: Seq<ShiftSpec>, from: int, until: int, b: int)
    requires
        ends_by(s, b),
    ensures
        ends_by(in_window(s, from, until), b),
        ends_by(valid_only(s), b),
    decreases s.len(),
{
    if s.len() > 0 {
        let p = s.drop_last();
        assert(ends_by(p, b)) by {
            assert forall|k: int| 0 <= k < p.len() implies #[trigger] p[k].end <= b by {
                assert(s[k].end <= b);
            }
        }
        lemma_filters_end_by(p, from, until, b);
        assert(s[s.len() - 1].end <= b);
    }
}

proof fn lemma_filters_well_formed(s: Seq<ShiftSpec>, from: int, until: int)
    requires
        well_formed(s),
    ensures
        well_formed(in_window(s, from, until)),
        well_formed(valid_only(s)),
    decreases s.len(),
{
    if s.len() > 0 {
        let p = s.drop_last();
        lemma_wf_drop_last(s);
        lemma_filters_well_formed(p, from, until);
        lemma_filters_end_by(p, from, until, s.last().start);
        if s.last().meets(from, until) {
            lemma_wf_push(in_window(p, from, until), s.last());
        }
        if s.last().is_valid() {
            lemma_wf_push(valid_only(p), s.last());
        }
    }
}

/// Cutting a well-formed sequence down to a window leaves it well formed.
pub proof fn lemma_truncated_well_formed(s: Seq<ShiftSpec>, rotation_start: int, from: int, until: int)
    requires
        well_formed(s),
    ensures
        well_formed(truncated(s, rotation_start, from, until)),
{
    if from < until {
        let w = in_window(s, from, until);
        lemma_filters_well_formed(s, from, until);
        lemma_in_window_elems(s, from, until);
        lemma_clip_ends_settled(w, rotation_start, from, until);
        let c = clip_ends(w, rotation_start, from, until);
        assert forall|i: int, j: int| #![trigger c[i], c[j]] 0 <= i < j < c.len() implies c[i].end <= c[j].start by {
            assert(w[i].end <= w[j].start);
        }
        lemma_filters_well_formed(c, from, until);
    } else {
        assert(well_formed(Seq::<ShiftSpec>::empty()));
    }
}

proof fn lemma_prefix(s: Seq<ShiftSpec>, i: int)
    requires
        0 <= i < s.len(),
    ensures
        s.subrange(0, i + 1).drop_last() == s.subrange(0, i),
        s.subrange(0, i + 1).last() == s[i],
{
    assert(s.subrange(0, i + 1).drop_last() =~= s.subrange(0, i));
}

proof fn lemma_strictly_inside(s: Seq<ShiftSpec>, t: int, r: Option<usize>)
    requires
        well_formed(s),
        first_covering(s, t, r),
    ensures
        forall|i: int| 0 <= i < s.len() && #[trigger] s[i].start < t < s[i].end ==> r == Some(i as usize),
{
    assert forall|i: int| 0 <= i < s.len() && #[trigger] s[i].start < t < s[i].end implies r == Some(i as usize) by {
        assert(s[i].covers(t));
        if let Some(k) = r {
            if (k as int) < i {
                assert(s[k as int].end <= s[i].start);
            } else if (k as int) > i {
                assert(s[i].end <= s[k as int].start);
            }
        }
    }
}

/// Finds, by binary search, the interval of a well-formed sequence whose
/// closed range `[start_at, end_at]` holds `time`. Where one interval ends
/// at `time` and the next starts there, the earlier one is returned.
pub fn find_shift_index(time: i64, shifts: &[Shift]) -> (r: Option<usize>)
    requires
        well_formed(views(shifts@)),
    ensures
        first_covering(views(shifts@), time as int, r),
        forall|i: int|
            0 <= i < shifts@.len() && #[trigger] views(shifts@)[i].start < time < views(shifts@)[i].end
                ==> r == Some(i as usize),
{
    let ghost s = views(shifts@);
    let mut lo: usize = 0;
    let mut hi: usize = shifts.len();
    while lo < hi
        invariant
            s == views(shifts@),
            well_formed(s),
            lo <= hi <= shifts@.len(),
            forall|j: int| 0 <= j < lo ==> !(#[trigger] s[j]).covers(time as int),
            forall|j: int| hi <= j < s.len() ==> !(#[trigger] s[j]).covers(time as int),
        decreases hi - lo,
    {
        let mid = lo + (hi - lo) / 2;
        let m = &shifts[mid];
        assert(s[mid as int] == m@);
        if m.start_at <= time && time <= m.end_at {
            if mid > 0 && shifts[mid - 1].end_at >= time {
                assert(s[mid - 1] == shifts@[mid - 1]@);
                assert(s[mid - 1].end <= s[mid as int].start);
                assert(s[mid - 1].is_valid());
                assert forall|j: int| 0 <= j < mid - 1 implies !(#[trigger] s[j]).covers(time as int) by {
                    assert(s[j].end <= s[mid - 1].start);
                    assert(s[mid - 1].is_valid());
                }
                let r = Some(mid - 1);
                assert(first_covering(s, time as int, r));
                proof {
                    lemma_strictly_inside(s, time as int, r);
                }
                return r;
            }
            assert forall|j: int| 0 <= j < mid implies !(#[trigger] s[j]).covers(time as int) by {
                assert(s[mid - 1] == shifts@[mid - 1]@);
                if j < mid - 1 {
                    assert(s[j].end <= s[mid - 1].start);
                    assert(s[mid - 1].is_valid());
                }
            }
            proof {
                lemma_strictly_inside(s, time as int, Some(mid));
            }
            return Some(mid);
        } else if time < m.start_at {
            assert forall|j: int| mid <= j < s.len() implies !(#[trigger] s[j]).covers(time as int) by {
                if j > mid {
                    assert(s[mid as int].end <= s[j].start);
                    assert(s[mid as int].is_valid());
                }
            }
            hi = mid;
        } else {
            assert forall|j: int| 0 <= j <= mid implies !(#[trigger] s[j]).covers(time as int) by {
                if j < mid {
                    assert(s[j].end <= s[mid as int].start);
                    assert(s[mid as int].is_valid());
                }
            }
            lo = mid + 1;
        }
    }
    proof {
        lemma_strictly_inside(s, time as int, None);
    }
    None
}

/// Finds the interval of a well-formed sequence whose closed range holds
/// `time`; the earlier of two where one ends and the next starts at `time`.
pub fn find_shift(time: i64, shifts: &[Shift]) -> (r: Option<&Shift>)
    requires
        well_formed(views(shifts@)),
    ensures
        match r {
            Some(x) => exists|i: int|
                0 <= i < shifts@.len() && *x == shifts@[i] && first_covering(views(shifts@), time as int, Some(i as usize)),
            None => first_covering(views(shifts@), time as int, None),
        },
{
    match find_shift_index(time, shifts) {
        Some(i) => {
            let x = &shifts[i];
            assert(*x == shifts@[i as int]);
            Some(x)
        },
        None => None,
    }
}

/// Cuts `shifts` down to the window `[from, until)`. Intervals that do not
/// meet the window are dropped; the first one left is raised to start at
/// `from` (only where `from` lies after the rotation's start) and the last one
/// lowered to end at `until`; intervals left empty are dropped.
pub fn truncate_shifts(shifts: Vec<Shift>, schedule: &Schedule, from: i64, until: i64) -> (r: Vec<Shift>)
    ensures
        views(r@) == truncated(views(shifts@), schedule.handover_start_at as int, from as int, until as int),
        well_formed(views(shifts@)) ==> well_formed(views(r@)),
{
    proof {
        if well_formed(views(shifts@)) {
            lemma_truncated_well_formed(views(shifts@), schedule.handover_start_at as int, from as int, until as int);
        }
    }
    let mut out: Vec<Shift> = Vec::new();
    if from >= until {
        assert(views(out@) =~= Seq::<ShiftSpec>::empty());
        return out;
    }
    let ghost s = views(shifts@);
    let mut mid: Vec<Shift> = Vec::new();
    let mut i: usize = 0;
    while i < shifts.len()
        invariant
            s == views(shifts@),
            i <= shifts@.len(),
            views(mid@) == in_window(s.subrange(0, i as int), from as int, until as int),
        decreases shifts@.len() - i,
    {
        let x = &shifts[i];
        proof {
            lemma_prefix(s, i as int);
        }
        if x.end_at > from && x.start_at < until {
            let y = x.copied();
            proof {
                lemma_views_push(mid@, y);
            }
            mid.push(y);
        }
        i += 1;
    }
    assert(s.subrange(0, shifts@.len() as int) =~= s);
    let ghost w = views(mid@);
    let ghost c = clip_ends(w, schedule.handover_start_at as int, from as int, until as int);
    let rotation_start = schedule.handover_start_at();
    let n = mid.len();
    let mut k: usize = 0;
    while k < n
        invariant
            n == mid@.len(),
            w == views(mid@),
            c == clip_ends(w, rotation_start as int, from as int, until as int),
            k <= n,
            views(out@) == valid_only(c.subrange(0, k as int)),
        decreases n - k,
    {
        let x = &mid[k];
        let mut start_at = x.start_at;
        let mut end_at = x.end_at;
        if k == 0 && from > rotation_start && start_at < from {
            start_at = from;
        }
        if k == n - 1 && end_at > until {
            end_at = until;
        }
        let y = Shift { user: x.user.clone(), start_at, end_at };
        assert(y@ == c[k as int]);
        proof {
            lemma_prefix(c, k as int);
            lemma_views_push(out@, y);
        }
        if start_at < end_at {
            out.push(y);
        }
        k += 1;
    }
    assert(c.subrange(0, n as int) =~= c);
    out
}

} // verus!
