use vstd::arithmetic::div_mod::{lemma_fundamental_div_mod, lemma_fundamental_div_mod_converse};
use vstd::arithmetic::mul::lemma_mul_inequality;
use vstd::prelude::*;

use crate::helpers::{truncate_shifts, truncated};
use crate::overrides::{all_overridden, apply_overrides, lemma_overrides_keep_order};

verus! {

/// Seconds in one day.
pub const SECONDS_PER_DAY: i64 = 86400;

/// A half-open time interval `[start_at, end_at)` assigned to one user.
/// Timestamps are seconds since the Unix epoch.
#[derive(Debug, Clone)]
pub struct Shift {
    pub user: String,
    pub start_at: i64,
    pub end_at: i64,
}

/// The mathematical value of a shift.
pub struct ShiftSpec {
    pub user: Seq<char>,
    pub start: int,
    pub end: int,
}

/// Why a schedule could not be computed.
#[derive(Debug, Clone, Copy, PartialEq, Eq, Structural)]
pub enum ScheduleError {
    /// The rotation lists no users.
    EmptyUserList,
    /// The rotation's handover interval is zero or negative.
    NonPositiveInterval,
    /// An interval does not start strictly before it ends.
    InvalidInterval,
}

impl ShiftSpec {
    /// An interval is valid when it starts strictly before it ends.
    pub open spec fn is_valid(self) -> bool {
        self.start < self.end
    }

    /// Whether `t` lies in the half-open range `[start, end)`.
    pub open spec fn holds(self, t: int) -> bool {
        self.start <= t < self.end
    }

    /// Whether the interval meets the window `[from, until)`.
    pub open spec fn meets(self, from: int, until: int) -> bool {
        self.end > from && self.start < until
    }

    /// Whether `t` lies in the closed range `[start, end]`.
    pub open spec fn covers(self, t: int) -> bool {
        self.start <= t <= self.end
    }
}

/// The values of a sequence of shifts.
pub open spec fn views(s: Seq<Shift>) -> Seq<ShiftSpec> {
    s.map_values(|x: Shift| x@)
}

/// Every interval of `s` is valid.
pub open spec fn all_valid(s: Seq<ShiftSpec>) -> bool {
    forall|i: int| 0 <= i < s.len() ==> #[trigger] s[i].is_valid()
}

/// The sequence invariant: every interval is valid, and each one ends no later
/// than any later one starts (so the sequence is sorted and free of overlaps).
pub open spec fn well_formed(s: Seq<ShiftSpec>) -> bool {
    &&& all_valid(s)
    &&& forall|i: int, j: int| #![trigger s[i], s[j]] 0 <= i < j < s.len() ==> s[i].end <= s[j].start
}

impl View for Shift {
    type V = ShiftSpec;

    open spec fn view(&self) -> ShiftSpec {
        ShiftSpec { user: self.user@, start: self.start_at as int, end: self.end_at as int }
    }
}

/// A rotation: the users, in handover order, the moment of the first
/// handover, and the length of each shift in days.
#[derive(Debug)]
pub struct Schedule {
    pub users: Vec<String>,
    pub handover_start_at: i64,
    pub handover_interval_days: i64,
}

impl Schedule {
    pub fn new(users: Vec<String>, handover_start_at: i64, handover_interval_days: i64) -> (r: Schedule)
        ensures
            r.users@ == users@,
            r.handover_start_at == handover_start_at,
            r.handover_interval_days == handover_interval_days,
    {
        Schedule { users, handover_start_at, handover_interval_days }
    }

    pub fn handover_start_at(&self) -> (r: i64)
        ensures
            r == self.handover_start_at,
    {
        self.handover_start_at
    }
}

impl Shift {
    pub fn user(&self) -> (r: &String)
        ensures
            r@ == self.user@,
    {
        &self.user
    }

    pub fn start_at(&self) -> (r: i64)
        ensures
            r == self.start_at,
    {
        self.start_at
    }

    pub fn end_at(&self) -> (r: i64)
        ensures
            r == self.end_at,
    {
        self.end_at
    }

    /// Moves the start to `start_at`, unless the shift would then not start
    /// before it ends: then the shift is left as it was and the error returned.
    pub fn set_start_at(&mut self, start_at: i64) -> (r: Result<(), ScheduleError>)
        ensures
            r is Ok <==> start_at < old(self).end_at,
            r is Ok ==> final(self)@ == (ShiftSpec { start: start_at as int, ..old(self)@ }),
            r is Err ==> r == Err::<(), ScheduleError>(ScheduleError::InvalidInterval) && final(self)@ == old(self)@,
    {
        if start_at >= self.end_at {
            return Err(ScheduleError::InvalidInterval);
        }
        self.start_at = start_at;
        Ok(())
    }

    /// Moves the end to `end_at`, unless the shift would then not start
    /// before it ends: then the shift is left as it was and the error returned.
    pub fn set_end_at(&mut self, end_at: i64) -> (r: Result<(), ScheduleError>)
        ensures
            r is Ok <==> old(self).start_at < end_at,
            r is Ok ==> final(self)@ == (ShiftSpec { end: end_at as int, ..old(self)@ }),
            r is Err ==> r == Err::<(), ScheduleError>(ScheduleError::InvalidInterval) && final(self)@ == old(self)@,
    {
        if self.start_at >= end_at {
            return Err(ScheduleError::InvalidInterval);
        }
        self.end_at = end_at;
        Ok(())
    }

    /// Whether the shift starts strictly before it ends.
    pub fn is_valid(&self) -> (r: bool)
        ensures
            r == self@.is_valid(),
    {
        self.start_at < self.end_at
    }

    /// A shift with the same user and times.
    pub(crate) fn copied(&self) -> (r: Shift)
        ensures
            r@ == self@,
    {
        Shift { user: self.user.clone(), start_at: self.start_at, end_at: self.end_at }
    }

    pub fn new(user: String, start_at: i64, end_at: i64) -> (r: Shift)
        ensures
            r@ == (ShiftSpec { user: user@, start: start_at as int, end: end_at as int }),
    {
        Shift { user, start_at, end_at }
    }
}

pub(crate) proof fn lemma_views_push(s: Seq<Shift>, x: Shift)
    ensures
        views(s.push(x)) == views(s).push(x@),
{
    assert(views(s.push(x)) =~= views(s).push(x@));
}

/// The users' names, in order.
pub open spec fn user_names(users: Seq<String>) -> Seq<Seq<char>> {
    users.map_values(|u: String| u@)
}

/// Number of whole shifts of `days` days that fit between `start` and
/// `until`, counting whole days only.
pub open spec fn shift_count(start: int, days: int, until: int) -> int {
    if until <= start {
        0
    } else {
        ((until - start) / SECONDS_PER_DAY as int) / days
    }
}

/// The `k`-th shift of a rotation: the users take turns, one shift each.
pub open spec fn rotation_shift(users: Seq<Seq<char>>, start: int, days: int, k: int) -> ShiftSpec {
    ShiftSpec {
        user: users[k % users.len() as int],
        start: start + k * (days * SECONDS_PER_DAY),
        end: start + (k + 1) * (days * SECONDS_PER_DAY),
    }
}

/// The base rotation from `start` up to `until`, before any override.
pub open spec fn generated(users: Seq<Seq<char>>, start: int, days: int, until: int) -> Seq<ShiftSpec> {
    Seq::new(shift_count(start, days, until) as nat, |k: int| rotation_shift(users, start, days, k))
}

/// The base rotation is well formed: its shifts follow one another without
/// gap or overlap, each one valid.
pub proof fn lemma_rotation_well_formed(users: Seq<Seq<char>>, start: int, days: int, until: int)
    requires
        users.len() > 0,
        days > 0,
    ensures
        well_formed(generated(users, start, days, until)),
{
    let g = generated(users, start, days, until);
    let l = days * SECONDS_PER_DAY;
    assert(l > 0) by (nonlinear_arith)
        requires days > 0, l == days * 86400;
    assert forall|i: int| 0 <= i < g.len() implies #[trigger] g[i].is_valid() by {
        assert((i + 1) * l == i * l + l) by (nonlinear_arith);
    }
    assert forall|i: int, j: int| #![trigger g[i], g[j]] 0 <= i < j < g.len() implies g[i].end <= g[j].start by {
        lemma_mul_inequality(i + 1, j, l);
    }
}

/// A rotation can be generated when it has users and a positive interval.
pub open spec fn valid_rotation(schedule: &Schedule) -> bool {
    schedule.users@.len() > 0 && schedule.handover_interval_days > 0
}

/// The error that a rotation which cannot be generated gives.
pub open spec fn rotation_error(schedule: &Schedule) -> ScheduleError {
    if schedule.users@.len() == 0 {
        ScheduleError::EmptyUserList
    } else {
        ScheduleError::NonPositiveInterval
    }
}

/// The base rotation of `schedule` up to `until`.
pub open spec fn base_rotation(schedule: &Schedule, until: int) -> Seq<ShiftSpec> {
    generated(user_names(schedule.users@), schedule.handover_start_at as int, schedule.handover_interval_days as int, until)
}

/// Generates the base rotation: shift `k` starts `k` intervals after the first
/// handover, lasts one interval and goes to user `k` modulo the number of
/// users; as many whole shifts as fit before `until` in whole days.
pub fn generate_shifts(schedule: &Schedule, until: i64) -> (r: Result<Vec<Shift>, ScheduleError>)
    ensures
        match r {
            Ok(v) => {
                &&& valid_rotation(schedule)
                &&& views(v@) == base_rotation(schedule, until as int)
                &&& well_formed(views(v@))
            },
            Err(e) => !valid_rotation(schedule) && e == rotation_error(schedule),
        },
{
    let n_users = schedule.users.len();
    if n_users == 0 {
        return Err(ScheduleError::EmptyUserList);
    }
    if schedule.handover_interval_days <= 0 {
        return Err(ScheduleError::NonPositiveInterval);
    }
    let days = schedule.handover_interval_days;
    let start = schedule.handover_start_at;
    let ghost users = user_names(schedule.users@);
    let ghost target = base_rotation(schedule, until as int);
    let length: i128 = days as i128 * SECONDS_PER_DAY as i128;
    let span: i128 = until as i128 - start as i128;
    let count: i128 = if span <= 0 { 0 } else { (span / SECONDS_PER_DAY as i128) / days as i128 };
    proof {
        if span > 0 {
            let sp = span as int;
            let d = days as int;
            let c = count as int;
            let l = length as int;
            let whole = sp / 86400;
            lemma_fundamental_div_mod(sp, 86400);
            lemma_fundamental_div_mod(whole, d);
            assert(c * d <= whole) by (nonlinear_arith)
                requires c == whole / d, d > 0, whole >= 0, whole == d * (whole / d) + whole % d, whole % d >= 0;
            assert(c * l <= sp) by (nonlinear_arith)
                requires c * d <= whole, l == d * 86400, sp == 86400 * whole + sp % 86400, sp % 86400 >= 0, c >= 0;
        }
    }
    assert(count == shift_count(start as int, days as int, until as int));
    let mut out: Vec<Shift> = Vec::new();
    let mut k: i128 = 0;
    let mut cur: i128 = start as i128;
    let mut idx: usize = 0;
    let ghost mut q: int = 0;
    while k < count
        invariant
            n_users == schedule.users@.len(),
            n_users > 0,
            users == user_names(schedule.users@),
            target == base_rotation(schedule, until as int),
            target.len() == count,
            target == generated(users, start as int, days as int, until as int),
            days == schedule.handover_interval_days,
            start == schedule.handover_start_at,
            length == days * SECONDS_PER_DAY,
            days > 0,
            0 <= k <= count,
            count > 0 ==> count * length <= span,
            span == until - start,
            cur == start + k * length,
            idx < n_users,
            q >= 0,
            k == q * n_users + idx,
            views(out@) == target.subrange(0, k as int),
        decreases count - k,
    {
        proof {
            lemma_mul_inequality(k + 1, count as int, length as int);
            assert((k + 1) * length == k * length + length) by (nonlinear_arith);
            lemma_fundamental_div_mod_converse(k as int, n_users as int, q, idx as int);
        }
        let end: i128 = cur + length;
        let y = Shift { user: schedule.users[idx].clone(), start_at: cur as i64, end_at: end as i64 };
        assert(y@ == target[k as int]);
        proof {
            lemma_views_push(out@, y);
            assert(views(out@).push(y@) =~= target.subrange(0, k + 1));
        }
        out.push(y);
        cur = end;
        k = k + 1;
        if idx + 1 < n_users {
            idx = idx + 1;
        } else {
            idx = 0;
            proof {
                q = q + 1;
                assert(k == q * n_users) by (nonlinear_arith)
                    requires k == (q - 1) * n_users + n_users;
            }
        }
    }
    assert(target.subrange(0, count as int) =~= target);
    proof {
        lemma_rotation_well_formed(users, start as int, days as int, until as int);
    }
    Ok(out)
}

/// The whole schedule of a rotation, every shift in the window `[from, until)`.
pub open spec fn scheduled(schedule: &Schedule, overrides: Seq<ShiftSpec>, from: int, until: int) -> Seq<ShiftSpec> {
    truncated(
        all_overridden(base_rotation(schedule, until), overrides),
        schedule.handover_start_at as int,
        from,
        until,
    )
}

/// Laying valid overrides over a valid rotation keeps the sequence sorted,
/// free of overlaps and made of valid intervals.
pub proof fn lemma_schedule_keeps_order(schedule: &Schedule, overrides: Seq<ShiftSpec>, until: int)
    requires
        valid_rotation(schedule),
        all_valid(overrides),
    ensures
        well_formed(all_overridden(base_rotation(schedule, until), overrides)),
{
    lemma_rotation_well_formed(
        user_names(schedule.users@),
        schedule.handover_start_at as int,
        schedule.handover_interval_days as int,
        until,
    );
    lemma_overrides_keep_order(base_rotation(schedule, until), overrides);
}

/// Computes the schedule: the base rotation up to `until`, the overrides laid
/// over it in ascending priority, and the result cut down to `[from, until)`.
pub fn schedule_shifts(sched: Schedule, overrides: Vec<Shift>, from: i64, until: i64) -> (r: Result<Vec<Shift>, ScheduleError>)
    ensures
        match r {
            Ok(v) => {
                &&& valid_rotation(&sched)
                &&& all_valid(views(overrides@))
                &&& views(v@) == scheduled(&sched, views(overrides@), from as int, until as int)
                &&& well_formed(views(v@))
            },
            Err(e) => if !valid_rotation(&sched) {
                e == rotation_error(&sched)
            } else {
                !all_valid(views(overrides@)) && e == ScheduleError::InvalidInterval
            },
        },
{
    let mut shifts = match generate_shifts(&sched, until) {
        Ok(v) => v,
        Err(e) => return Err(e),
    };
    match apply_overrides(&mut shifts, overrides) {
        Ok(()) => {},
        Err(e) => return Err(e),
    }
    Ok(truncate_shifts(shifts, &sched, from, until))
}

} // verus!
