//! The rules that look at one class on one day: holes, a subject coming back after a
//! break, too many lessons of a subject, uneven days, lessons late in the day. Each
//! has a cost for one day of one row; the cost of a grid is the sum over its classes
//! and their five days.

use vstd::prelude::*;

use crate::cost::{cell, countable, MAX_COST};
use crate::logic::{grid_of, Shift, Slot, SlotData, Timetable, MAX_PERIODS_PER_DAY};
use crate::rules::{
    has_index, DayLimit, Deviation, Rounding, Rules, RulesView, SpreadPolicy, TimePreference,
    MAX_RULES,
};
use crate::sums::{one_if, sum};

verus! {

/// The rules of this kind.
#[derive(Clone, Copy, Debug, PartialEq, Eq, Structural)]
pub enum DayRule {
    Holes,
    SubjectHoles,
    DayLimits,
    Spread,
    Timing,
}

/// The first of the `n` periods from `lo`, at or after `from`, in which group `g` of
/// the class is taught; `n` where there is none.
pub open spec fn first_lesson(row: Seq<Slot>, lo: int, n: int, g: int, from: int) -> int
    decreases n - from,
{
    if from >= n {
        n
    } else if row[lo + from].entry(g).occupied() {
        from
    } else {
        first_lesson(row, lo, n, g, from + 1)
    }
}

/// The last of the `n` periods from `lo` in which group `g` of the class is taught; -1
/// where there is none.
pub open spec fn last_lesson(row: Seq<Slot>, lo: int, n: int, g: int) -> int
    decreases n,
{
    if n <= 0 {
        -1
    } else if row[lo + n - 1].entry(g).occupied() {
        n - 1
    } else {
        last_lesson(row, lo, n - 1, g)
    }
}

/// Whether period `q` of the day is a hole for group `g`: the group is free in it, but
/// taught both earlier and later that day.
pub open spec fn hole_of(row: Seq<Slot>, lo: int, per_day: int, g: int, q: int) -> bool {
    !row[lo + q].entry(g).occupied() && first_lesson(row, lo, per_day, g, 0) < q < last_lesson(
        row,
        lo,
        per_day,
        g,
    )
}

/// For each period of the day, 1 if it is a hole for either group.
pub open spec fn hole_at(row: Seq<Slot>, lo: int, per_day: int) -> spec_fn(int) -> int {
    |q: int| one_if(hole_of(row, lo, per_day, 0, q) || hole_of(row, lo, per_day, 1, q))
}

/// The holes of a day: the periods that are a hole for either group of the class. A
/// period counts once, also where both groups have a hole in it; free periods before
/// the first and after the last lesson of a group are no holes of that group. In a
/// single cell both groups are the whole class.
pub open spec fn day_holes(row: Seq<Slot>, lo: int, per_day: int) -> int {
    sum(per_day, hole_at(row, lo, per_day))
}

/// The subject of a lesson for the whole class, if the cell holds one.
pub open spec fn whole_class_subject(slot: Slot) -> Seq<usize> {
    match slot {
        Slot::Single(SlotData::PartiallyFilled { subject, .. }) => seq![subject],
        _ => Seq::empty(),
    }
}

/// Whether the cell holds a lesson in `subject` for the whole class.
pub open spec fn whole_class_has(slot: Slot, subject: usize) -> bool {
    slot matches Slot::Single(d) && d.teaches(subject)
}

/// The subjects of the whole-class lessons in the `n` periods from `lo`, in order.
pub open spec fn day_subjects(row: Seq<Slot>, lo: int, n: int) -> Seq<usize>
    decreases n,
{
    if n <= 0 {
        Seq::empty()
    } else {
        day_subjects(row, lo, n - 1) + whole_class_subject(row[lo + n - 1])
    }
}

/// How often a subject comes back in a sequence after another subject came between.
pub open spec fn comebacks(s: Seq<usize>) -> int
    decreases s.len(),
{
    if s.len() == 0 {
        0
    } else {
        comebacks(s.drop_last()) + one_if(
            s.drop_last().contains(s.last()) && s.drop_last().last() != s.last(),
        )
    }
}

/// For each period of the day, 1 if it holds a whole-class lesson in `subject`.
pub open spec fn has_at(row: Seq<Slot>, lo: int, subject: usize) -> spec_fn(int) -> int {
    |q: int| one_if(whole_class_has(row[lo + q], subject))
}

/// How many whole-class lessons in `subject` lie in the `n` periods from `lo`.
pub open spec fn lessons_in(row: Seq<Slot>, lo: int, n: int, subject: usize) -> int {
    sum(n, has_at(row, lo, subject))
}

/// For each entry of `limits`, 1 if the day has more whole-class lessons in its
/// subject than it allows.
pub open spec fn over_limit(
    limits: Seq<DayLimit>,
    row: Seq<Slot>,
    lo: int,
    per_day: int,
) -> spec_fn(int) -> int {
    |k: int| one_if(lessons_in(row, lo, per_day, limits[k].subject) > limits[k].max_per_day)
}

/// For each period of the week, 1 if anybody of the class is taught in it.
pub open spec fn lesson_at(row: Seq<Slot>) -> spec_fn(int) -> int {
    |p: int| one_if(row[p].occupied())
}

/// For each period of the day, 1 if group `g` is taught in it.
pub open spec fn group_lesson_at(row: Seq<Slot>, lo: int, g: int) -> spec_fn(int) -> int {
    |q: int|
        one_if(
            if g == 0 {
                row[lo + q].first_group().occupied()
            } else {
                row[lo + q].second_group().occupied()
            },
        )
}

/// The ideal number of lessons a day for a week of `total` lessons.
pub open spec fn ideal_per_day(policy: SpreadPolicy, total: int) -> int {
    match policy.rounding {
        Rounding::Floor => total / 5,
        Rounding::Ceil => (total + 4) / 5,
    }
}

/// Whether a day of `count` lessons is uneven.
pub open spec fn uneven(policy: SpreadPolicy, count: int, ideal: int) -> bool {
    match policy.deviation {
        Deviation::Above => count > ideal,
        Deviation::Either => count != ideal,
    }
}

/// 1 if the day is uneven for either group of the class, 0 if it is not, if the class
/// has no lessons at all, or if the rule is switched off.
pub open spec fn day_spread(
    policy: Option<SpreadPolicy>,
    row: Seq<Slot>,
    lo: int,
    per_day: int,
) -> int {
    match policy {
        None => 0,
        Some(policy) => {
            let total = sum(row.len() as int, lesson_at(row));
            let ideal = ideal_per_day(policy, total);
            one_if(
                total > 0 && (uneven(policy, sum(per_day, group_lesson_at(row, lo, 0)), ideal)
                    || uneven(policy, sum(per_day, group_lesson_at(row, lo, 1)), ideal)),
            )
        },
    }
}

/// Whether `subject` should be over before period `q` of the day.
pub open spec fn too_late(prefs: Seq<TimePreference>, subject: usize, q: int) -> bool {
    exists|k: int| 0 <= k < prefs.len() && (#[trigger] prefs[k]).subject == subject && q >= prefs[k].not_from
}

/// For each period of the day, 1 if it holds a whole-class lesson in a subject that
/// should be over by then.
pub open spec fn late_at(
    prefs: Seq<TimePreference>,
    row: Seq<Slot>,
    lo: int,
) -> spec_fn(int) -> int {
    |q: int|
        one_if(
            row[lo + q] matches Slot::Single(SlotData::PartiallyFilled { subject, .. }) && too_late(
                prefs,
                subject,
                q,
            ),
        )
}

/// What one day of one class costs under a rule; the day is the `per_day` periods from
/// `lo`.
pub open spec fn day_cost(
    rule: DayRule,
    rules: RulesView,
    row: Seq<Slot>,
    lo: int,
    per_day: int,
) -> int {
    match rule {
        DayRule::Holes => day_holes(row, lo, per_day),
        DayRule::SubjectHoles => comebacks(day_subjects(row, lo, per_day)),
        DayRule::DayLimits => sum(
            rules.day_limits.len() as int,
            over_limit(rules.day_limits, row, lo, per_day),
        ),
        DayRule::Spread => day_spread(rules.class_spread, row, lo, per_day),
        DayRule::Timing => sum(per_day, late_at(rules.time_preferences, row, lo)),
    }
}

/// For each day of the week, what it costs a class under a rule.
pub open spec fn days_cost(
    rule: DayRule,
    rules: RulesView,
    row: Seq<Slot>,
    per_day: int,
) -> spec_fn(int) -> int {
    |day: int| day_cost(rule, rules, row, day * per_day, per_day)
}

/// For each class, what its week costs under a rule.
pub open spec fn classes_cost(
    rule: DayRule,
    rules: RulesView,
    grid: Seq<Seq<Slot>>,
    per_day: int,
) -> spec_fn(int) -> int {
    |c: int| sum(5, days_cost(rule, rules, grid[c], per_day))
}

/// What a grid costs under a rule: the sum over the classes and their five days.
pub open spec fn week_cost(
    rule: DayRule,
    rules: RulesView,
    grid: Seq<Seq<Slot>>,
    per_day: int,
) -> int {
    sum(grid.len() as int, classes_cost(rule, rules, grid, per_day))
}

fn is_occupied(slot: Slot) -> (r: bool)
    ensures
        r == slot.occupied(),
{
    match slot {
        Slot::Single(SlotData::PartiallyFilled { .. }) => true,
        Slot::Single(SlotData::Empty) => false,
        Slot::Double { first, second, .. } => {
            let a = match first {
                SlotData::PartiallyFilled { .. } => true,
                SlotData::Empty => false,
            };
            let b = match second {
                SlotData::PartiallyFilled { .. } => true,
                SlotData::Empty => false,
            };
            a || b
        },
    }
}

fn has_lesson(slot: Slot, g: u8) -> (r: bool)
    ensures
        r == slot.entry(g as int).occupied(),
{
    let d = match slot {
        Slot::Single(d) => d,
        Slot::Double { first, second, .. } => if g == 0 {
            first
        } else {
            second
        },
    };
    match d {
        SlotData::PartiallyFilled { .. } => true,
        SlotData::Empty => false,
    }
}

/// The first and the last lesson of a group in a day, the last one counted from 1.
fn span_of_group(row: &Vec<Slot>, lo: usize, per_day: usize, g: u8) -> (span: (usize, usize))
    requires
        lo + per_day <= row.len(),
    ensures
        span.0 == first_lesson(row@, lo as int, per_day as int, g as int, 0),
        span.1 == last_lesson(row@, lo as int, per_day as int, g as int) + 1,
        span.0 <= per_day,
        span.1 <= per_day,
{
    let mut first: usize = 0;
    while first < per_day && !has_lesson(row[lo + first], g)
        invariant
            first <= per_day,
            lo + per_day <= row.len(),
            first_lesson(row@, lo as int, per_day as int, g as int, 0) == first_lesson(
                row@,
                lo as int,
                per_day as int,
                g as int,
                first as int,
            ),
        decreases per_day - first,
    {
        first += 1;
    }
    let mut end: usize = per_day;
    while end > 0 && !has_lesson(row[lo + end - 1], g)
        invariant
            end <= per_day,
            lo + per_day <= row.len(),
            last_lesson(row@, lo as int, per_day as int, g as int) == last_lesson(
                row@,
                lo as int,
                end as int,
                g as int,
            ),
        decreases end,
    {
        end -= 1;
    }
    (first, end)
}

fn holes_of_day(row: &Vec<Slot>, lo: usize, per_day: usize) -> (count: i32)
    requires
        lo + per_day <= row.len(),
        per_day <= MAX_PERIODS_PER_DAY,
    ensures
        count == day_holes(row@, lo as int, per_day as int),
        0 <= count <= per_day,
{
    let (first_0, end_0) = span_of_group(row, lo, per_day, 0);
    let (first_1, end_1) = span_of_group(row, lo, per_day, 1);
    let ghost f = hole_at(row@, lo as int, per_day as int);
    let mut count: i32 = 0;
    let mut q: usize = 0;
    while q < per_day
        invariant
            q <= per_day,
            per_day <= MAX_PERIODS_PER_DAY,
            lo + per_day <= row.len(),
            first_0 == first_lesson(row@, lo as int, per_day as int, 0, 0),
            end_0 == last_lesson(row@, lo as int, per_day as int, 0) + 1,
            first_1 == first_lesson(row@, lo as int, per_day as int, 1, 0),
            end_1 == last_lesson(row@, lo as int, per_day as int, 1) + 1,
            f == hole_at(row@, lo as int, per_day as int),
            count == sum(q as int, f),
            0 <= count <= q,
        decreases per_day - q,
    {
        let hole_0 = !has_lesson(row[lo + q], 0) && first_0 < q && q + 1 < end_0;
        let hole_1 = !has_lesson(row[lo + q], 1) && first_1 < q && q + 1 < end_1;
        if hole_0 || hole_1 {
            count = count + 1;
        }
        assert(sum(q + 1, f) == sum(q as int, f) + f(q as int));
        q += 1;
    }
    count
}

fn comebacks_of_day(row: &Vec<Slot>, lo: usize, per_day: usize) -> (count: i32)
    requires
        lo + per_day <= row.len(),
        per_day <= MAX_PERIODS_PER_DAY,
    ensures
        count == comebacks(day_subjects(row@, lo as int, per_day as int)),
        0 <= count <= per_day,
{
    let mut seen: Vec<usize> = Vec::new();
    let mut last: Option<usize> = None;
    let mut count: i32 = 0;
    let mut q: usize = 0;
    while q < per_day
        invariant
            q <= per_day,
            per_day <= MAX_PERIODS_PER_DAY,
            lo + per_day <= row.len(),
            seen@ == day_subjects(row@, lo as int, q as int),
            match last {
                Some(s) => seen.len() > 0 && seen@.last() == s,
                None => seen.len() == 0,
            },
            count == comebacks(seen@),
            0 <= count <= q,
        decreases per_day - q,
    {
        match row[lo + q] {
            Slot::Single(SlotData::PartiallyFilled { subject, .. }) => {
                let ghost before = seen@;
                let known = has_index(&seen, subject);
                let apart = match last {
                    Some(s) => s != subject,
                    None => false,
                };
                if known && apart {
                    count = count + 1;
                }
                seen.push(subject);
                last = Some(subject);
                proof {
                    assert(seen@.drop_last() =~= before);
                    assert(seen@ =~= before + whole_class_subject(row@[lo + q]));
                }
            },
            _ => {
                assert(seen@ + whole_class_subject(row@[lo + q]) =~= seen@);
            },
        }
        q += 1;
    }
    count
}

fn count_lessons(row: &Vec<Slot>, lo: usize, per_day: usize, subject: usize) -> (count: u32)
    requires
        lo + per_day <= row.len(),
        per_day <= MAX_PERIODS_PER_DAY,
    ensures
        count == lessons_in(row@, lo as int, per_day as int, subject),
{
    let ghost f = has_at(row@, lo as int, subject);
    let mut count: u32 = 0;
    let mut q: usize = 0;
    while q < per_day
        invariant
            q <= per_day,
            per_day <= MAX_PERIODS_PER_DAY,
            lo + per_day <= row.len(),
            f == has_at(row@, lo as int, subject),
            count == sum(q as int, f),
            0 <= count <= q,
        decreases per_day - q,
    {
        match row[lo + q] {
            Slot::Single(SlotData::PartiallyFilled { subject: s, .. }) => {
                if s == subject {
                    count = count + 1;
                }
            },
            _ => {},
        }
        assert(sum(q + 1, f) == sum(q as int, f) + f(q as int));
        q += 1;
    }
    count
}

fn limits_of_day(rules: &Rules, row: &Vec<Slot>, lo: usize, per_day: usize) -> (count: i32)
    requires
        lo + per_day <= row.len(),
        per_day <= MAX_PERIODS_PER_DAY,
        rules@.wf(),
    ensures
        count == sum(
            rules@.day_limits.len() as int,
            over_limit(rules@.day_limits, row@, lo as int, per_day as int),
        ),
        0 <= count <= MAX_RULES,
{
    let ghost f = over_limit(rules@.day_limits, row@, lo as int, per_day as int);
    let mut count: i32 = 0;
    let mut k: usize = 0;
    while k < rules.day_limits.len()
        invariant
            k <= rules.day_limits.len(),
            rules.day_limits.len() <= MAX_RULES,
            lo + per_day <= row.len(),
            per_day <= MAX_PERIODS_PER_DAY,
            f == over_limit(rules@.day_limits, row@, lo as int, per_day as int),
            count == sum(k as int, f),
            0 <= count <= k,
        decreases rules.day_limits.len() - k,
    {
        let limit = rules.day_limits[k];
        if count_lessons(row, lo, per_day, limit.subject) > limit.max_per_day {
            count = count + 1;
        }
        assert(sum(k + 1, f) == sum(k as int, f) + f(k as int));
        k += 1;
    }
    count
}

fn count_group(row: &Vec<Slot>, lo: usize, per_day: usize, g: u8) -> (count: u32)
    requires
        lo + per_day <= row.len(),
        per_day <= MAX_PERIODS_PER_DAY,
    ensures
        count == sum(per_day as int, group_lesson_at(row@, lo as int, g as int)),
{
    let ghost f = group_lesson_at(row@, lo as int, g as int);
    let mut count: u32 = 0;
    let mut q: usize = 0;
    while q < per_day
        invariant
            q <= per_day,
            per_day <= MAX_PERIODS_PER_DAY,
            lo + per_day <= row.len(),
            f == group_lesson_at(row@, lo as int, g as int),
            count == sum(q as int, f),
            0 <= count <= q,
        decreases per_day - q,
    {
        let d = match row[lo + q] {
            Slot::Single(d) => d,
            Slot::Double { first, second, .. } => if g == 0 {
                first
            } else {
                second
            },
        };
        match d {
            SlotData::PartiallyFilled { .. } => {
                count = count + 1;
            },
            SlotData::Empty => {},
        }
        assert(sum(q + 1, f) == sum(q as int, f) + f(q as int));
        q += 1;
    }
    count
}

fn is_uneven(policy: SpreadPolicy, count: u32, ideal: u32) -> (r: bool)
    ensures
        r == uneven(policy, count as int, ideal as int),
{
    match policy.deviation {
        Deviation::Above => count > ideal,
        Deviation::Either => count != ideal,
    }
}

fn spread_of_day(rules: &Rules, row: &Vec<Slot>, lo: usize, per_day: usize) -> (count: i32)
    requires
        lo + per_day <= row.len(),
        per_day <= MAX_PERIODS_PER_DAY,
        row.len() <= 5 * MAX_PERIODS_PER_DAY,
    ensures
        count == day_spread(rules@.class_spread, row@, lo as int, per_day as int),
        0 <= count <= 1,
{
    match rules.class_spread {
        None => 0,
        Some(policy) => {
            let ghost f = lesson_at(row@);
            let mut total: u32 = 0;
            let mut p: usize = 0;
            while p < row.len()
                invariant
                    p <= row.len(),
                    row.len() <= 5 * MAX_PERIODS_PER_DAY,
                    f == lesson_at(row@),
                    total == sum(p as int, f),
                    0 <= total <= p,
                decreases row.len() - p,
            {
                if is_occupied(row[p]) {
                    total = total + 1;
                }
                assert(sum(p + 1, f) == sum(p as int, f) + f(p as int));
                p += 1;
            }
            let ideal: u32 = match policy.rounding {
                Rounding::Floor => total / 5,
                Rounding::Ceil => (total + 4) / 5,
            };
            let first = count_group(row, lo, per_day, 0);
            let second = count_group(row, lo, per_day, 1);
            if total > 0 && (is_uneven(policy, first, ideal) || is_uneven(policy, second, ideal)) {
                1
            } else {
                0
            }
        },
    }
}

fn is_too_late(rules: &Rules, subject: usize, q: usize) -> (r: bool)
    requires
        q <= MAX_PERIODS_PER_DAY,
    ensures
        r == too_late(rules@.time_preferences, subject, q as int),
{
    let mut k: usize = 0;
    while k < rules.time_preferences.len()
        invariant
            k <= rules.time_preferences.len(),
            forall|j: int|
                0 <= j < k ==> !((#[trigger] rules@.time_preferences[j]).subject == subject && q
                    >= rules@.time_preferences[j].not_from),
        decreases rules.time_preferences.len() - k,
    {
        let pref = rules.time_preferences[k];
        if pref.subject == subject && q >= pref.not_from as usize {
            assert(rules@.time_preferences[k as int].subject == subject && q
                >= rules@.time_preferences[k as int].not_from);
            return true;
        }
        k += 1;
    }
    false
}

fn timing_of_day(rules: &Rules, row: &Vec<Slot>, lo: usize, per_day: usize) -> (count: i32)
    requires
        lo + per_day <= row.len(),
        per_day <= MAX_PERIODS_PER_DAY,
    ensures
        count == sum(per_day as int, late_at(rules@.time_preferences, row@, lo as int)),
        0 <= count <= per_day,
{
    let ghost f = late_at(rules@.time_preferences, row@, lo as int);
    let mut count: i32 = 0;
    let mut q: usize = 0;
    while q < per_day
        invariant
            q <= per_day,
            per_day <= MAX_PERIODS_PER_DAY,
            lo + per_day <= row.len(),
            f == late_at(rules@.time_preferences, row@, lo as int),
            count == sum(q as int, f),
            0 <= count <= q,
        decreases per_day - q,
    {
        match row[lo + q] {
            Slot::Single(SlotData::PartiallyFilled { subject, .. }) => {
                if is_too_late(rules, subject, q) {
                    count = count + 1;
                }
            },
            _ => {},
        }
        assert(sum(q + 1, f) == sum(q as int, f) + f(q as int));
        q += 1;
    }
    count
}

fn cost_of_day(
    rule: DayRule,
    rules: &Rules,
    row: &Vec<Slot>,
    lo: usize,
    per_day: usize,
) -> (count: i32)
    requires
        lo + per_day <= row.len(),
        per_day <= MAX_PERIODS_PER_DAY,
        row.len() <= 5 * MAX_PERIODS_PER_DAY,
        rules@.wf(),
    ensures
        count == day_cost(rule, rules@, row@, lo as int, per_day as int),
        0 <= count <= 100,
{
    match rule {
        DayRule::Holes => holes_of_day(row, lo, per_day),
        DayRule::SubjectHoles => comebacks_of_day(row, lo, per_day),
        DayRule::DayLimits => limits_of_day(rules, row, lo, per_day),
        DayRule::Spread => spread_of_day(rules, row, lo, per_day),
        DayRule::Timing => timing_of_day(rules, row, lo, per_day),
    }
}

/// What the table of `shift` costs under a rule.
pub fn cost_of_week(
    timetable: &Timetable,
    shift: Shift,
    rules: &Rules,
    rule: DayRule,
) -> (points: i32)
    requires
        timetable.shift_wf(shift),
        rules@.wf(),
    ensures
        points == week_cost(
            rule,
            rules@,
            timetable@.grid(shift),
            timetable@.max_periods_per_day as int,
        ),
        0 <= points <= MAX_COST,
{
    let per_day = timetable.max_periods_per_day as usize;
    let table = timetable.table(shift);
    let ghost grid = grid_of(table@);
    let ghost f = classes_cost(rule, rules@, grid, per_day as int);
    let mut points: i32 = 0;
    let mut c: usize = 0;
    while c < table.len()
        invariant
            c <= table.len(),
            per_day <= MAX_PERIODS_PER_DAY,
            rules@.wf(),
            grid == grid_of(table@),
            countable(grid, 5 * per_day),
            f == classes_cost(rule, rules@, grid, per_day as int),
            points == sum(c as int, f),
            0 <= points <= c * 500,
        decreases table.len() - c,
    {
        let row = &table[c].slots;
        assert(row@ == grid[c as int]);
        assert(grid[c as int].len() == 5 * per_day);
        let ghost g = days_cost(rule, rules@, row@, per_day as int);
        let mut count: i32 = 0;
        let mut day: usize = 0;
        let mut lo: usize = 0;
        while day < 5
            invariant
                day <= 5,
                lo == day * per_day,
                per_day <= MAX_PERIODS_PER_DAY,
                row.len() == 5 * per_day,
                rules@.wf(),
                g == days_cost(rule, rules@, row@, per_day as int),
                count == sum(day as int, g),
                0 <= count <= day * 100,
            decreases 5 - day,
        {
            proof {
                assert(lo + per_day <= 5 * per_day) by (nonlinear_arith)
                    requires
                        lo == day * per_day,
                        day < 5,
                ;
                assert((day + 1) * per_day == lo + per_day) by (nonlinear_arith)
                    requires
                        lo == day * per_day,
                ;
            }
            let extra = cost_of_day(rule, rules, row, lo, per_day);
            assert(extra == g(day as int));
            count = count + extra;
            day += 1;
            lo = lo + per_day;
        }
        assert(count == f(c as int));
        points = points + count;
        c += 1;
    }
    points
}

/// The cost of holes: for every class and day, the periods in which a group of the
/// class is free between two of its lessons.
pub open spec fn class_holes(grid: Seq<Seq<Slot>>, per_day: int) -> int {
    week_cost(DayRule::Holes, RulesView::none(), grid, per_day)
}

/// The cost of subjects that come back: for every class and day, each whole-class
/// lesson in a subject that the class had earlier that day, but not in the whole-class
/// lesson just before.
pub open spec fn subject_breaks(grid: Seq<Seq<Slot>>, per_day: int) -> int {
    week_cost(DayRule::SubjectHoles, RulesView::none(), grid, per_day)
}

/// The cost of the holes in the days of the classes of `shift`.
pub fn hard_holes_in_class_timetable(timetable: &Timetable, shift: Shift) -> (points: i32)
    requires
        timetable.shift_wf(shift),
    ensures
        points == class_holes(timetable@.grid(shift), timetable@.max_periods_per_day as int),
        0 <= points <= MAX_COST,
{
    let rules = Rules::none();
    cost_of_week(timetable, shift, &rules, DayRule::Holes)
}

/// The cost of subjects that a class has twice a day with another lesson between.
pub fn hard_subject_holes(timetable: &Timetable, shift: Shift) -> (points: i32)
    requires
        timetable.shift_wf(shift),
    ensures
        points == subject_breaks(timetable@.grid(shift), timetable@.max_periods_per_day as int),
        0 <= points <= MAX_COST,
{
    let rules = Rules::none();
    cost_of_week(timetable, shift, &rules, DayRule::SubjectHoles)
}

/// The cost of subjects taught too often a day: every class, day and entry of
/// `rules.day_limits` counts once if the class has more whole-class lessons in the
/// subject that day than the entry allows.
pub fn hard_subject_per_day_limits(
    timetable: &Timetable,
    shift: Shift,
    rules: &Rules,
) -> (points: i32)
    requires
        timetable.shift_wf(shift),
        rules@.wf(),
    ensures
        points == week_cost(
            DayRule::DayLimits,
            rules@,
            timetable@.grid(shift),
            timetable@.max_periods_per_day as int,
        ),
        0 <= points <= MAX_COST,
{
    cost_of_week(timetable, shift, rules, DayRule::DayLimits)
}

/// The cost of uneven days: every class and day counts once if either group of the
/// class has a number of lessons that day that `rules.class_spread` calls uneven,
/// measured against a fifth of the cells of the week in which the class is taught.
pub fn soft_class_spread(timetable: &Timetable, shift: Shift, rules: &Rules) -> (points: i32)
    requires
        timetable.shift_wf(shift),
        rules@.wf(),
    ensures
        points == week_cost(
            DayRule::Spread,
            rules@,
            timetable@.grid(shift),
            timetable@.max_periods_per_day as int,
        ),
        0 <= points <= MAX_COST,
{
    cost_of_week(timetable, shift, rules, DayRule::Spread)
}

/// The cost of lessons late in the day: every whole-class lesson counts once if an
/// entry of `rules.time_preferences` wants its subject over before its period.
pub fn soft_preferred_subject_times(
    timetable: &Timetable,
    shift: Shift,
    rules: &Rules,
) -> (points: i32)
    requires
        timetable.shift_wf(shift),
        rules@.wf(),
    ensures
        points == week_cost(
            DayRule::Timing,
            rules@,
            timetable@.grid(shift),
            timetable@.max_periods_per_day as int,
        ),
        0 <= points <= MAX_COST,
{
    cost_of_week(timetable, shift, rules, DayRule::Timing)
}

} // verus!
