//! Two hard rules on when people are at school: teachers who have a plan of shifts for
//! the week teach in the shift of the day, and some classes keep a day a week free of
//! some subjects.

use vstd::prelude::*;

use crate::cost::{cell, countable, MAX_COST};
use crate::logic::{grid_of, Shift, Slot, SlotData, Timetable, MAX_PERIODS_PER_DAY};
use crate::rules::{has_index, Rules, ShiftPlanView, MAX_RULES};
use crate::sums::{one_if, sum};

verus! {

/// Whether `teacher` has a plan that has them in the other shift on `day`.
pub open spec fn misplaced(
    plans: Seq<ShiftPlanView>,
    teacher: usize,
    day: int,
    shift: Shift,
) -> bool {
    exists|k: int|
        0 <= k < plans.len() && (#[trigger] plans[k]).teacher == teacher && 0 <= day
            < plans[k].days.len() && plans[k].days[day] != shift.number() && plans[k].days[day] != 3
}

/// Whether an entry has a teacher whose plan has them in the other shift that day.
pub open spec fn entry_misplaced(
    plans: Seq<ShiftPlanView>,
    d: SlotData,
    day: int,
    shift: Shift,
) -> bool {
    d matches SlotData::PartiallyFilled { teacher, .. } && misplaced(plans, teacher, day, shift)
}

/// How many lessons of a cell are given by a teacher who is planned for the other
/// shift that day.
pub open spec fn cell_misplaced(
    plans: Seq<ShiftPlanView>,
    slot: Slot,
    day: int,
    shift: Shift,
) -> int {
    match slot {
        Slot::Single(d) => one_if(entry_misplaced(plans, d, day, shift)),
        Slot::Double { first, second, .. } => one_if(entry_misplaced(plans, first, day, shift))
            + one_if(entry_misplaced(plans, second, day, shift)),
    }
}

/// For each period of `day`, the lessons of a row given against a plan.
pub open spec fn misplaced_at(
    plans: Seq<ShiftPlanView>,
    row: Seq<Slot>,
    day: int,
    per_day: int,
    shift: Shift,
) -> spec_fn(int) -> int {
    |q: int| cell_misplaced(plans, row[day * per_day + q], day, shift)
}

/// For each day, the lessons of a row given against a plan.
pub open spec fn misplaced_on(
    plans: Seq<ShiftPlanView>,
    row: Seq<Slot>,
    per_day: int,
    shift: Shift,
) -> spec_fn(int) -> int {
    |day: int| sum(per_day, misplaced_at(plans, row, day, per_day, shift))
}

/// For each class, the lessons of its row given against a plan.
pub open spec fn misplaced_in(
    plans: Seq<ShiftPlanView>,
    grid: Seq<Seq<Slot>>,
    per_day: int,
    shift: Shift,
) -> spec_fn(int) -> int {
    |c: int| sum(5, misplaced_on(plans, grid[c], per_day, shift))
}

/// The cost of lessons against the plans: every lesson in the table of `shift` whose
/// teacher is planned for the other shift that day counts once.
pub open spec fn misplaced_lessons(
    plans: Seq<ShiftPlanView>,
    grid: Seq<Seq<Slot>>,
    per_day: int,
    shift: Shift,
) -> int {
    sum(grid.len() as int, misplaced_in(plans, grid, per_day, shift))
}

fn is_misplaced(rules: &Rules, d: SlotData, day: usize, shift: Shift) -> (r: bool)
    ensures
        r == entry_misplaced(rules@.shift_plans, d, day as int, shift),
{
    match d {
        SlotData::Empty => false,
        SlotData::PartiallyFilled { teacher, .. } => {
            let number = shift.to_i32();
            let mut k: usize = 0;
            while k < rules.shift_plans.len()
                invariant
                    k <= rules.shift_plans.len(),
                    d.taught_by(teacher),
                    number == shift.number(),
                    forall|j: int|
                        0 <= j < k ==> !((#[trigger] rules@.shift_plans[j]).teacher == teacher
                            && 0 <= day < rules@.shift_plans[j].days.len()
                            && rules@.shift_plans[j].days[day as int] != shift.number()
                            && rules@.shift_plans[j].days[day as int] != 3),
                decreases rules.shift_plans.len() - k,
            {
                let plan = &rules.shift_plans[k];
                assert(rules@.shift_plans[k as int] == plan@);
                if plan.teacher == teacher && day < plan.days.len() && plan.days[day] != number
                    && plan.days[day] != 3 {
                    assert(misplaced(rules@.shift_plans, teacher, day as int, shift));
                    return true;
                }
                k += 1;
            }
            false
        },
    }
}

/// The cost of the lessons that teachers give in `shift` on days for which their plan
/// has them in the other shift.
pub fn hard_teacher_shift_spread(
    timetable: &Timetable,
    shift: Shift,
    rules: &Rules,
) -> (points: i32)
    requires
        timetable.shift_wf(shift),
    ensures
        points == misplaced_lessons(
            rules@.shift_plans,
            timetable@.grid(shift),
            timetable@.max_periods_per_day as int,
            shift,
        ),
        0 <= points <= MAX_COST,
{
    let per_day = timetable.max_periods_per_day as usize;
    let table = timetable.table(shift);
    let ghost grid = grid_of(table@);
    let ghost plans = rules@.shift_plans;
    let ghost f = misplaced_in(plans, grid, per_day as int, shift);
    let mut points: i32 = 0;
    let mut c: usize = 0;
    while c < table.len()
        invariant
            c <= table.len(),
            per_day <= MAX_PERIODS_PER_DAY,
            grid == grid_of(table@),
            plans == rules@.shift_plans,
            countable(grid, 5 * per_day),
            f == misplaced_in(plans, grid, per_day as int, shift),
            points == sum(c as int, f),
            0 <= points <= c * 1_000,
        decreases table.len() - c,
    {
        assert(grid[c as int].len() == 5 * per_day);
        let ghost g = misplaced_on(plans, grid[c as int], per_day as int, shift);
        let mut count: i32 = 0;
        let mut day: usize = 0;
        let mut lo: usize = 0;
        while day < 5
            invariant
                day <= 5,
                lo == day * per_day,
                c < table.len(),
                per_day <= MAX_PERIODS_PER_DAY,
                grid == grid_of(table@),
                plans == rules@.shift_plans,
                grid[c as int].len() == 5 * per_day,
                g == misplaced_on(plans, grid[c as int], per_day as int, shift),
                count == sum(day as int, g),
                0 <= count <= day * 200,
            decreases 5 - day,
        {
            proof {
                assert(lo + per_day <= 5 * per_day) by (nonlinear_arith)
                    requires
                        lo == day * per_day,
                        day < 5,
                ;
                assert((day + 1) * per_day == lo + per_day) by (nonlinear_arith)
                    requires
                        lo == day * per_day,
                ;
            }
            let ghost h = misplaced_at(plans, grid[c as int], day as int, per_day as int, shift);
            let mut here: i32 = 0;
            let mut q: usize = 0;
            while q < per_day
                invariant
                    q <= per_day,
                    lo == day * per_day,
                    lo + per_day <= 5 * per_day,
                    c < table.len(),
                    per_day <= MAX_PERIODS_PER_DAY,
                    grid == grid_of(table@),
                    plans == rules@.shift_plans,
                    grid[c as int].len() == 5 * per_day,
                    h == misplaced_at(plans, grid[c as int], day as int, per_day as int, shift),
                    here == sum(q as int, h),
                    0 <= here <= 2 * q,
                decreases per_day - q,
            {
                let extra: i32 = match cell(table, c, lo + q) {
                    Slot::Single(d) => if is_misplaced(rules, d, day, shift) {
                        1
                    } else {
                        0
                    },
                    Slot::Double { first, second, .. } => {
                        let a: i32 = if is_misplaced(rules, first, day, shift) {
                            1
                        } else {
                            0
                        };
                        let b: i32 = if is_misplaced(rules, second, day, shift) {
                            1
                        } else {
                            0
                        };
                        a + b
                    },
                };
                assert(extra == h(q as int));
                here = here + extra;
                q += 1;
            }
            assert(here == g(day as int));
            count = count + here;
            day += 1;
            lo = lo + per_day;
        }
        assert(count == f(c as int));
        points = points + count;
        c += 1;
    }
    points
}

/// Whether the cell holds a whole-class lesson in one of `subjects`.
pub open spec fn has_listed(subjects: Seq<usize>, slot: Slot) -> bool {
    slot matches Slot::Single(SlotData::PartiallyFilled { subject, .. }) && subjects.contains(subject)
}

/// For each period of the day, 1 if it holds a whole-class lesson in one of `subjects`.
pub open spec fn listed_at(subjects: Seq<usize>, row: Seq<Slot>, lo: int) -> spec_fn(int) -> int {
    |q: int| one_if(has_listed(subjects, row[lo + q]))
}

/// For each day, 1 if the row has a whole-class lesson in one of `subjects` on it.
pub open spec fn listed_on(
    subjects: Seq<usize>,
    row: Seq<Slot>,
    per_day: int,
) -> spec_fn(int) -> int {
    |day: int| one_if(sum(per_day, listed_at(subjects, row, day * per_day)) > 0)
}

/// Whether a class has whole-class lessons in the listed subjects on all five days.
pub open spec fn no_day_off(subjects: Seq<usize>, row: Seq<Slot>, per_day: int) -> bool {
    sum(5, listed_on(subjects, row, per_day)) == 5
}

/// For each listed class, 1 if it is in the grid and has no day off.
pub open spec fn class_without_day_off(
    classes: Seq<usize>,
    subjects: Seq<usize>,
    grid: Seq<Seq<Slot>>,
    per_day: int,
) -> spec_fn(int) -> int {
    |k: int|
        one_if(classes[k] < grid.len() && no_day_off(subjects, grid[classes[k] as int], per_day))
}

/// The cost of classes without a day off: every entry of `classes` counts once if the
/// class has whole-class lessons in the listed subjects on every day of the week.
pub open spec fn classes_without_day_off(
    classes: Seq<usize>,
    subjects: Seq<usize>,
    grid: Seq<Seq<Slot>>,
    per_day: int,
) -> int {
    sum(classes.len() as int, class_without_day_off(classes, subjects, grid, per_day))
}

fn has_no_day_off(row: &Vec<Slot>, subjects: &Vec<usize>, per_day: usize) -> (r: bool)
    requires
        row.len() == 5 * per_day,
        per_day <= MAX_PERIODS_PER_DAY,
    ensures
        r == no_day_off(subjects@, row@, per_day as int),
{
    let ghost g = listed_on(subjects@, row@, per_day as int);
    let mut days: u32 = 0;
    let mut day: usize = 0;
    let mut lo: usize = 0;
    while day < 5
        invariant
            day <= 5,
            lo == day * per_day,
            row.len() == 5 * per_day,
            per_day <= MAX_PERIODS_PER_DAY,
            g == listed_on(subjects@, row@, per_day as int),
            days == sum(day as int, g),
            0 <= days <= day,
        decreases 5 - day,
    {
        proof {
            assert(lo + per_day <= 5 * per_day) by (nonlinear_arith)
                requires
                    lo == day * per_day,
                    day < 5,
            ;
            assert((day + 1) * per_day == lo + per_day) by (nonlinear_arith)
                requires
                    lo == day * per_day,
            ;
        }
        let ghost h = listed_at(subjects@, row@, lo as int);
        let mut lessons: u32 = 0;
        let mut q: usize = 0;
        while q < per_day
            invariant
                q <= per_day,
                lo + per_day <= row.len(),
                per_day <= MAX_PERIODS_PER_DAY,
                h == listed_at(subjects@, row@, lo as int),
                lessons == sum(q as int, h),
                0 <= lessons <= q,
            decreases per_day - q,
        {
            match row[lo + q] {
                Slot::Single(SlotData::PartiallyFilled { subject, .. }) => {
                    if has_index(subjects, subject) {
                        lessons = lessons + 1;
                    }
                },
                _ => {},
            }
            assert(sum(q + 1, h) == sum(q as int, h) + h(q as int));
            q += 1;
        }
        if lessons > 0 {
            days = days + 1;
        }
        assert(sum(day + 1, g) == sum(day as int, g) + g(day as int));
        day += 1;
        lo = lo + per_day;
    }
    days == 5
}

/// The cost of the classes of `rules.day_off_classes` that have lessons in the subjects
/// of `rules.day_off_subjects` on every day of the week.
pub fn hard_specific_subject_days(
    timetable: &Timetable,
    shift: Shift,
    rules: &Rules,
) -> (points: i32)
    requires
        timetable.shift_wf(shift),
        rules@.wf(),
    ensures
        points == classes_without_day_off(
            rules@.day_off_classes,
            rules@.day_off_subjects,
            timetable@.grid(shift),
            timetable@.max_periods_per_day as int,
        ),
        0 <= points <= MAX_COST,
{
    let per_day = timetable.max_periods_per_day as usize;
    let table = timetable.table(shift);
    let ghost grid = grid_of(table@);
    let ghost f = class_without_day_off(
        rules@.day_off_classes,
        rules@.day_off_subjects,
        grid,
        per_day as int,
    );
    let mut points: i32 = 0;
    let mut k: usize = 0;
    while k < rules.day_off_classes.len()
        invariant
            k <= rules.day_off_classes.len(),
            rules.day_off_classes.len() <= MAX_RULES,
            per_day <= MAX_PERIODS_PER_DAY,
            grid == grid_of(table@),
            countable(grid, 5 * per_day),
            f == class_without_day_off(
                rules@.day_off_classes,
                rules@.day_off_subjects,
                grid,
                per_day as int,
            ),
            points == sum(k as int, f),
            0 <= points <= k,
        decreases rules.day_off_classes.len() - k,
    {
        let class = rules.day_off_classes[k];
        if class < table.len() {
            assert(grid[class as int].len() == 5 * per_day);
            assert(table@[class as int]@ == grid[class as int]);
            if has_no_day_off(&table[class].slots, &rules.day_off_subjects, per_day) {
                points = points + 1;
            }
        }
        assert(sum(k + 1, f) == sum(k as int, f) + f(k as int));
        k += 1;
    }
    points
}

} // verus!
