//! No rule counts below zero. So a timetable that costs nothing, under weights that are
//! positive for the hard rules and not negative for the others, breaks no hard rule.

use vstd::prelude::*;

use crate::cost::{
    barred_lessons, class_unpaired, day_overlap, gathered, grid_barred, grid_unpaired,
    kinds_claimed, kinds_short, period_repeats, period_short, period_subjects, repeated_teachers,
    row_barred, serving_order, shift_overlap, unpaired_subjects, week_overlap,
};
use crate::days::{
    classes_cost, comebacks, day_cost, day_subjects, days_cost, hole_at, late_at, over_limit,
    week_cost, DayRule,
};
use crate::logic::{ProblemView, Shift, Slot, TimetableView};
use crate::plans::{
    class_without_day_off, misplaced_at, misplaced_in, misplaced_lessons, misplaced_on,
};
use crate::points::{hard_total, soft_total};
use crate::rules::{BlacklistView, RulesView, ShiftPlanView};
use crate::search::{chain_cost, overlap_cost, total_cost, Weights};
use crate::sums::{repeats, sum};
use crate::util::{
    teacher_days_cost, teacher_week_cost, teacher_weeks, teachers_cost, TeacherRule, TeacherSlot,
};

verus! {

/// A sum of terms that are not negative is not negative.
pub proof fn lemma_sum_not_negative(n: int, f: spec_fn(int) -> int)
    requires
        forall|i: int| 0 <= i < n ==> #[trigger] f(i) >= 0,
    ensures
        sum(n, f) >= 0,
    decreases n,
{
    if n > 0 {
        lemma_sum_not_negative(n - 1, f);
    }
}

proof fn lemma_repeats_not_negative(s: Seq<usize>)
    ensures
        repeats(s) >= 0,
    decreases s.len(),
{
    if s.len() > 0 {
        lemma_repeats_not_negative(s.drop_last());
    }
}

proof fn lemma_comebacks_not_negative(s: Seq<usize>)
    ensures
        comebacks(s) >= 0,
    decreases s.len(),
{
    if s.len() > 0 {
        lemma_comebacks_not_negative(s.drop_last());
    }
}

proof fn lemma_short_not_negative(
    data: ProblemView,
    kinds: Seq<Seq<char>>,
    subjects: Seq<usize>,
    k: int,
)
    ensures
        kinds_claimed(data, kinds, subjects, k).short >= 0,
    decreases k,
{
    if k > 0 {
        lemma_short_not_negative(data, kinds, subjects, k - 1);
    }
}

proof fn lemma_day_cost_not_negative(
    rule: DayRule,
    rules: RulesView,
    row: Seq<Slot>,
    lo: int,
    per_day: int,
)
    ensures
        day_cost(rule, rules, row, lo, per_day) >= 0,
{
    match rule {
        DayRule::Holes => lemma_sum_not_negative(per_day, hole_at(row, lo, per_day)),
        DayRule::SubjectHoles => lemma_comebacks_not_negative(day_subjects(row, lo, per_day)),
        DayRule::DayLimits => lemma_sum_not_negative(
            rules.day_limits.len() as int,
            over_limit(rules.day_limits, row, lo, per_day),
        ),
        DayRule::Spread => {},
        DayRule::Timing => lemma_sum_not_negative(
            per_day,
            late_at(rules.time_preferences, row, lo),
        ),
    }
}

proof fn lemma_week_cost_not_negative(
    rule: DayRule,
    rules: RulesView,
    grid: Seq<Seq<Slot>>,
    per_day: int,
)
    ensures
        week_cost(rule, rules, grid, per_day) >= 0,
{
    let f = classes_cost(rule, rules, grid, per_day);
    assert forall|c: int| 0 <= c < grid.len() implies #[trigger] f(c) >= 0 by {
        let g = days_cost(rule, rules, grid[c], per_day);
        assert forall|d: int| 0 <= d < 5 implies #[trigger] g(d) >= 0 by {
            lemma_day_cost_not_negative(rule, rules, grid[c], d * per_day, per_day);
        }
        lemma_sum_not_negative(5, g);
    }
    lemma_sum_not_negative(grid.len() as int, f);
}

proof fn lemma_teacher_week_cost_not_negative(
    rule: TeacherRule,
    rules: RulesView,
    weeks: Seq<Seq<TeacherSlot>>,
    per_day: int,
)
    ensures
        teacher_week_cost(rule, rules, weeks, per_day) >= 0,
{
    let f = teachers_cost(rule, rules, weeks, per_day);
    assert forall|t: int| 0 <= t < weeks.len() implies #[trigger] f(t) >= 0 by {
        lemma_sum_not_negative(5, teacher_days_cost(rule, rules, weeks[t], per_day));
    }
    lemma_sum_not_negative(weeks.len() as int, f);
}

proof fn lemma_repeated_teachers_not_negative(grid: Seq<Seq<Slot>>, periods: int)
    ensures
        repeated_teachers(grid, periods) >= 0,
{
    let f = period_repeats(grid, false);
    assert forall|p: int| 0 <= p < periods implies #[trigger] f(p) >= 0 by {
        lemma_repeats_not_negative(gathered(grid, p, grid.len() as int, false));
    }
    lemma_sum_not_negative(periods, f);
}

proof fn lemma_kinds_short_not_negative(
    data: ProblemView,
    kinds: Seq<Seq<char>>,
    grid: Seq<Seq<Slot>>,
    periods: int,
)
    ensures
        kinds_short(data, kinds, grid, periods) >= 0,
{
    let f = period_short(data, kinds, grid);
    assert forall|p: int| 0 <= p < periods implies #[trigger] f(p) >= 0 by {
        lemma_short_not_negative(
            data,
            kinds,
            period_subjects(grid, p, grid.len() as int),
            kinds.len() as int,
        );
    }
    lemma_sum_not_negative(periods, f);
}

proof fn lemma_unpaired_not_negative(subjects: Seq<usize>, grid: Seq<Seq<Slot>>, per_day: int)
    ensures
        unpaired_subjects(subjects, grid, per_day) >= 0,
{
    let f = grid_unpaired(subjects, grid, per_day);
    assert forall|c: int| 0 <= c < grid.len() implies #[trigger] f(c) >= 0 by {
        lemma_sum_not_negative(subjects.len() as int, class_unpaired(subjects, grid[c], per_day));
    }
    lemma_sum_not_negative(grid.len() as int, f);
}

proof fn lemma_barred_not_negative(
    lists: Seq<BlacklistView>,
    grid: Seq<Seq<Slot>>,
    periods: int,
)
    ensures
        barred_lessons(lists, grid, periods) >= 0,
{
    let f = grid_barred(lists, grid, periods);
    assert forall|c: int| 0 <= c < grid.len() implies #[trigger] f(c) >= 0 by {
        lemma_sum_not_negative(periods, row_barred(lists, grid[c]));
    }
    lemma_sum_not_negative(grid.len() as int, f);
}

proof fn lemma_misplaced_not_negative(
    plans: Seq<ShiftPlanView>,
    grid: Seq<Seq<Slot>>,
    per_day: int,
    shift: Shift,
)
    ensures
        misplaced_lessons(plans, grid, per_day, shift) >= 0,
{
    let f = misplaced_in(plans, grid, per_day, shift);
    assert forall|c: int| 0 <= c < grid.len() implies #[trigger] f(c) >= 0 by {
        let g = misplaced_on(plans, grid[c], per_day, shift);
        assert forall|d: int| 0 <= d < 5 implies #[trigger] g(d) >= 0 by {
            lemma_sum_not_negative(per_day, misplaced_at(plans, grid[c], d, per_day, shift));
        }
        lemma_sum_not_negative(5, g);
    }
    lemma_sum_not_negative(grid.len() as int, f);
}

/// No count of the hard rules is below zero.
pub proof fn lemma_hard_total_not_negative(v: TimetableView, shift: Shift, rules: RulesView)
    ensures
        hard_total(v, shift, rules) >= 0,
{
    let grid = v.grid(shift);
    let per_day = v.max_periods_per_day as int;
    lemma_repeated_teachers_not_negative(grid, v.periods());
    lemma_week_cost_not_negative(DayRule::Holes, RulesView::none(), grid, per_day);
    lemma_kinds_short_not_negative(
        v.data,
        serving_order(v.data, rules.capacity_kinds),
        grid,
        v.periods(),
    );
    lemma_unpaired_not_negative(rules.block_subjects, grid, per_day);
    lemma_week_cost_not_negative(DayRule::DayLimits, rules, grid, per_day);
    lemma_week_cost_not_negative(DayRule::SubjectHoles, RulesView::none(), grid, per_day);
    lemma_barred_not_negative(rules.blacklists, grid, v.periods());
    lemma_sum_not_negative(
        rules.day_off_classes.len() as int,
        class_without_day_off(rules.day_off_classes, rules.day_off_subjects, grid, per_day),
    );
    lemma_misplaced_not_negative(rules.shift_plans, grid, per_day, shift);
}

/// No count of the soft rules is below zero.
pub proof fn lemma_soft_total_not_negative(v: TimetableView, shift: Shift, rules: RulesView)
    ensures
        soft_total(v, shift, rules) >= 0,
{
    let grid = v.grid(shift);
    let per_day = v.max_periods_per_day as int;
    let weeks = teacher_weeks(grid, v.data.teachers.len() as int, v.periods());
    lemma_week_cost_not_negative(DayRule::Spread, rules, grid, per_day);
    lemma_teacher_week_cost_not_negative(TeacherRule::Spread, rules, weeks, per_day);
    lemma_teacher_week_cost_not_negative(TeacherRule::Holes, rules, weeks, per_day);
    lemma_week_cost_not_negative(DayRule::Timing, rules, grid, per_day);
}

/// The count of teachers who work both shifts of a day is not below zero.
pub proof fn lemma_shift_overlap_not_negative(
    first: Seq<Seq<Slot>>,
    second: Seq<Seq<Slot>>,
    per_day: int,
    teachers: int,
)
    ensures
        shift_overlap(first, second, per_day, teachers) >= 0,
{
    let f = week_overlap(first, second, per_day, teachers);
    assert forall|day: int| 0 <= day < 5 implies #[trigger] f(day) >= 0 by {
        lemma_sum_not_negative(teachers, day_overlap(first, second, per_day, day));
    }
    lemma_sum_not_negative(5, f);
}

/// A timetable that costs nothing breaks no hard rule in either shift, where the
/// weights of the hard rules are positive and no other weight is negative. So a search
/// that ends because its timetable costs nothing has found one that is fit for use.
pub proof fn lemma_costless_is_feasible(v: TimetableView, rules: RulesView, w: Weights)
    requires
        w.hard_1 > 0,
        w.hard_2 > 0,
        w.soft_1 >= 0,
        w.soft_2 >= 0,
        w.overlap >= 0,
        total_cost(v, rules, w) == 0,
    ensures
        hard_total(v, Shift::First, rules) == 0,
        hard_total(v, Shift::Second, rules) == 0,
{
    let h1 = hard_total(v, Shift::First, rules);
    let h2 = hard_total(v, Shift::Second, rules);
    let s1 = soft_total(v, Shift::First, rules);
    let s2 = soft_total(v, Shift::Second, rules);
    let o = shift_overlap(
        v.first,
        v.second,
        v.max_periods_per_day as int,
        v.data.teachers.len() as int,
    );
    lemma_hard_total_not_negative(v, Shift::First, rules);
    lemma_hard_total_not_negative(v, Shift::Second, rules);
    lemma_soft_total_not_negative(v, Shift::First, rules);
    lemma_soft_total_not_negative(v, Shift::Second, rules);
    lemma_shift_overlap_not_negative(
        v.first,
        v.second,
        v.max_periods_per_day as int,
        v.data.teachers.len() as int,
    );
    assert(chain_cost(v, Shift::First, rules, w) == w.hard_1 * h1 + w.soft_1 * s1);
    assert(chain_cost(v, Shift::Second, rules, w) == w.hard_2 * h2 + w.soft_2 * s2);
    assert(overlap_cost(v, w) == w.overlap * o);
    assert(w.hard_1 * h1 >= h1 && w.hard_2 * h2 >= h2 && w.soft_1 * s1 >= 0 && w.soft_2 * s2 >= 0
        && w.overlap * o >= 0) by (nonlinear_arith)
        requires
            w.hard_1 > 0,
            w.hard_2 > 0,
            w.soft_1 >= 0,
            w.soft_2 >= 0,
            w.overlap >= 0,
            h1 >= 0,
            h2 >= 0,
            s1 >= 0,
            s2 >= 0,
            o >= 0,
    ;
}

} // verus!
