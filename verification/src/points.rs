//! The rules added up: the weighted cost of the hard rules and of the soft rules of a
//! shift, and the breakdown of both.

use vstd::prelude::*;

use crate::cost::{
    barred_lessons, hard_block_classes, hard_repeating_teachers, hard_teacher_extra_constraints,
    hard_too_many_subjects_of_same_kind, kinds_short, repeated_rooms, repeated_teachers,
    repeating_rooms, serving_order, shift_overlap, teacher_shifts, unpaired_subjects, MAX_COST,
};
use crate::days::{
    class_holes, hard_holes_in_class_timetable, hard_subject_holes, hard_subject_per_day_limits,
    soft_class_spread, soft_preferred_subject_times, subject_breaks, week_cost, DayRule,
};
use crate::logic::{Shift, Timetable, TimetableView};
use crate::plans::{
    classes_without_day_off, hard_specific_subject_days, hard_teacher_shift_spread,
    misplaced_lessons,
};
use crate::rules::{Rules, RulesView};
use crate::util::{
    class_table_to_teacher_table, soft_holes_in_teacher_timetable, soft_teacher_class_spread,
    teacher_week_cost, teacher_weeks, TeacherRule,
};

verus! {

/// The violations of the hard rules in a shift, each rule counting alike.
pub open spec fn hard_total(v: TimetableView, shift: Shift, rules: RulesView) -> int {
    repeated_teachers(v.grid(shift), v.periods()) + class_holes(
        v.grid(shift),
        v.max_periods_per_day as int,
    ) + kinds_short(
        v.data,
        serving_order(v.data, rules.capacity_kinds),
        v.grid(shift),
        v.periods(),
    ) + unpaired_subjects(
        rules.block_subjects,
        v.grid(shift),
        v.max_periods_per_day as int,
    ) + week_cost(DayRule::DayLimits, rules, v.grid(shift), v.max_periods_per_day as int)
        + subject_breaks(v.grid(shift), v.max_periods_per_day as int) + barred_lessons(
        rules.blacklists,
        v.grid(shift),
        v.periods(),
    ) + classes_without_day_off(
        rules.day_off_classes,
        rules.day_off_subjects,
        v.grid(shift),
        v.max_periods_per_day as int,
    ) + misplaced_lessons(rules.shift_plans, v.grid(shift), v.max_periods_per_day as int, shift)
}

/// The violations of the soft rules in a shift, each rule counting alike.
pub open spec fn soft_total(v: TimetableView, shift: Shift, rules: RulesView) -> int {
    let weeks = teacher_weeks(v.grid(shift), v.data.teachers.len() as int, v.periods());
    week_cost(DayRule::Spread, rules, v.grid(shift), v.max_periods_per_day as int)
        + teacher_week_cost(TeacherRule::Spread, rules, weeks, v.max_periods_per_day as int)
        + teacher_week_cost(TeacherRule::Holes, rules, weeks, v.max_periods_per_day as int)
        + week_cost(DayRule::Timing, rules, v.grid(shift), v.max_periods_per_day as int)
}

/// A count of violations times its weight.
pub(crate) fn weighted(multiplier: i32, count: i32) -> (points: i64)
    requires
        0 <= count <= 10 * MAX_COST,
    ensures
        points == multiplier * count,
        -300_000_000_000_000_000 <= points <= 300_000_000_000_000_000,
{
    proof {
        assert(-300_000_000_000_000_000 <= multiplier * count <= 300_000_000_000_000_000)
            by (nonlinear_arith)
            requires
                -0x8000_0000 <= multiplier <= 0x7fff_ffff,
                0 <= count <= 100_000_000,
        ;
    }
    (multiplier as i64) * (count as i64)
}

/// The cost of one shift: the hard rules together and the soft rules together, then
/// rule by rule, each weighted; and the rooms used twice, which no weight applies to.
#[derive(Clone, Copy, Debug, PartialEq, Eq, Structural)]
pub struct ShiftCost {
    pub hard_points: i64,
    pub soft_points: i64,
    pub repeating_teachers: i64,
    pub holes: i64,
    pub too_many_of_kind: i64,
    pub block_classes: i64,
    pub subject_per_day_limits: i64,
    pub subject_holes: i64,
    pub teacher_extra_constraints: i64,
    pub specific_subject_days: i64,
    pub teacher_shift_spread: i64,
    pub class_spread: i64,
    pub teacher_class_spread: i64,
    pub teacher_holes: i64,
    pub preferred_subject_times: i64,
    pub repeating_rooms: i32,
}

/// The cost of both shifts, and the count of the teachers who work both shifts of a day,
/// to which no weight is applied.
#[derive(Clone, Copy, Debug, PartialEq, Eq, Structural)]
pub struct DetailedCost {
    pub first: ShiftCost,
    pub second: ShiftCost,
    pub teacher_shifts: i32,
}

impl ShiftCost {
    /// The hard rules together.
    pub open spec fn hard(self) -> int {
        self.repeating_teachers + self.holes + self.too_many_of_kind + self.block_classes
            + self.subject_per_day_limits + self.subject_holes + self.teacher_extra_constraints
            + self.specific_subject_days + self.teacher_shift_spread
    }

    /// The soft rules together.
    pub open spec fn soft(self) -> int {
        self.class_spread + self.teacher_class_spread + self.teacher_holes
            + self.preferred_subject_times
    }
}

/// The breakdown of a shift under the weights `hard` and `soft`.
pub open spec fn costs_of(
    v: TimetableView,
    shift: Shift,
    rules: RulesView,
    hard: i32,
    soft: i32,
) -> ShiftCost {
    let grid = v.grid(shift);
    let per_day = v.max_periods_per_day as int;
    let weeks = teacher_weeks(grid, v.data.teachers.len() as int, v.periods());
    ShiftCost {
        hard_points: (hard * hard_total(v, shift, rules)) as i64,
        soft_points: (soft * soft_total(v, shift, rules)) as i64,
        repeating_teachers: (hard * repeated_teachers(grid, v.periods())) as i64,
        holes: (hard * class_holes(grid, per_day)) as i64,
        too_many_of_kind: (hard * kinds_short(
            v.data,
            serving_order(v.data, rules.capacity_kinds),
            grid,
            v.periods(),
        )) as i64,
        block_classes: (hard * unpaired_subjects(rules.block_subjects, grid, per_day)) as i64,
        subject_per_day_limits: (hard * week_cost(DayRule::DayLimits, rules, grid, per_day)) as i64,
        subject_holes: (hard * subject_breaks(grid, per_day)) as i64,
        teacher_extra_constraints: (hard * barred_lessons(rules.blacklists, grid, v.periods())) as i64,
        specific_subject_days: (hard * classes_without_day_off(
            rules.day_off_classes,
            rules.day_off_subjects,
            grid,
            per_day,
        )) as i64,
        teacher_shift_spread: (hard * misplaced_lessons(rules.shift_plans, grid, per_day, shift)) as i64,
        class_spread: (soft * week_cost(DayRule::Spread, rules, grid, per_day)) as i64,
        teacher_class_spread: (soft * teacher_week_cost(TeacherRule::Spread, rules, weeks, per_day)) as i64,
        teacher_holes: (soft * teacher_week_cost(TeacherRule::Holes, rules, weeks, per_day)) as i64,
        preferred_subject_times: (soft * week_cost(DayRule::Timing, rules, grid, per_day)) as i64,
        repeating_rooms: repeated_rooms(grid, v.periods()) as i32,
    }
}

impl Timetable {
    /// The violations of the hard rules in `shift`, times `multiplier`. A timetable is
    /// fit for use when this is 0 under a weight that is not.
    pub fn hard_points(&self, shift: Shift, multiplier: i32, rules: &Rules) -> (points: i64)
        requires
            self.shift_wf(shift),
            rules@.wf(),
        ensures
            points == multiplier * hard_total(self@, shift, rules@),
            0 <= hard_total(self@, shift, rules@) <= 9 * MAX_COST,
            -300_000_000_000_000_000 <= points <= 300_000_000_000_000_000,
    {
        let total = hard_repeating_teachers(self, shift) + hard_holes_in_class_timetable(self, shift)
            + hard_too_many_subjects_of_same_kind(self, shift, rules) + hard_block_classes(
            self,
            shift,
            rules,
        ) + hard_subject_per_day_limits(self, shift, rules) + hard_subject_holes(self, shift)
            + hard_teacher_extra_constraints(self, shift, rules) + hard_specific_subject_days(
            self,
            shift,
            rules,
        ) + hard_teacher_shift_spread(self, shift, rules);
        weighted(multiplier, total)
    }

    /// The violations of the soft rules in `shift`, times `multiplier`.
    pub fn soft_points(&self, shift: Shift, multiplier: i32, rules: &Rules) -> (points: i64)
        requires
            self.shift_wf(shift),
            rules@.wf(),
        ensures
            points == multiplier * soft_total(self@, shift, rules@),
            0 <= soft_total(self@, shift, rules@) <= 4 * MAX_COST,
            -300_000_000_000_000_000 <= points <= 300_000_000_000_000_000,
    {
        let teacher_table = class_table_to_teacher_table(
            self.table(shift),
            &self.data,
            self.max_periods_per_day,
        );
        let total = soft_class_spread(self, shift, rules) + soft_teacher_class_spread(
            self,
            &teacher_table,
            rules,
        ) + soft_holes_in_teacher_timetable(self, &teacher_table, rules)
            + soft_preferred_subject_times(self, shift, rules);
        weighted(multiplier, total)
    }

    /// The breakdown of one shift under the weights `hard` and `soft`. The two totals
    /// are the sums of the hard and of the soft rules of the breakdown.
    pub fn shift_cost(&self, shift: Shift, rules: &Rules, hard: i32, soft: i32) -> (cost: ShiftCost)
        requires
            self.shift_wf(shift),
            rules@.wf(),
        ensures
            cost == costs_of(self@, shift, rules@, hard, soft),
            cost.hard_points == cost.hard() == hard * hard_total(self@, shift, rules@),
            cost.soft_points == cost.soft() == soft * soft_total(self@, shift, rules@),
    {
        let teacher_table = class_table_to_teacher_table(
            self.table(shift),
            &self.data,
            self.max_periods_per_day,
        );
        let a = hard_repeating_teachers(self, shift);
        let b = hard_holes_in_class_timetable(self, shift);
        let c = hard_too_many_subjects_of_same_kind(self, shift, rules);
        let d = hard_block_classes(self, shift, rules);
        let e = hard_subject_per_day_limits(self, shift, rules);
        let f = hard_subject_holes(self, shift);
        let g = hard_teacher_extra_constraints(self, shift, rules);
        let g2 = hard_specific_subject_days(self, shift, rules);
        let g3 = hard_teacher_shift_spread(self, shift, rules);
        let h = soft_class_spread(self, shift, rules);
        let i = soft_teacher_class_spread(self, &teacher_table, rules);
        let j = soft_holes_in_teacher_timetable(self, &teacher_table, rules);
        let k = soft_preferred_subject_times(self, shift, rules);
        proof {
            assert(hard * (a + b + c + d + e + f + g + g2 + g3) == hard * a + hard * b + hard * c
                + hard * d + hard * e + hard * f + hard * g + hard * g2 + hard * g3)
                by (nonlinear_arith);
            assert(soft * (h + i + j + k) == soft * h + soft * i + soft * j + soft * k)
                by (nonlinear_arith);
        }
        ShiftCost {
            hard_points: weighted(hard, a + b + c + d + e + f + g + g2 + g3),
            soft_points: weighted(soft, h + i + j + k),
            repeating_teachers: weighted(hard, a),
            holes: weighted(hard, b),
            too_many_of_kind: weighted(hard, c),
            block_classes: weighted(hard, d),
            subject_per_day_limits: weighted(hard, e),
            subject_holes: weighted(hard, f),
            teacher_extra_constraints: weighted(hard, g),
            specific_subject_days: weighted(hard, g2),
            teacher_shift_spread: weighted(hard, g3),
            class_spread: weighted(soft, h),
            teacher_class_spread: weighted(soft, i),
            teacher_holes: weighted(soft, j),
            preferred_subject_times: weighted(soft, k),
            repeating_rooms: repeating_rooms(self, shift),
        }
    }

    /// The breakdown of the whole timetable: the first shift under the weights
    /// `hard_1` and `soft_1`, the second under `hard_2` and `soft_2`, and the count of
    /// the teachers who work both shifts of a day.
    pub fn detailed_cost(
        &self,
        rules: &Rules,
        hard_1: i32,
        soft_1: i32,
        hard_2: i32,
        soft_2: i32,
    ) -> (cost: DetailedCost)
        requires
            self.wf(),
            rules@.wf(),
        ensures
            cost.first == costs_of(self@, Shift::First, rules@, hard_1, soft_1),
            cost.second == costs_of(self@, Shift::Second, rules@, hard_2, soft_2),
            cost.first.hard_points == hard_1 * hard_total(self@, Shift::First, rules@),
            cost.first.soft_points == soft_1 * soft_total(self@, Shift::First, rules@),
            cost.second.hard_points == hard_2 * hard_total(self@, Shift::Second, rules@),
            cost.second.soft_points == soft_2 * soft_total(self@, Shift::Second, rules@),
            cost.teacher_shifts == shift_overlap(
                self@.first,
                self@.second,
                self@.max_periods_per_day as int,
                self@.data.teachers.len() as int,
            ),
    {
        DetailedCost {
            first: self.shift_cost(Shift::First, rules, hard_1, soft_1),
            second: self.shift_cost(Shift::Second, rules, hard_2, soft_2),
            teacher_shifts: teacher_shifts(
                &self.table1,
                &self.table2,
                self.max_periods_per_day,
                &self.data,
            ),
        }
    }
}

} // verus!
