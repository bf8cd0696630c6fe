use project_tomoyo::cost::{
    hard_block_classes, hard_repeating_teachers, hard_teacher_extra_constraints,
    hard_too_many_subjects_of_same_kind, repeating_rooms, teacher_shifts,
};
use project_tomoyo::days::{
    cost_of_week, hard_holes_in_class_timetable, hard_subject_holes, hard_subject_per_day_limits,
    soft_class_spread, soft_preferred_subject_times, DayRule,
};
use project_tomoyo::logic::{ClassSlots, Shift, Slot, SlotData, Timetable, TimetableData};
use project_tomoyo::plans::{hard_specific_subject_days, hard_teacher_shift_spread};
use project_tomoyo::rules::{
    Blacklist, DayLimit, Deviation, Rounding, Rules, ShiftPlan, SpreadPolicy, TimePreference,
};
use project_tomoyo::util::{
    class_table_to_teacher_table, cost_of_teachers, soft_holes_in_teacher_timetable,
    soft_teacher_class_spread, teacher_count_per_shift, ShiftLoad, TeacherRule, TeacherSlot,
};
use project_tomoyo::{Class, Relation, Room, Subject, Teacher};

fn school(classes: usize, teachers: usize, kinds: &[&str], rooms: &[&[&str]]) -> TimetableData {
    TimetableData {
        classes: (0..classes).map(|c| Class { name: format!("C{}", c) }).collect(),
        rooms: rooms
            .iter()
            .enumerate()
            .map(|(r, k)| Room {
                name: format!("R{}", r),
                kinds: k.iter().map(|s| s.to_string()).collect(),
            })
            .collect(),
        subjects: kinds
            .iter()
            .enumerate()
            .map(|(s, k)| Subject { name: format!("S{}", s), kind: k.to_string() })
            .collect(),
        teachers: (0..teachers).map(|t| Teacher { name: format!("T{}", t) }).collect(),
        relations: vec![],
    }
}

fn lesson(teacher: usize, subject: usize) -> SlotData {
    SlotData::PartiallyFilled { teacher, subject, room: None }
}

fn full(teacher: usize, subject: usize) -> Slot {
    Slot::Single(lesson(teacher, subject))
}

fn free() -> Slot {
    Slot::Single(SlotData::Empty)
}

fn pair(first: SlotData, second: SlotData) -> Slot {
    Slot::Double { first, second, before: 0, after: 0 }
}

/// A row of `5 * per_day` cells that starts with `cells` and is empty after them.
fn row(per_day: usize, cells: &[Slot]) -> Vec<Slot> {
    let mut slots = cells.to_vec();
    slots.resize(5 * per_day, free());
    slots
}

fn table(rows: Vec<Vec<Slot>>) -> Vec<ClassSlots> {
    rows.into_iter()
        .enumerate()
        .map(|(c, slots)| ClassSlots { class_index: c as u32, slots })
        .collect()
}

fn timetable(data: TimetableData, per_day: u32, rows: Vec<Vec<Slot>>) -> Timetable {
    Timetable::new(data, per_day, table(rows), vec![])
}

#[test]
fn holes_one_interior_hole_counts_once() {
    let cells = [full(0, 0), free(), full(0, 0), free(), free()];
    let t = timetable(school(1, 1, &["regular"], &[]), 5, vec![row(5, &cells)]);
    assert_eq!(hard_holes_in_class_timetable(&t, Shift::First), 1);
}

#[test]
fn holes_at_the_ends_of_a_day_do_not_count() {
    let cells = [free(), full(0, 0), full(0, 0), free(), free()];
    let t = timetable(school(1, 1, &["regular"], &[]), 5, vec![row(5, &cells)]);
    assert_eq!(hard_holes_in_class_timetable(&t, Shift::First), 0);
}

#[test]
fn holes_are_counted_day_by_day() {
    // Monday: lesson, hole, hole, lesson; Tuesday: lesson first, then nothing.
    let cells = [
        full(0, 0),
        free(),
        free(),
        full(0, 0),
        full(0, 0),
        free(),
        free(),
        free(),
    ];
    let t = timetable(school(1, 1, &["regular"], &[]), 4, vec![row(4, &cells)]);
    assert_eq!(hard_holes_in_class_timetable(&t, Shift::First), 2);
}

#[test]
fn holes_of_one_group_count() {
    // the second group is free while the first is taught: a hole between its lessons
    let cells = [full(0, 0), pair(lesson(0, 0), SlotData::Empty), full(0, 0)];
    let t = timetable(school(1, 1, &["regular"], &[]), 5, vec![row(5, &cells)]);
    assert_eq!(hard_holes_in_class_timetable(&t, Shift::First), 1);
    // a group that starts later or ends earlier has no hole
    let cells = [
        pair(lesson(0, 0), SlotData::Empty),
        pair(lesson(0, 0), SlotData::Empty),
        full(0, 0),
        pair(SlotData::Empty, lesson(0, 0)),
    ];
    let t = timetable(school(1, 1, &["regular"], &[]), 5, vec![row(5, &cells)]);
    assert_eq!(hard_holes_in_class_timetable(&t, Shift::First), 0);
}

#[test]
fn holes_count_a_period_once() {
    // period 1 is a hole for both groups, period 2 for the second only, period 4 for
    // the first only
    let cells = [
        full(0, 0),
        free(),
        pair(lesson(0, 0), SlotData::Empty),
        pair(lesson(0, 0), lesson(0, 0)),
        free(),
        pair(lesson(0, 0), SlotData::Empty),
    ];
    let t = timetable(school(1, 1, &["regular"], &[]), 6, vec![row(6, &cells)]);
    assert_eq!(hard_holes_in_class_timetable(&t, Shift::First), 3);
}

#[test]
fn holes_before_the_last_lesson_of_one_group() {
    // the free period before a block in which only the first group is taught is a
    // hole for the first group; the free period after it is none
    let cells = [full(0, 0), free(), pair(lesson(0, 0), SlotData::Empty), free()];
    let t = timetable(school(1, 1, &["regular"], &[]), 5, vec![row(5, &cells)]);
    assert_eq!(hard_holes_in_class_timetable(&t, Shift::First), 1);
}

#[test]
fn holes_of_an_empty_week_and_of_no_classes() {
    let t = timetable(school(1, 1, &["regular"], &[]), 5, vec![row(5, &[])]);
    assert_eq!(hard_holes_in_class_timetable(&t, Shift::First), 0);
    assert_eq!(hard_holes_in_class_timetable(&t, Shift::Second), 0);
}

#[test]
fn repeating_teachers_three_classes_one_teacher() {
    let rows = vec![row(1, &[full(0, 0)]), row(1, &[full(0, 0)]), row(1, &[full(0, 0)])];
    let t = timetable(school(3, 1, &["regular"], &[]), 1, rows);
    assert_eq!(hard_repeating_teachers(&t, Shift::First), 2);
}

#[test]
fn repeating_teachers_distinct_teachers_cost_nothing() {
    let rows = vec![row(1, &[full(0, 0)]), row(1, &[full(1, 0)]), row(1, &[free(), full(0, 0)])];
    let t = timetable(school(3, 2, &["regular"], &[]), 1, rows);
    assert_eq!(hard_repeating_teachers(&t, Shift::First), 0);
}

#[test]
fn repeating_teachers_within_a_block_and_across_periods() {
    let rows = vec![
        row(1, &[pair(lesson(0, 0), lesson(0, 0)), full(1, 0)]),
        row(1, &[pair(lesson(1, 0), lesson(0, 0)), full(1, 0)]),
    ];
    let t = timetable(school(2, 2, &["regular"], &[]), 1, rows);
    // period 0: teacher 0 three times (2 repeats); period 1: teacher 1 twice (1 repeat)
    assert_eq!(hard_repeating_teachers(&t, Shift::First), 3);
}

#[test]
fn repeating_rooms_counts_rooms_used_twice() {
    let in_room = |t: usize, r: usize| {
        Slot::Single(SlotData::PartiallyFilled { teacher: t, subject: 0, room: Some(r) })
    };
    let rows = vec![
        row(1, &[in_room(0, 3), in_room(0, 1)]),
        row(1, &[in_room(1, 3), full(1, 0)]),
        row(1, &[in_room(2, 3), in_room(2, 2)]),
    ];
    let t = timetable(school(3, 3, &["regular"], &[]), 1, rows);
    assert_eq!(repeating_rooms(&t, Shift::First), 2);
    assert_eq!(hard_repeating_teachers(&t, Shift::First), 0);
}

#[test]
fn overcapacity_four_lessons_three_rooms() {
    let rooms: [&[&str]; 4] = [&["computer"], &["computer"], &["computer"], &["regular"]];
    let data = school(4, 4, &["computer"], &rooms);
    let rows = (0..4).map(|c| row(1, &[full(c, 0)])).collect();
    let t = timetable(data, 1, rows);
    let mut rules = Rules::none();
    rules.capacity_kinds = vec!["computer".to_string()];
    assert_eq!(hard_too_many_subjects_of_same_kind(&t, Shift::First, &rules), 1);
}

#[test]
fn overcapacity_enough_rooms_cost_nothing() {
    let rooms: [&[&str]; 4] = [&["computer"], &["computer"], &["computer"], &["computer"]];
    let data = school(4, 4, &["computer"], &rooms);
    let rows = (0..4).map(|c| row(1, &[full(c, 0)])).collect();
    let t = timetable(data, 1, rows);
    let mut rules = Rules::none();
    rules.capacity_kinds = vec!["computer".to_string()];
    assert_eq!(hard_too_many_subjects_of_same_kind(&t, Shift::First, &rules), 0);
}

#[test]
fn overcapacity_counts_once_per_period_and_kind() {
    let rooms: [&[&str]; 1] = [&["computer"]];
    let data = school(3, 3, &["computer", "sala"], &rooms);
    // period 0: three computer lessons, one room; period 1: two sala lessons, no room
    let rows = vec![
        row(1, &[full(0, 0), full(0, 1)]),
        row(1, &[full(1, 0), full(1, 1)]),
        row(1, &[full(2, 0)]),
    ];
    let t = timetable(data, 1, rows);
    let mut rules = Rules::none();
    rules.capacity_kinds = vec!["computer".to_string(), "sala".to_string()];
    assert_eq!(hard_too_many_subjects_of_same_kind(&t, Shift::First, &rules), 2);
    // a kind that is not in the list is served all the same
    rules.capacity_kinds = vec!["computer".to_string()];
    assert_eq!(hard_too_many_subjects_of_same_kind(&t, Shift::First, &rules), 2);
    rules.capacity_kinds = vec![];
    assert_eq!(hard_too_many_subjects_of_same_kind(&t, Shift::First, &rules), 2);
}

#[test]
fn overcapacity_serves_unlisted_kinds_after_the_listed_ones() {
    let rooms: [&[&str]; 2] = [&["a", "ab"], &["ab"]];
    let data = school(2, 2, &["a", "ab"], &rooms);
    let rows = vec![row(1, &[full(0, 0)]), row(1, &[full(1, 1)])];
    let t = timetable(data, 1, rows);
    let mut rules = Rules::none();
    // none listed: the kinds come in the order of the subjects, "a" before "ab"
    assert_eq!(hard_too_many_subjects_of_same_kind(&t, Shift::First, &rules), 0);
    // "ab" listed: it takes the first room, and "a", which comes after, finds none
    rules.capacity_kinds = vec!["ab".to_string()];
    assert_eq!(hard_too_many_subjects_of_same_kind(&t, Shift::First, &rules), 1);
    // "a" listed: "ab" comes after it and finds the second room
    rules.capacity_kinds = vec!["a".to_string()];
    assert_eq!(hard_too_many_subjects_of_same_kind(&t, Shift::First, &rules), 0);
}

#[test]
fn overcapacity_serves_a_kind_of_several_subjects_once() {
    let rooms: [&[&str]; 1] = [&["lab"]];
    let data = school(2, 2, &["lab", "lab"], &rooms);
    let rows = vec![row(1, &[full(0, 0)]), row(1, &[full(1, 1)])];
    let t = timetable(data, 1, rows);
    assert_eq!(hard_too_many_subjects_of_same_kind(&t, Shift::First, &Rules::none()), 1);
}

#[test]
fn overcapacity_depends_on_the_order_of_kinds() {
    let rooms: [&[&str]; 2] = [&["a", "ab"], &["ab"]];
    let data = school(2, 2, &["a", "ab"], &rooms);
    let rows = vec![row(1, &[full(0, 0)]), row(1, &[full(1, 1)])];
    let t = timetable(data, 1, rows);
    let mut rules = Rules::none();
    rules.capacity_kinds = vec!["a".to_string(), "ab".to_string()];
    assert_eq!(hard_too_many_subjects_of_same_kind(&t, Shift::First, &rules), 0);
    rules.capacity_kinds = vec!["ab".to_string(), "a".to_string()];
    assert_eq!(hard_too_many_subjects_of_same_kind(&t, Shift::First, &rules), 1);
}

#[test]
fn block_subjects_want_two_periods_in_a_row() {
    let mut rules = Rules::none();
    rules.block_subjects = vec![0];
    let data = || school(1, 1, &["regular", "regular"], &[]);
    // never in a row
    let apart = [full(0, 0), full(0, 1), full(0, 0)];
    let t = timetable(data(), 5, vec![row(5, &apart)]);
    assert_eq!(hard_block_classes(&t, Shift::First, &rules), 1);
    // in a row
    let paired = [full(0, 0), full(0, 0), full(0, 1)];
    let t = timetable(data(), 5, vec![row(5, &paired)]);
    assert_eq!(hard_block_classes(&t, Shift::First, &rules), 0);
    // not taught at all
    let absent = [full(0, 1), full(0, 1)];
    let t = timetable(data(), 5, vec![row(5, &absent)]);
    assert_eq!(hard_block_classes(&t, Shift::First, &rules), 0);
    // the last period of a day and the first of the next are not in a row
    let over_night = [free(), free(), free(), free(), full(0, 0), full(0, 0)];
    let t = timetable(data(), 5, vec![row(5, &over_night)]);
    assert_eq!(hard_block_classes(&t, Shift::First, &rules), 1);
    // no subject listed, nothing asked
    assert_eq!(hard_block_classes(&t, Shift::First, &Rules::none()), 0);
}

#[test]
fn day_limits_count_class_days_over_the_limit() {
    let mut rules = Rules::none();
    rules.day_limits = vec![DayLimit { subject: 0, max_per_day: 2 }];
    let data = || school(2, 1, &["regular", "regular"], &[]);
    let three = [full(0, 0), full(0, 0), full(0, 0), full(0, 1)];
    let two = [full(0, 0), full(0, 0), full(0, 1), full(0, 1), full(0, 1)];
    let t = timetable(data(), 5, vec![row(5, &three), row(5, &two)]);
    assert_eq!(hard_subject_per_day_limits(&t, Shift::First, &rules), 1);
    rules.day_limits = vec![
        DayLimit { subject: 0, max_per_day: 1 },
        DayLimit { subject: 1, max_per_day: 2 },
    ];
    // class 0: subject 0 three times; class 1: subject 0 twice and subject 1 three times
    assert_eq!(hard_subject_per_day_limits(&t, Shift::First, &rules), 3);
    assert_eq!(cost_of_week(&t, Shift::First, &rules, DayRule::DayLimits), 3);
}

#[test]
fn subject_holes_count_comebacks() {
    let data = || school(1, 1, &["regular", "regular", "regular"], &[]);
    let back = [full(0, 0), full(0, 1), full(0, 0)];
    let t = timetable(data(), 5, vec![row(5, &back)]);
    assert_eq!(hard_subject_holes(&t, Shift::First), 1);
    let together = [full(0, 0), full(0, 0), full(0, 1)];
    let t = timetable(data(), 5, vec![row(5, &together)]);
    assert_eq!(hard_subject_holes(&t, Shift::First), 0);
    // a free period between two lessons of a subject is a hole, not a comeback
    let gap = [full(0, 0), free(), full(0, 0)];
    let t = timetable(data(), 5, vec![row(5, &gap)]);
    assert_eq!(hard_subject_holes(&t, Shift::First), 0);
    // every comeback counts
    let twice = [full(0, 0), full(0, 1), full(0, 0), full(0, 1), full(0, 2)];
    let t = timetable(data(), 5, vec![row(5, &twice)]);
    assert_eq!(hard_subject_holes(&t, Shift::First), 2);
    // the next day starts afresh
    let next_day = [free(), free(), free(), full(0, 0), full(0, 1), full(0, 0)];
    let t = timetable(data(), 5, vec![row(5, &next_day)]);
    assert_eq!(hard_subject_holes(&t, Shift::First), 0);
}

#[test]
fn barred_periods_count_every_lesson_in_them() {
    let mut rules = Rules::none();
    rules.blacklists = vec![Blacklist { teacher: 0, periods: vec![0, 3] }];
    let cells = [full(0, 0), full(0, 0), full(1, 0), pair(lesson(0, 0), lesson(1, 0))];
    let t = timetable(school(1, 2, &["regular"], &[]), 1, vec![row(1, &cells)]);
    assert_eq!(hard_teacher_extra_constraints(&t, Shift::First, &rules), 2);
    rules.blacklists.push(Blacklist { teacher: 1, periods: vec![2, 3, 4] });
    assert_eq!(hard_teacher_extra_constraints(&t, Shift::First, &rules), 4);
    assert_eq!(hard_teacher_extra_constraints(&t, Shift::First, &Rules::none()), 0);
}

#[test]
fn teacher_shifts_count_teachers_in_both_shifts_of_a_day() {
    let data = school(2, 3, &["regular"], &[]);
    // per day 2 periods: Monday is periods 0 and 1, Tuesday 2 and 3
    let first = table(vec![row(2, &[full(0, 0), full(1, 0), full(2, 0)]), row(2, &[])]);
    let second = table(vec![row(2, &[free(), full(0, 0), free(), full(1, 0)]), row(2, &[])]);
    // teacher 0: Monday in both; teacher 1: Monday first shift, Tuesday second;
    // teacher 2: Tuesday first shift only
    assert_eq!(teacher_shifts(&first, &second, 2, &data), 1);
    let second = table(vec![
        row(2, &[pair(lesson(1, 0), lesson(0, 0)), free(), full(2, 0)]),
        row(2, &[full(0, 0)]),
    ]);
    // Monday: teachers 0 and 1; Tuesday: teacher 2
    assert_eq!(teacher_shifts(&first, &second, 2, &data), 3);
    assert_eq!(teacher_shifts(&first, &vec![], 2, &data), 0);
}

#[test]
fn class_spread_follows_the_policy() {
    // 5 lessons a week: 3 on Monday, 1 on Tuesday, 1 on Wednesday
    let cells = [
        full(0, 0),
        full(0, 0),
        full(0, 0),
        full(0, 0),
        free(),
        free(),
        full(0, 0),
    ];
    let t = timetable(school(2, 1, &["regular"], &[]), 3, vec![row(3, &cells), row(3, &[])]);
    let mut rules = Rules::none();
    assert_eq!(soft_class_spread(&t, Shift::First, &rules), 0);
    rules.class_spread =
        Some(SpreadPolicy { rounding: Rounding::Floor, deviation: Deviation::Above });
    assert_eq!(soft_class_spread(&t, Shift::First, &rules), 1);
    rules.class_spread =
        Some(SpreadPolicy { rounding: Rounding::Floor, deviation: Deviation::Either });
    assert_eq!(soft_class_spread(&t, Shift::First, &rules), 3);
    assert_eq!(cost_of_week(&t, Shift::First, &rules, DayRule::Spread), 3);
}

#[test]
fn class_spread_rounds_the_ideal_down_or_up() {
    // 6 lessons a week, 2 each on Monday, Tuesday, Wednesday: a fifth is 1.2
    let cells = [
        full(0, 0),
        full(0, 0),
        full(0, 0),
        full(0, 0),
        full(0, 0),
        full(0, 0),
    ];
    let t = timetable(school(1, 1, &["regular"], &[]), 2, vec![row(2, &cells)]);
    let mut rules = Rules::none();
    rules.class_spread =
        Some(SpreadPolicy { rounding: Rounding::Floor, deviation: Deviation::Above });
    assert_eq!(soft_class_spread(&t, Shift::First, &rules), 3);
    rules.class_spread =
        Some(SpreadPolicy { rounding: Rounding::Ceil, deviation: Deviation::Above });
    assert_eq!(soft_class_spread(&t, Shift::First, &rules), 0);
    rules.class_spread =
        Some(SpreadPolicy { rounding: Rounding::Ceil, deviation: Deviation::Either });
    assert_eq!(soft_class_spread(&t, Shift::First, &rules), 2);
}

#[test]
fn class_spread_looks_at_each_group() {
    // 5 cells with lessons; on Monday the first group has 2 lessons, the second 1
    let cells = [
        pair(lesson(0, 0), lesson(0, 0)),
        pair(lesson(0, 0), SlotData::Empty),
        full(0, 0),
        free(),
        full(0, 0),
        free(),
        full(0, 0),
    ];
    let t = timetable(school(1, 1, &["regular"], &[]), 2, vec![row(2, &cells)]);
    let mut rules = Rules::none();
    rules.class_spread =
        Some(SpreadPolicy { rounding: Rounding::Floor, deviation: Deviation::Above });
    assert_eq!(soft_class_spread(&t, Shift::First, &rules), 1);
}

#[test]
fn preferred_times_count_late_lessons() {
    let mut rules = Rules::none();
    rules.time_preferences = vec![TimePreference { subject: 0, not_from: 3 }];
    let cells = [
        free(),
        free(),
        full(0, 0),
        full(0, 0),
        full(0, 0),
        full(0, 1),
        free(),
        free(),
        full(0, 1),
        full(0, 0),
    ];
    let t = timetable(school(1, 1, &["regular", "regular"], &[]), 5, vec![row(5, &cells)]);
    assert_eq!(soft_preferred_subject_times(&t, Shift::First, &rules), 3);
    rules.time_preferences.push(TimePreference { subject: 1, not_from: 0 });
    assert_eq!(soft_preferred_subject_times(&t, Shift::First, &rules), 5);
    // two entries for one subject do not count a lesson twice
    rules.time_preferences.push(TimePreference { subject: 0, not_from: 4 });
    assert_eq!(soft_preferred_subject_times(&t, Shift::First, &rules), 5);
}

#[test]
fn teacher_table_follows_the_classes() {
    let data = school(2, 3, &["regular", "regular"], &[]);
    let classes = table(vec![
        row(1, &[full(0, 1), pair(lesson(1, 0), lesson(2, 1))]),
        row(1, &[full(0, 0), free(), full(1, 1)]),
    ]);
    let teachers = class_table_to_teacher_table(&classes, &data, 1);
    assert_eq!(teachers.len(), 3);
    let lesson_with = |class: usize, subject: usize| TeacherSlot::PartiallyFilled { class, subject };
    // where two classes have a teacher at once, the later class shows
    assert_eq!(
        teachers[0].slots,
        vec![
            lesson_with(1, 0),
            TeacherSlot::Empty,
            TeacherSlot::Empty,
            TeacherSlot::Empty,
            TeacherSlot::Empty
        ]
    );
    assert_eq!(
        teachers[1].slots,
        vec![
            TeacherSlot::Empty,
            lesson_with(0, 0),
            lesson_with(1, 1),
            TeacherSlot::Empty,
            TeacherSlot::Empty
        ]
    );
    assert_eq!(teachers[2].slots[1], lesson_with(0, 1));
}

#[test]
fn teacher_table_of_a_block_with_one_teacher_shows_the_second_group() {
    let data = school(1, 1, &["regular", "regular"], &[]);
    let classes = table(vec![row(1, &[pair(lesson(0, 0), lesson(0, 1))])]);
    let teachers = class_table_to_teacher_table(&classes, &data, 1);
    assert_eq!(teachers[0].slots[0], TeacherSlot::PartiallyFilled { class: 0, subject: 1 });
}

#[test]
fn teacher_days_too_full_or_with_one_lesson() {
    let data = school(1, 2, &["regular"], &[]);
    // teacher 0: Monday 3 lessons, Tuesday 1, Wednesday 2; teacher 1: nothing
    let cells = [
        full(0, 0),
        full(0, 0),
        full(0, 0),
        full(0, 0),
        free(),
        free(),
        full(0, 0),
        free(),
        full(0, 0),
    ];
    let t = timetable(data, 3, vec![row(3, &cells)]);
    let teachers = class_table_to_teacher_table(&t.table1, &t.data, 3);
    let mut rules = Rules::none();
    assert_eq!(soft_teacher_class_spread(&t, &teachers, &rules), 0);
    rules.teacher_day_max = Some(3);
    assert_eq!(soft_teacher_class_spread(&t, &teachers, &rules), 2);
    rules.teacher_day_max = Some(2);
    assert_eq!(soft_teacher_class_spread(&t, &teachers, &rules), 3);
    assert_eq!(cost_of_teachers(&t, &teachers, &rules, TeacherRule::Spread), 3);
}

#[test]
fn teacher_days_with_too_many_free_periods() {
    let data = school(1, 2, &["regular"], &[]);
    // teacher 0: Monday lessons in periods 0 and 3; Tuesday in 0 and 2; teacher 1: Monday 1 and 2
    let cells = [
        full(0, 0),
        full(1, 0),
        full(1, 0),
        full(0, 0),
        full(0, 0),
        free(),
        full(0, 0),
    ];
    let t = timetable(data, 4, vec![row(4, &cells)]);
    let teachers = class_table_to_teacher_table(&t.table1, &t.data, 4);
    let mut rules = Rules::none();
    rules.teacher_gap_tolerance = 1;
    assert_eq!(soft_holes_in_teacher_timetable(&t, &teachers, &rules), 1);
    rules.teacher_gap_tolerance = 0;
    assert_eq!(soft_holes_in_teacher_timetable(&t, &teachers, &rules), 2);
    rules.teacher_gap_tolerance = 2;
    assert_eq!(soft_holes_in_teacher_timetable(&t, &teachers, &rules), 0);
}

#[test]
fn teacher_loads_add_up_by_shift() {
    let mut data = school(2, 3, &["regular"], &[]);
    let ask = |shift: i32, teacher: usize, first: u32, second: Option<u32>| Relation {
        shift,
        teacher,
        subject: 0,
        class: 0,
        per_week_first: first,
        per_week_second: second,
    };
    data.relations = vec![
        ask(1, 0, 3, None),
        ask(2, 0, 2, Some(2)),
        ask(1, 1, 4, Some(1)),
        ask(1, 0, 1, None),
        ask(7, 2, 5, None),
    ];
    let t = Timetable::new(data, 5, vec![], vec![]);
    assert_eq!(
        teacher_count_per_shift(&t),
        vec![
            ShiftLoad { first: 4, second: 4 },
            ShiftLoad { first: 5, second: 0 },
            ShiftLoad { first: 0, second: 0 }
        ]
    );
}

#[test]
fn points_weigh_and_add_the_rules() {
    let rooms: [&[&str]; 1] = [&["regular"]];
    let data = school(2, 2, &["regular"], &rooms);
    // class 0, Monday: lesson, hole, lesson (teacher 0); class 1, Monday: teacher 0 at once
    let rows = vec![
        row(3, &[full(0, 0), free(), full(0, 0)]),
        row(3, &[full(0, 0), full(1, 0), full(1, 0)]),
    ];
    let t = timetable(data, 3, rows);
    let mut rules = Rules::none();
    rules.capacity_kinds = vec!["regular".to_string()];
    rules.teacher_gap_tolerance = 0;
    rules.teacher_day_max = Some(3);
    // hard: 1 repeated teacher, 1 hole, 2 periods short of rooms
    assert_eq!(t.hard_points(Shift::First, 1, &rules), 4);
    assert_eq!(t.hard_points(Shift::First, 3, &rules), 12);
    assert_eq!(t.hard_points(Shift::First, -2, &rules), -8);
    assert_eq!(t.hard_points(Shift::Second, 3, &rules), 0);
    // soft: teacher 0 has a free period between lessons
    assert_eq!(t.soft_points(Shift::First, 1, &rules), 1);
    assert_eq!(t.soft_points(Shift::First, 5, &rules), 5);
    let cost = t.detailed_cost(&rules, 2, 5, 1, 1);
    assert_eq!(cost.first.hard_points, 8);
    assert_eq!(cost.first.soft_points, 5);
    assert_eq!(cost.second.hard_points, 0);
    assert_eq!(cost.second.soft_points, 0);
    assert_eq!(cost.first.repeating_teachers, 2);
    assert_eq!(cost.first.holes, 2);
    assert_eq!(cost.first.too_many_of_kind, 4);
    assert_eq!(cost.first.block_classes, 0);
    assert_eq!(cost.first.subject_per_day_limits, 0);
    assert_eq!(cost.first.subject_holes, 0);
    assert_eq!(cost.first.teacher_extra_constraints, 0);
    assert_eq!(cost.first.specific_subject_days, 0);
    assert_eq!(cost.first.teacher_shift_spread, 0);
    assert_eq!(cost.first.class_spread, 0);
    assert_eq!(cost.first.teacher_class_spread, 0);
    assert_eq!(cost.first.teacher_holes, 5);
    assert_eq!(cost.first.preferred_subject_times, 0);
    assert_eq!(cost.first.repeating_rooms, 0);
    assert_eq!(cost.second.holes, 0);
    assert_eq!(cost.teacher_shifts, 0);
    assert_eq!(t.shift_cost(Shift::First, &rules, 2, 5), cost.first);
}

#[test]
fn points_count_every_hard_rule() {
    let rooms: [&[&str]; 1] = [&["regular"]];
    let data = school(1, 1, &["regular"], &rooms);
    // the class has subject 0 on every day, always with teacher 0
    let cells = [full(0, 0), free(), full(0, 0), free(), full(0, 0), free(), full(0, 0), free(), full(0, 0)];
    let t = timetable(data, 2, vec![row(2, &cells)]);
    let mut rules = Rules::none();
    assert_eq!(t.hard_points(Shift::First, 1, &rules), 0);
    rules.day_off_classes = vec![0];
    rules.day_off_subjects = vec![0];
    assert_eq!(t.hard_points(Shift::First, 1, &rules), 1);
    rules.shift_plans = vec![ShiftPlan { teacher: 0, days: vec![2, 2, 1, 1, 1] }];
    assert_eq!(t.hard_points(Shift::First, 1, &rules), 3);
    rules.blacklists = vec![Blacklist { teacher: 0, periods: vec![8] }];
    assert_eq!(t.hard_points(Shift::First, 10, &rules), 40);
    let cost = t.shift_cost(Shift::First, &rules, 10, 0);
    assert_eq!(cost.specific_subject_days, 10);
    assert_eq!(cost.teacher_shift_spread, 20);
    assert_eq!(cost.teacher_extra_constraints, 10);
}

#[test]
fn shift_plans_count_lessons_in_the_other_shift() {
    let data = || school(1, 2, &["regular"], &[]);
    // teacher 0: Monday period 0, Wednesday both periods, Friday period 0
    let cells = [
        full(0, 0),
        full(1, 0),
        free(),
        free(),
        full(0, 0),
        pair(lesson(0, 0), lesson(1, 0)),
        free(),
        free(),
        full(0, 0),
    ];
    let mut rules = Rules::none();
    let first = timetable(data(), 2, vec![row(2, &cells)]);
    let second = Timetable::new(data(), 2, vec![], table(vec![row(2, &cells)]));
    assert_eq!(hard_teacher_shift_spread(&first, Shift::First, &rules), 0);
    rules.shift_plans = vec![ShiftPlan { teacher: 0, days: vec![1, 1, 2, 2, 3] }];
    assert_eq!(hard_teacher_shift_spread(&first, Shift::First, &rules), 2);
    assert_eq!(hard_teacher_shift_spread(&second, Shift::Second, &rules), 1);
    assert_eq!(hard_teacher_shift_spread(&second, Shift::First, &rules), 0);
    // a plan for Monday only
    rules.shift_plans = vec![ShiftPlan { teacher: 1, days: vec![2] }];
    assert_eq!(hard_teacher_shift_spread(&first, Shift::First, &rules), 1);
    assert_eq!(hard_teacher_shift_spread(&second, Shift::Second, &rules), 0);
    // both plans
    rules.shift_plans.push(ShiftPlan { teacher: 0, days: vec![1, 1, 2, 2, 3] });
    assert_eq!(hard_teacher_shift_spread(&first, Shift::First, &rules), 3);
}

#[test]
fn days_off_count_classes_that_have_none() {
    let data = school(3, 1, &["regular", "regular", "regular"], &[]);
    let every_day = [full(0, 0), free(), full(0, 1), full(0, 1), full(0, 0), free(), free(), full(0, 1), full(0, 0)];
    let four_days = [full(0, 0), free(), full(0, 0), full(0, 1), full(0, 0), free(), free(), full(0, 2), full(0, 0)];
    let in_blocks = [
        pair(lesson(0, 0), lesson(0, 0)),
        free(),
        full(0, 0),
        free(),
        full(0, 0),
        free(),
        full(0, 0),
        free(),
        full(0, 0),
    ];
    let t = timetable(data, 2, vec![row(2, &every_day), row(2, &four_days), row(2, &in_blocks)]);
    let mut rules = Rules::none();
    rules.day_off_subjects = vec![0, 1];
    assert_eq!(hard_specific_subject_days(&t, Shift::First, &rules), 0);
    rules.day_off_classes = vec![0];
    assert_eq!(hard_specific_subject_days(&t, Shift::First, &rules), 1);
    // class 1 has Thursday off; the lessons of class 2 on Monday are not for the whole
    // class; class 7 has no row
    rules.day_off_classes = vec![1, 0, 2, 7];
    assert_eq!(hard_specific_subject_days(&t, Shift::First, &rules), 1);
    rules.day_off_subjects = vec![0, 1, 2];
    assert_eq!(hard_specific_subject_days(&t, Shift::First, &rules), 2);
    rules.day_off_subjects = vec![];
    assert_eq!(hard_specific_subject_days(&t, Shift::First, &rules), 0);
    assert_eq!(hard_specific_subject_days(&t, Shift::Second, &rules), 0);
}

#[test]
fn shift_numbers() {
    assert_eq!(Shift::First.to_i32(), 1);
    assert_eq!(Shift::Second.to_i32(), 2);
    assert_eq!(Shift::from_i32(1), Shift::First);
    assert_eq!(Shift::from_i32(2), Shift::Second);
    assert!(Shift::Second.equals(2));
    assert!(!Shift::Second.equals(1));
    assert!(!Shift::First.equals(0));
}

#[test]
fn timetable_hands_out_the_table_of_a_shift() {
    let data = school(1, 1, &["regular"], &[]);
    let first = table(vec![row(1, &[full(0, 0)])]);
    let second = table(vec![row(1, &[free(), full(0, 0)])]);
    let mut t = Timetable::new(data, 1, first, second);
    assert_eq!(t.max_periods_per_day, 1);
    assert_eq!(t.table(Shift::First)[0].slots[0], full(0, 0));
    assert_eq!(t.table(Shift::Second)[0].slots[0], free());
    t.table_mut(Shift::Second)[0].slots[0] = full(0, 0);
    assert_eq!(t.table2[0].slots[0], full(0, 0));
    assert_eq!(t.table1[0].slots[1], free());
    let copy = t.clone();
    assert_eq!(copy.table2[0].slots, t.table2[0].slots);
    assert_eq!(copy.data.classes[0].name, "C0");
}
