use project_tomoyo::logic::{ClassSlots, Shift, Slot, SlotData, Timetable, TimetableData};
use project_tomoyo::rules::{DayLimit, Rules};
use project_tomoyo::{Class, Relation, Subject, Teacher};

fn school(classes: usize, teachers: usize, subjects: usize) -> TimetableData {
    TimetableData {
        classes: (0..classes).map(|c| Class { name: format!("C{}", c) }).collect(),
        rooms: vec![],
        subjects: (0..subjects)
            .map(|s| Subject { name: format!("S{}", s), kind: "regular".to_string() })
            .collect(),
        teachers: (0..teachers).map(|t| Teacher { name: format!("T{}", t) }).collect(),
        relations: vec![],
    }
}

fn lesson(teacher: usize, subject: usize) -> SlotData {
    SlotData::PartiallyFilled { teacher, subject, room: Some(40) }
}

fn free() -> Slot {
    Slot::Single(SlotData::Empty)
}

fn cell(before: u32, after: u32) -> Slot {
    Slot::Double { first: lesson(0, 0), second: SlotData::Empty, before, after }
}

fn one_row(per_day: u32, cells: &[Slot]) -> Timetable {
    let mut slots = cells.to_vec();
    slots.resize(5 * per_day as usize, free());
    let table = vec![ClassSlots { class_index: 0, slots }];
    Timetable::new(school(1, 2, 2), per_day, table, vec![])
}

#[test]
fn well_formed_timetables() {
    assert!(Timetable::new(school(0, 0, 0), 7, vec![], vec![]).is_well_formed());
    assert!(Timetable::new(school(3, 2, 2), 0, vec![], vec![]).is_well_formed());
    assert!(one_row(2, &[]).is_well_formed());
    assert!(one_row(2, &[Slot::Single(lesson(1, 1)), cell(0, 0), cell(0, 2), cell(1, 1), cell(2, 0)])
        .is_well_formed());
    // a block may fill the week
    let week: Vec<Slot> = (0..10).map(|j| cell(j, 9 - j)).collect();
    assert!(one_row(2, &week).is_well_formed());
    assert!(one_row(100, &[]).is_well_formed());
}

#[test]
fn tables_that_do_not_fit_the_week() {
    // a day too long
    assert!(!Timetable::new(school(0, 0, 0), 101, vec![], vec![]).is_well_formed());
    // a row too short, and one too long
    let mut t = one_row(2, &[]);
    t.table1[0].slots.pop();
    assert!(!t.is_well_formed());
    let mut t = one_row(2, &[]);
    t.table1[0].slots.push(free());
    assert!(!t.is_well_formed());
    // a row that carries another class's number
    let mut t = one_row(2, &[]);
    t.table1[0].class_index = 1;
    assert!(!t.is_well_formed());
    // more rows than classes
    let mut t = one_row(2, &[]);
    t.table1.push(ClassSlots { class_index: 1, slots: vec![free(); 10] });
    assert!(!t.is_well_formed());
    // the second table counts as the first does
    let mut t = one_row(2, &[]);
    t.table2.push(ClassSlots { class_index: 0, slots: vec![free(); 9] });
    assert!(!t.is_well_formed());
    t.table2[0].slots.push(free());
    assert!(t.is_well_formed());
}

#[test]
fn lessons_of_teachers_and_subjects_that_do_not_exist() {
    assert!(one_row(2, &[Slot::Single(lesson(1, 1))]).is_well_formed());
    assert!(!one_row(2, &[Slot::Single(lesson(2, 1))]).is_well_formed());
    assert!(!one_row(2, &[Slot::Single(lesson(1, 2))]).is_well_formed());
    let second = Slot::Double { first: SlotData::Empty, second: lesson(0, 2), before: 0, after: 0 };
    assert!(!one_row(2, &[free(), second]).is_well_formed());
    let first = Slot::Double { first: lesson(2, 0), second: SlotData::Empty, before: 0, after: 0 };
    assert!(!one_row(2, &[free(), free(), first]).is_well_formed());
}

#[test]
fn blocks_that_are_not_whole() {
    // a block that begins before the week, and one that ends after it
    assert!(!one_row(2, &[cell(1, 0)]).is_well_formed());
    let mut end = vec![free(); 9];
    end.push(cell(0, 1));
    assert!(!one_row(2, &end).is_well_formed());
    // a block with a single cell in it
    assert!(!one_row(2, &[cell(0, 2), free(), cell(2, 0)]).is_well_formed());
    // cells that disagree on the length of their block
    assert!(!one_row(2, &[cell(0, 1), cell(1, 1), cell(2, 0)]).is_well_formed());
    assert!(!one_row(2, &[cell(0, 1), cell(0, 0)]).is_well_formed());
    // cells that disagree on where their block begins
    assert!(!one_row(2, &[cell(0, 2), cell(0, 1), cell(1, 0)]).is_well_formed());
    assert!(one_row(2, &[cell(0, 0), cell(0, 1), cell(1, 0)]).is_well_formed());
}

#[test]
fn requirements_that_name_what_does_not_exist() {
    let ask = |teacher: usize, subject: usize, class: usize| Relation {
        shift: 1,
        teacher,
        subject,
        class,
        per_week_first: 1,
        per_week_second: None,
    };
    let mut data = school(2, 3, 4);
    assert!(data.is_well_formed());
    data.relations = vec![ask(2, 3, 1), ask(0, 0, 0)];
    assert!(data.is_well_formed());
    data.relations.push(ask(3, 0, 0));
    assert!(!data.is_well_formed());
    data.relations[2] = ask(0, 4, 0);
    assert!(!data.is_well_formed());
    data.relations[2] = ask(0, 0, 2);
    assert!(!data.is_well_formed());
    assert!(!Timetable::new(data, 7, vec![], vec![]).is_well_formed());
    // too many classes to count over
    assert!(school(10_000, 0, 0).is_well_formed());
    assert!(!school(10_001, 0, 0).is_well_formed());
    assert!(!school(0, 10_001, 0).is_well_formed());
    assert!(school(0, 0, 10_000).is_well_formed());
    assert!(!school(0, 0, 10_001).is_well_formed());
}

#[test]
fn well_formed_in_one_shift_only() {
    let good = vec![ClassSlots { class_index: 0, slots: vec![free(); 10] }];
    let short = vec![ClassSlots { class_index: 0, slots: vec![free(); 9] }];
    let misnumbered = vec![ClassSlots { class_index: 1, slots: vec![free(); 10] }];
    let t = Timetable::new(school(1, 2, 2), 2, good.clone(), short.clone());
    assert!(t.is_frame_well_formed());
    assert!(t.is_well_formed_in(Shift::First));
    assert!(!t.is_well_formed_in(Shift::Second));
    assert!(!t.is_well_formed());
    let t = Timetable::new(school(1, 2, 2), 2, misnumbered, good.clone());
    assert!(!t.is_well_formed_in(Shift::First));
    assert!(t.is_well_formed_in(Shift::Second));
    assert!(!t.is_well_formed());
    let t = Timetable::new(school(1, 2, 2), 2, good.clone(), good.clone());
    assert!(t.is_well_formed_in(Shift::First) && t.is_well_formed_in(Shift::Second));
    assert!(t.is_well_formed());
    // a frame that is not well-formed spoils both shifts
    let t = Timetable::new(school(1, 2, 2), 101, vec![], vec![]);
    assert!(!t.is_frame_well_formed());
    assert!(!t.is_well_formed_in(Shift::First) && !t.is_well_formed_in(Shift::Second));
    let mut data = school(1, 2, 2);
    data.relations = vec![Relation {
        shift: 1,
        teacher: 2,
        subject: 0,
        class: 0,
        per_week_first: 1,
        per_week_second: None,
    }];
    let t = Timetable::new(data, 2, good.clone(), good);
    assert!(!t.is_frame_well_formed());
    assert!(!t.is_well_formed_in(Shift::First));
}

#[test]
fn rules_with_lists_too_long() {
    let mut rules = Rules::none();
    assert!(rules.is_well_formed());
    assert!(rules.capacity_kinds.is_empty() && rules.room_kinds.is_empty());
    assert!(rules.room_overrides.is_empty() && rules.blacklists.is_empty());
    assert!(rules.block_subjects.is_empty() && rules.time_preferences.is_empty());
    assert!(rules.shift_plans.is_empty() && rules.day_off_classes.is_empty());
    assert!(rules.day_off_subjects.is_empty() && rules.day_limits.is_empty());
    assert_eq!(rules.class_spread, None);
    assert_eq!(rules.teacher_day_max, None);
    assert_eq!(rules.teacher_gap_tolerance, 0);
    rules.day_limits = vec![DayLimit { subject: 0, max_per_day: 1 }; 100];
    assert!(rules.is_well_formed());
    rules.day_limits.push(DayLimit { subject: 0, max_per_day: 1 });
    assert!(!rules.is_well_formed());
    let mut rules = Rules::none();
    rules.capacity_kinds = vec!["regular".to_string(); 101];
    assert!(!rules.is_well_formed());
    let mut rules = Rules::none();
    rules.block_subjects = vec![3; 101];
    assert!(!rules.is_well_formed());
    // the order of serving may be as long as it likes
    let mut rules = Rules::none();
    rules.room_kinds = vec!["regular".to_string(); 500];
    assert!(rules.is_well_formed());
}
