use project_tomoyo::logic::{ClassSlots, Shift, Slot, SlotData, Timetable, TimetableData};
use project_tomoyo::rules::Rules;
use project_tomoyo::{Class, Relation, Subject, Teacher};

fn school(classes: usize, teachers: usize, subjects: usize, relations: Vec<Relation>) -> TimetableData {
    TimetableData {
        classes: (0..classes).map(|c| Class { name: format!("C{}", c) }).collect(),
        rooms: vec![],
        subjects: (0..subjects)
            .map(|s| Subject { name: format!("S{}", s), kind: "regular".to_string() })
            .collect(),
        teachers: (0..teachers).map(|t| Teacher { name: format!("T{}", t) }).collect(),
        relations,
    }
}

fn ask(shift: i32, class: usize, teacher: usize, subject: usize, first: u32, second: Option<u32>) -> Relation {
    Relation { shift, teacher, subject, class, per_week_first: first, per_week_second: second }
}

fn lesson(teacher: usize, subject: usize) -> SlotData {
    SlotData::PartiallyFilled { teacher, subject, room: None }
}

fn full(teacher: usize, subject: usize) -> Slot {
    Slot::Single(lesson(teacher, subject))
}

fn free() -> Slot {
    Slot::Single(SlotData::Empty)
}

fn block(first: SlotData, second: SlotData, len: u32) -> Vec<Slot> {
    (0..len).map(|j| Slot::Double { first, second, before: j, after: len - j - 1 }).collect()
}

/// Whether every cell of a block knows the whole block.
fn blocks_intact(row: &[Slot]) -> bool {
    row.iter().enumerate().all(|(i, slot)| match slot {
        Slot::Single(_) => true,
        Slot::Double { before, after, .. } => {
            let (before, after) = (*before as usize, *after as usize);
            i >= before
                && i + after < row.len()
                && (i - before..=i + after).all(|j| match row[j] {
                    Slot::Double { before: b, after: a, .. } => {
                        j - b as usize == i - before && j + a as usize == i + after
                    }
                    Slot::Single(_) => false,
                })
        }
    })
}

/// Whether every lesson of the table is asked for by a requirement of its class.
fn legal(table: &[ClassSlots], relations: &[Relation], shift: i32) -> bool {
    let backed = |class: usize, d: &SlotData| match d {
        SlotData::Empty => true,
        SlotData::PartiallyFilled { teacher, subject, .. } => relations.iter().any(|r| {
            r.shift == shift && r.class == class && r.teacher == *teacher && r.subject == *subject
        }),
    };
    table.iter().enumerate().all(|(c, row)| {
        row.slots.iter().all(|slot| match slot {
            Slot::Single(d) => backed(c, d),
            Slot::Double { first, second, .. } => backed(c, first) && backed(c, second),
        })
    })
}

#[test]
fn placement_lays_whole_class_lessons_out_in_order() {
    let relations = vec![
        ask(1, 0, 0, 0, 3, None),
        ask(1, 1, 1, 1, 2, None),
        ask(1, 0, 1, 1, 2, None),
        ask(2, 0, 2, 0, 4, None),
    ];
    let mut t = Timetable::new(school(2, 3, 2, relations), 2, vec![], vec![]);
    t.generate_random_table(Shift::First);
    assert_eq!(t.table1.len(), 2);
    assert_eq!(t.table1[0].class_index, 0);
    assert_eq!(t.table1[1].class_index, 1);
    assert_eq!(
        t.table1[0].slots,
        vec![
            full(0, 0),
            full(0, 0),
            full(0, 0),
            full(1, 1),
            full(1, 1),
            free(),
            free(),
            free(),
            free(),
            free()
        ]
    );
    let mut second = vec![full(1, 1), full(1, 1)];
    second.resize(10, free());
    assert_eq!(t.table1[1].slots, second);
    assert!(t.table2.is_empty());
    t.generate_random_table(Shift::Second);
    let mut other = vec![full(2, 0); 4];
    other.resize(10, free());
    assert_eq!(t.table2[0].slots, other);
    assert_eq!(t.table2[1].slots, vec![free(); 10]);
    assert_eq!(t.periods_missing(Shift::First), 0);
    assert_eq!(t.periods_missing(Shift::Second), 0);
    // the first shift is as it was
    assert_eq!(t.table1[1].slots, second);
}

#[test]
fn placement_pairs_the_groups_of_split_classes() {
    let relations = vec![
        ask(1, 0, 0, 0, 3, None),
        ask(1, 0, 1, 1, 2, Some(2)),
        ask(1, 0, 2, 2, 2, Some(2)),
    ];
    let mut t = Timetable::new(school(1, 3, 3, relations), 2, vec![], vec![]);
    t.generate_random_table(Shift::First);
    // Of two requirements that are equally long the later comes first: teacher 2 opens
    // two blocks, one for each group, and teacher 1 takes the free group of both.
    let mut expected = vec![full(0, 0); 3];
    expected.extend(block(lesson(2, 2), lesson(1, 1), 2));
    expected.extend(block(lesson(2, 2), lesson(1, 1), 2));
    expected.resize(10, free());
    assert_eq!(t.table1[0].slots, expected);
    assert!(blocks_intact(&t.table1[0].slots));
    assert_eq!(t.periods_missing(Shift::First), 0);
}

#[test]
fn placement_puts_the_longest_requirement_first_and_short_ones_at_the_end_of_blocks() {
    let relations = vec![ask(1, 0, 0, 0, 1, Some(1)), ask(1, 0, 1, 1, 3, Some(2))];
    let mut t = Timetable::new(school(1, 2, 2, relations), 2, vec![], vec![]);
    t.generate_random_table(Shift::First);
    // Teacher 1 opens a block of 3 for the first group and one of 2 for the second.
    // Teacher 0 then takes the second group in the last cell of the first block, and
    // for the other group the second group in the last cell of the second block.
    let expected = vec![
        Slot::Double { first: lesson(1, 1), second: SlotData::Empty, before: 0, after: 2 },
        Slot::Double { first: lesson(1, 1), second: SlotData::Empty, before: 1, after: 1 },
        Slot::Double { first: lesson(1, 1), second: lesson(0, 0), before: 2, after: 0 },
        Slot::Double { first: lesson(1, 1), second: SlotData::Empty, before: 0, after: 1 },
        Slot::Double { first: lesson(1, 1), second: lesson(0, 0), before: 1, after: 0 },
        free(),
        free(),
        free(),
        free(),
        free(),
    ];
    assert_eq!(t.table1[0].slots, expected);
}

#[test]
fn placement_leaves_out_what_does_not_fit() {
    let relations = vec![
        ask(1, 0, 0, 0, 7, None),
        ask(1, 0, 1, 1, 2, Some(1)),
        ask(1, 0, 2, 2, 5, None),
        ask(1, 0, 1, 0, 3, None),
    ];
    let mut t = Timetable::new(school(1, 3, 3, relations), 2, vec![], vec![]);
    t.generate_random_table(Shift::First);
    // 7 lessons of teacher 0, then 3 of the 5 of teacher 2; nothing is left for the rest.
    let mut expected = vec![full(0, 0); 7];
    expected.extend(vec![full(2, 2); 3]);
    assert_eq!(t.table1[0].slots, expected);
    // asked: 7 + 3 + 5 + 3 periods; placed: 10
    assert_eq!(t.periods_missing(Shift::First), 8);
    assert_eq!(t.periods_missing(Shift::Second), 0);
}

#[test]
fn placement_of_a_school_without_requirements_is_empty() {
    let mut t = Timetable::new(school(2, 1, 1, vec![]), 3, vec![], vec![]);
    t.generate_random_table(Shift::First);
    assert_eq!(t.table1.len(), 2);
    assert_eq!(t.table1[0].slots, vec![free(); 15]);
    assert_eq!(t.table1[1].slots, vec![free(); 15]);
    let mut none = Timetable::new(school(0, 0, 0, vec![]), 3, vec![], vec![]);
    none.generate_random_table(Shift::First);
    assert!(none.table1.is_empty());
    let mut flat = Timetable::new(school(1, 1, 1, vec![ask(1, 0, 0, 0, 2, None)]), 0, vec![], vec![]);
    flat.generate_random_table(Shift::First);
    assert_eq!(flat.table1.len(), 1);
    assert!(flat.table1[0].slots.is_empty());
}

#[test]
fn placement_skips_requirements_of_no_periods() {
    let relations = vec![ask(1, 0, 0, 0, 0, None), ask(1, 0, 1, 1, 0, Some(0)), ask(1, 0, 1, 1, 1, None)];
    let mut t = Timetable::new(school(1, 2, 2, relations), 1, vec![], vec![]);
    t.generate_random_table(Shift::First);
    assert_eq!(t.table1[0].slots, vec![full(1, 1), free(), free(), free(), free()]);
}

#[test]
fn placement_holds_only_lessons_that_are_asked_for() {
    let relations = vec![
        ask(1, 0, 0, 0, 4, None),
        ask(1, 0, 1, 1, 3, Some(2)),
        ask(1, 0, 2, 2, 2, Some(3)),
        ask(1, 0, 3, 3, 2, Some(2)),
        ask(1, 1, 0, 1, 5, None),
        ask(1, 1, 3, 2, 4, Some(4)),
        ask(2, 1, 2, 2, 6, None),
        ask(1, 2, 1, 0, 2, Some(1)),
        ask(1, 2, 2, 3, 1, Some(2)),
    ];
    let mut t = Timetable::new(school(3, 4, 4, relations), 6, vec![], vec![]);
    t.generate_random_table(Shift::First);
    t.generate_random_table(Shift::Second);
    assert!(legal(&t.table1, &t.data.relations, 1));
    assert!(legal(&t.table2, &t.data.relations, 2));
    for row in t.table1.iter().chain(t.table2.iter()) {
        assert_eq!(row.slots.len(), 30);
        assert!(blocks_intact(&row.slots));
    }
    // every period asked of class 0 found its place
    let taught = |teacher: usize| {
        t.table1[0]
            .slots
            .iter()
            .map(|slot| match slot {
                Slot::Single(d) => (*d == lesson(teacher, teacher)) as u32,
                Slot::Double { first, second, .. } => {
                    (*first == lesson(teacher, teacher)) as u32
                        + (*second == lesson(teacher, teacher)) as u32
                }
            })
            .sum::<u32>()
    };
    assert_eq!(taught(0), 4);
    assert_eq!(taught(1), 5);
    assert_eq!(taught(2), 5);
    assert_eq!(taught(3), 4);
}

#[test]
fn lessons_stay_asked_for_through_moves_and_rooms() {
    let relations = vec![
        ask(1, 0, 0, 0, 4, None),
        ask(1, 0, 1, 1, 3, Some(2)),
        ask(1, 0, 2, 2, 2, Some(3)),
        ask(1, 1, 0, 1, 5, None),
        ask(1, 1, 3, 2, 4, Some(4)),
        ask(1, 2, 1, 0, 2, Some(1)),
    ];
    let mut t = Timetable::new(school(3, 4, 4, relations), 6, vec![], vec![]);
    t.generate_random_table(Shift::First);
    assert!(t.is_well_formed());
    let mut rules = Rules::none();
    rules.room_kinds = vec!["regular".to_string()];
    let none = String::new();
    for round in 0..200 {
        t = t.generate_neighbor(Shift::First, &none);
        if round % 50 == 0 {
            t.fill_rooms(Shift::First, &rules);
        }
        assert!(t.is_well_formed());
        assert!(legal(&t.table1, &t.data.relations, 1));
    }
}

#[test]
fn placement_throws_the_old_table_away_unread() {
    let relations = vec![ask(1, 0, 0, 0, 2, None), ask(2, 0, 1, 1, 1, None)];
    // both tables are of the wrong shape, and name a teacher that does not exist
    let junk = vec![ClassSlots { class_index: 7, slots: vec![full(9, 9); 3] }];
    let mut t = Timetable::new(school(1, 2, 2, relations), 2, junk.clone(), junk.clone());
    assert!(t.is_frame_well_formed());
    assert!(!t.is_well_formed_in(Shift::First) && !t.is_well_formed_in(Shift::Second));
    t.generate_random_table(Shift::First);
    assert!(t.is_well_formed_in(Shift::First));
    let mut first = vec![full(0, 0); 2];
    first.resize(10, free());
    assert_eq!(t.table1.len(), 1);
    assert_eq!(t.table1[0].class_index, 0);
    assert_eq!(t.table1[0].slots, first);
    // the other table is as it was
    assert_eq!(t.table2.len(), 1);
    assert_eq!(t.table2[0].class_index, 7);
    assert_eq!(t.table2[0].slots, junk[0].slots);
    assert!(!t.is_well_formed());
    // the rules of one shift can be asked while the other is not fit: the school has
    // no rooms, so both periods with a lesson are short of one
    assert_eq!(t.hard_points(Shift::First, 1, &Rules::none()), 2);
    assert_eq!(t.periods_missing(Shift::First), 0);
    t.fill_rooms(Shift::First, &Rules::none());
    assert_eq!(t.rooms_missing(Shift::First), 2);
    let moved = t.generate_neighbor(Shift::First, &String::new());
    assert!(moved.is_well_formed_in(Shift::First));
    assert_eq!(moved.table2[0].class_index, 7);
    assert_eq!(moved.table2[0].slots, junk[0].slots);
    t.generate_random_table(Shift::Second);
    assert!(t.is_well_formed());
    assert_eq!(t.table1[0].slots, first);
}
