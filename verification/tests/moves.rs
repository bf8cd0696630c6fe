use project_tomoyo::logic::{ClassSlots, Shift, Slot, SlotData, Timetable, TimetableData};
use project_tomoyo::{Class, Subject, Teacher};

fn school(classes: &[&str], teachers: usize) -> TimetableData {
    TimetableData {
        classes: classes.iter().map(|c| Class { name: c.to_string() }).collect(),
        rooms: vec![],
        subjects: vec![Subject { name: "S".to_string(), kind: "regular".to_string() }],
        teachers: (0..teachers).map(|t| Teacher { name: format!("T{}", t) }).collect(),
        relations: vec![],
    }
}

fn lesson(teacher: usize) -> SlotData {
    SlotData::PartiallyFilled { teacher, subject: 0, room: None }
}

fn full(teacher: usize) -> Slot {
    Slot::Single(lesson(teacher))
}

fn free() -> Slot {
    Slot::Single(SlotData::Empty)
}

fn block(first: SlotData, second: SlotData, len: u32) -> Vec<Slot> {
    (0..len).map(|j| Slot::Double { first, second, before: j, after: len - j - 1 }).collect()
}

fn row(per_day: usize, parts: &[Vec<Slot>]) -> Vec<Slot> {
    let mut slots: Vec<Slot> = parts.iter().flatten().copied().collect();
    slots.resize(5 * per_day, free());
    slots
}

fn timetable(classes: &[&str], per_day: u32, rows: Vec<Vec<Slot>>) -> Timetable {
    let table = rows
        .into_iter()
        .enumerate()
        .map(|(c, slots)| ClassSlots { class_index: c as u32, slots })
        .collect();
    Timetable::new(school(classes, 8), per_day, table, vec![])
}

fn blocks_intact(row: &[Slot]) -> bool {
    row.iter().enumerate().all(|(i, slot)| match slot {
        Slot::Single(_) => true,
        Slot::Double { before, after, .. } => {
            let (before, after) = (*before as usize, *after as usize);
            i >= before
                && i + after < row.len()
                && (i - before..=i + after).all(|j| match row[j] {
                    Slot::Double { before: b, after: a, .. } => {
                        j - b as usize == i - before && j + a as usize == i + after
                    }
                    Slot::Single(_) => false,
                })
        }
    })
}

/// The cells of a row in an order that does not depend on where they stand.
fn stock(row: &[Slot]) -> Vec<String> {
    let mut cells: Vec<String> = row
        .iter()
        .map(|slot| match slot {
            Slot::Single(d) => format!("{:?}", d),
            Slot::Double { first, second, before, after } => {
                format!("{:?}/{:?}/{}", first, second, before + after)
            }
        })
        .collect();
    cells.sort();
    cells
}

#[test]
fn swap_of_two_single_cells() {
    let t = timetable(&["A"], 2, vec![row(2, &[vec![full(0), full(1), free(), full(2)]])]);
    let n = t.neighbor_by(Shift::First, 0, 0, 3);
    assert_eq!(n.table1[0].slots, row(2, &[vec![full(2), full(1), free(), full(0)]]));
    let n = t.neighbor_by(Shift::First, 0, 1, 9);
    assert_eq!(
        n.table1[0].slots,
        vec![full(0), free(), free(), full(2), free(), free(), free(), free(), free(), full(1)]
    );
    // the timetable itself is as it was
    assert_eq!(t.table1[0].slots, row(2, &[vec![full(0), full(1), free(), full(2)]]));
    assert_eq!(n.table1[0].class_index, 0);
    assert_eq!(n.max_periods_per_day, 2);
    assert_eq!(n.data.classes[0].name, "A");
}

#[test]
fn swap_of_two_single_cells_twice_gives_the_timetable_back() {
    let start = row(3, &[vec![full(0), full(1), free(), full(2), free(), full(3)]]);
    let t = timetable(&["A", "B"], 3, vec![start.clone(), start.clone()]);
    for (a, b) in [(0, 1), (1, 0), (0, 2), (3, 14), (5, 5), (2, 4)] {
        let once = t.neighbor_by(Shift::First, 1, a, b);
        let twice = once.neighbor_by(Shift::First, 1, a, b);
        assert_eq!(twice.table1[1].slots, start);
        assert_eq!(twice.table1[0].slots, start);
    }
    let once = t.neighbor_by(Shift::First, 1, 0, 1);
    assert_ne!(once.table1[1].slots, start);
}

#[test]
fn swap_of_a_single_cell_with_a_block_cell_does_nothing() {
    let cells = row(2, &[vec![full(0)], block(lesson(1), lesson(2), 2), vec![full(3)]]);
    let t = timetable(&["A"], 2, vec![cells.clone()]);
    assert_eq!(t.neighbor_by(Shift::First, 0, 0, 1).table1[0].slots, cells);
    assert_eq!(t.neighbor_by(Shift::First, 0, 3, 2).table1[0].slots, cells);
}

#[test]
fn moves_out_of_range_do_nothing() {
    let cells = row(2, &[vec![full(0), full(1)]]);
    let t = timetable(&["A"], 2, vec![cells.clone()]);
    assert_eq!(t.neighbor_by(Shift::First, 0, 0, 10).table1[0].slots, cells);
    assert_eq!(t.neighbor_by(Shift::First, 0, 10, 0).table1[0].slots, cells);
    assert_eq!(t.neighbor_by(Shift::First, 1, 0, 1).table1[0].slots, cells);
    assert_eq!(t.neighbor_by(Shift::Second, 0, 0, 1).table1[0].slots, cells);
    assert!(t.neighbor_by(Shift::Second, 0, 0, 1).table2.is_empty());
}

#[test]
fn block_moves_to_a_run_of_single_cells() {
    // per day 4: Monday is a block of 2 and two lessons, Tuesday is free
    let cells = row(4, &[block(lesson(1), lesson(2), 2), vec![full(3), full(4)]]);
    let t = timetable(&["A"], 4, vec![cells]);
    // from either cell of the block to the run that starts in cell 2
    for start in [0, 1] {
        let n = t.neighbor_by(Shift::First, 0, start, 2);
        assert_eq!(
            n.table1[0].slots,
            row(4, &[vec![full(3), full(4)], block(lesson(1), lesson(2), 2)])
        );
    }
    // to Tuesday
    let n = t.neighbor_by(Shift::First, 0, 1, 5);
    assert_eq!(
        n.table1[0].slots,
        row(4, &[vec![free(), free(), full(3), full(4), free()], block(lesson(1), lesson(2), 2)])
    );
    assert!(blocks_intact(&n.table1[0].slots));
}

#[test]
fn block_does_not_move_where_it_does_not_fit() {
    let cells = row(4, &[block(lesson(1), lesson(2), 2), vec![full(3), full(4)]]);
    let t = timetable(&["A"], 4, vec![cells.clone()]);
    // cell 3 is the last of Monday: a block of 2 would run into Tuesday
    assert_eq!(t.neighbor_by(Shift::First, 0, 0, 3).table1[0].slots, cells);
    // cell 19 is the last of the week
    assert_eq!(t.neighbor_by(Shift::First, 0, 0, 19).table1[0].slots, cells);
    // the block's own cells
    assert_eq!(t.neighbor_by(Shift::First, 0, 0, 1).table1[0].slots, cells);
    assert_eq!(t.neighbor_by(Shift::First, 0, 1, 1).table1[0].slots, cells);
    // a run that is cut short by another block
    let cells = row(
        4,
        &[block(lesson(1), lesson(2), 2), vec![free()], block(lesson(3), lesson(4), 1)],
    );
    let t = timetable(&["A"], 4, vec![cells.clone()]);
    assert_eq!(t.neighbor_by(Shift::First, 0, 0, 2).table1[0].slots, cells);
    // a block of another length
    assert_eq!(t.neighbor_by(Shift::First, 0, 0, 3).table1[0].slots, cells);
    assert_eq!(t.neighbor_by(Shift::First, 0, 3, 0).table1[0].slots, cells);
}

#[test]
fn block_changes_places_with_a_block_of_its_length() {
    let cells = row(
        3,
        &[
            block(lesson(1), lesson(2), 2),
            vec![full(0)],
            block(lesson(3), SlotData::Empty, 3),
            block(lesson(4), lesson(5), 2),
        ],
    );
    let t = timetable(&["A"], 3, vec![cells]);
    let expected = row(
        3,
        &[
            block(lesson(4), lesson(5), 2),
            vec![full(0)],
            block(lesson(3), SlotData::Empty, 3),
            block(lesson(1), lesson(2), 2),
        ],
    );
    // from any cell of the one to any cell of the other
    for (start, target) in [(0, 6), (0, 7), (1, 6), (1, 7), (6, 0), (7, 1)] {
        let n = t.neighbor_by(Shift::First, 0, start, target);
        assert_eq!(n.table1[0].slots, expected);
        assert!(blocks_intact(&n.table1[0].slots));
    }
}

#[test]
fn neighbors_keep_blocks_whole_and_lessons_in_their_class() {
    let rows = vec![
        row(
            6,
            &[
                block(lesson(1), lesson(2), 2),
                vec![full(0), free(), full(3)],
                block(lesson(3), SlotData::Empty, 3),
                vec![full(0), full(4)],
                block(lesson(4), lesson(5), 2),
                block(lesson(6), lesson(7), 1),
            ],
        ),
        row(6, &[vec![full(1), full(2)], block(lesson(0), lesson(3), 4), vec![full(5)]]),
    ];
    let stocks: Vec<Vec<String>> = rows.iter().map(|r| stock(r)).collect();
    let mut t = timetable(&["A", "B"], 6, rows);
    let mut changed = false;
    for _ in 0..2000 {
        let n = t.generate_neighbor(Shift::First, &String::new());
        assert_eq!(n.table1.len(), 2);
        let mut differing = 0;
        for c in 0..2 {
            assert_eq!(n.table1[c].class_index as usize, c);
            assert_eq!(n.table1[c].slots.len(), 30);
            assert!(blocks_intact(&n.table1[c].slots));
            assert_eq!(stock(&n.table1[c].slots), stocks[c]);
            if n.table1[c].slots != t.table1[c].slots {
                differing += 1;
            }
        }
        assert!(differing <= 1);
        changed = changed || differing == 1;
        assert!(n.table2.is_empty());
        t = n;
    }
    assert!(changed);
}

#[test]
fn neighbors_leave_pinned_classes_alone() {
    let rows = vec![
        row(2, &[vec![full(0), full(1), full(2)]]),
        row(2, &[vec![full(3), full(4), full(5)]]),
        row(2, &[vec![full(6), full(7)], block(lesson(1), lesson(2), 2)]),
    ];
    let start = rows.clone();
    let mut t = timetable(&["S1A", "S2F", "S4F"], 2, rows);
    let pinned = "S4F,S1A".to_string();
    let mut moved = false;
    for _ in 0..300 {
        t = t.generate_neighbor(Shift::First, &pinned);
        assert_eq!(t.table1[0].slots, start[0]);
        assert_eq!(t.table1[2].slots, start[2]);
        assert_eq!(stock(&t.table1[1].slots), stock(&start[1]));
        moved = moved || t.table1[1].slots != start[1];
    }
    assert!(moved);
}

#[test]
fn neighbor_of_a_timetable_that_cannot_move_is_the_timetable() {
    let rows = vec![row(2, &[vec![full(0), full(1)]]), row(2, &[vec![full(2)]])];
    let t = timetable(&["A", "B"], 2, rows.clone());
    let n = t.generate_neighbor(Shift::First, &"B,A".to_string());
    assert_eq!(n.table1[0].slots, rows[0]);
    assert_eq!(n.table1[1].slots, rows[1]);
    // nothing to move in a shift without classes, or in a week without periods
    let n = t.generate_neighbor(Shift::Second, &String::new());
    assert_eq!(n.table1[0].slots, rows[0]);
    assert!(n.table2.is_empty());
    let flat = timetable(&["A"], 0, vec![vec![]]);
    assert!(flat.generate_neighbor(Shift::First, &String::new()).table1[0].slots.is_empty());
}

#[test]
fn neighbor_of_a_row_that_is_one_block_is_that_row() {
    // the block fills the week, so it can only land on itself
    let rows = vec![block(lesson(0), lesson(1), 5)];
    let t = timetable(&["A"], 1, rows.clone());
    for _ in 0..50 {
        assert_eq!(t.generate_neighbor(Shift::First, &String::new()).table1[0].slots, rows[0]);
    }
}
