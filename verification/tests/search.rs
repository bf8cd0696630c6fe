use project_tomoyo::logic::{ClassSlots, Shift, Slot, SlotData, Timetable, TimetableData};
use project_tomoyo::rules::Rules;
use project_tomoyo::search::{accepts, chain_points, overlap_points, total_points, Search, Weights};
use project_tomoyo::{Class, Relation, Room, Subject, Teacher};

fn school(classes: usize, relations: Vec<Relation>) -> TimetableData {
    TimetableData {
        classes: (0..classes).map(|c| Class { name: format!("C{}", c) }).collect(),
        rooms: vec![
            Room { name: "R0".to_string(), kinds: vec!["regular".to_string()] },
            Room { name: "R1".to_string(), kinds: vec!["computer".to_string()] },
        ],
        subjects: vec![
            Subject { name: "S0".to_string(), kind: "regular".to_string() },
            Subject { name: "S1".to_string(), kind: "computer".to_string() },
        ],
        teachers: vec![Teacher { name: "T0".to_string() }, Teacher { name: "T1".to_string() }],
        relations,
    }
}

fn ask(shift: i32, class: usize, teacher: usize, subject: usize, periods: u32) -> Relation {
    Relation { shift, teacher, subject, class, per_week_first: periods, per_week_second: None }
}

fn full(teacher: usize, subject: usize) -> Slot {
    Slot::Single(SlotData::PartiallyFilled { teacher, subject, room: None })
}

fn free() -> Slot {
    Slot::Single(SlotData::Empty)
}

fn table(per_day: usize, rows: Vec<Vec<Slot>>) -> Vec<ClassSlots> {
    rows.into_iter()
        .enumerate()
        .map(|(c, mut slots)| {
            slots.resize(5 * per_day, free());
            ClassSlots { class_index: c as u32, slots }
        })
        .collect()
}

fn rules() -> Rules {
    let mut rules = Rules::none();
    rules.capacity_kinds = vec!["regular".to_string(), "computer".to_string()];
    rules
}

const HARD_ONLY: Weights = Weights { hard_1: 1, soft_1: 0, hard_2: 1, soft_2: 0, overlap: 0 };

#[test]
fn accepts_what_costs_no_more_or_is_lucky() {
    assert!(accepts(0, false));
    assert!(accepts(-5, false));
    assert!(accepts(i64::MIN, false));
    assert!(!accepts(1, false));
    assert!(!accepts(i64::MAX, false));
    assert!(accepts(1, true));
    assert!(accepts(-1, true));
}

#[test]
fn total_points_add_both_shifts_and_the_overlap() {
    // first shift: teacher 0 in two classes at once; second shift: a hole on Monday
    let first = table(3, vec![vec![full(0, 0)], vec![full(0, 1)]]);
    let second = table(3, vec![vec![full(0, 0), free(), full(1, 1)], vec![]]);
    let t = Timetable::new(school(2, vec![]), 3, first, second);
    let mut rules = rules();
    rules.teacher_gap_tolerance = 5;
    let w = Weights { hard_1: 2, soft_1: 1, hard_2: 3, soft_2: 1, overlap: 10 };
    assert_eq!(chain_points(&t, Shift::First, &rules, w), 2);
    assert_eq!(chain_points(&t, Shift::Second, &rules, w), 3);
    // teacher 0 works both shifts on Monday
    assert_eq!(overlap_points(&t, &t, w), 10);
    assert_eq!(total_points(&t, &rules, w), 15);
    let search = Search::new(t, rules, w);
    assert_eq!(search.cost(), 15);
    assert_eq!(search.best_cost, 15);
    assert!(!search.converged());
}

#[test]
fn search_rounds_take_or_leave_the_neighbours() {
    let first = table(2, vec![vec![full(0, 0)], vec![full(0, 1)]]);
    let t = Timetable::new(school(2, vec![]), 2, first, vec![]);
    let mut search = Search::new(t, rules(), HARD_ONLY);
    assert_eq!(search.cost(), 1);
    // class 1 moves its lesson out of the way
    let better = search.current.neighbor_by(Shift::First, 1, 0, 1);
    let same = search.current.clone();
    let offer = search.weigh(better, same);
    assert_eq!(offer.cost_first, 0);
    assert_eq!(offer.cost_second, 0);
    assert_eq!(offer.cost_overlap, 0);
    assert_eq!(offer.delta_first, -1);
    assert_eq!(offer.delta_second, 0);
    // left: nothing changes
    let outcome = search.advance(offer, false, false);
    assert!(!outcome.took_first && !outcome.took_second && !outcome.improved);
    assert_eq!(outcome.cost, 1);
    assert_eq!(search.current.table1[1].slots[0], full(0, 1));
    assert_eq!(search.best_cost, 1);
    // taken: the current timetable moves, and is the best so far
    let better = search.current.neighbor_by(Shift::First, 1, 0, 1);
    let same = search.current.clone();
    let offer = search.weigh(better, same);
    let take = accepts(offer.delta_first, false);
    let outcome = search.advance(offer, take, false);
    assert!(outcome.took_first && outcome.improved);
    assert_eq!(outcome.cost, 0);
    assert_eq!(search.current.table1[1].slots[0], free());
    assert_eq!(search.current.table1[1].slots[1], full(0, 1));
    assert_eq!(search.best_cost, 0);
    assert_eq!(search.best.table1[1].slots[1], full(0, 1));
    assert!(search.converged());
    // a worse neighbour, taken by luck: the best stays
    let worse = search.current.neighbor_by(Shift::First, 1, 1, 0);
    let same = search.current.clone();
    let offer = search.weigh(worse, same);
    assert_eq!(offer.delta_first, 1);
    assert!(!accepts(offer.delta_first, false));
    let outcome = search.advance(offer, accepts(1, true), false);
    assert!(outcome.took_first && !outcome.improved);
    assert_eq!(outcome.cost, 1);
    assert_eq!(search.cost(), 1);
    assert_eq!(search.best_cost, 0);
    assert!(!search.converged());
    let best = search.into_best();
    assert_eq!(best.table1[1].slots[1], full(0, 1));
    assert_eq!(best.table1[1].slots[0], free());
}

#[test]
fn search_weighs_each_chain_with_the_other() {
    // teacher 0 works Monday in the first shift; in the second, Tuesday
    let first = table(2, vec![vec![full(0, 0)]]);
    let second = table(2, vec![vec![free(), free(), full(0, 0)]]);
    let t = Timetable::new(school(1, vec![]), 2, first, second);
    let w = Weights { hard_1: 1, soft_1: 0, hard_2: 1, soft_2: 0, overlap: 2 };
    let mut search = Search::new(t, rules(), w);
    assert_eq!(search.cost(), 0);
    // the second chain moves its lesson to Monday
    let same = search.current.clone();
    let monday = search.current.neighbor_by(Shift::Second, 0, 2, 1);
    let offer = search.weigh(same, monday);
    assert_eq!(offer.cost_overlap, 2);
    assert_eq!(offer.delta_first, 2);
    assert_eq!(offer.delta_second, 2);
    let outcome = search.advance(offer, false, true);
    assert_eq!(outcome.cost, 2);
    assert_eq!(search.cost_overlap, 2);
    assert_eq!(search.current.table2[0].slots[1], full(0, 0));
    assert_eq!(search.current.table1[0].slots[0], full(0, 0));
    assert_eq!(search.best_cost, 0);
    // the first chain moves away to Tuesday, the second stays
    let tuesday = search.current.neighbor_by(Shift::First, 0, 0, 2);
    let same = search.current.clone();
    let offer = search.weigh(tuesday, same);
    assert_eq!(offer.delta_first, -2);
    let outcome = search.advance(offer, true, false);
    assert_eq!(outcome.cost, 0);
    assert!(!outcome.improved);
    // both move at once: the first back to Monday, the second to Tuesday
    let monday = search.current.neighbor_by(Shift::First, 0, 2, 0);
    let tuesday = search.current.neighbor_by(Shift::Second, 0, 1, 3);
    let offer = search.weigh(monday, tuesday);
    assert_eq!(offer.cost_overlap, 0);
    let outcome = search.advance(offer, true, true);
    assert_eq!(outcome.cost, 0);
    assert_eq!(search.current.table1[0].slots[0], full(0, 0));
    assert_eq!(search.current.table2[0].slots[3], full(0, 0));
}

#[test]
fn search_best_cost_never_rises() {
    let relations = vec![
        ask(1, 0, 0, 0, 4),
        ask(1, 0, 1, 1, 3),
        ask(1, 1, 0, 0, 3),
        ask(1, 1, 1, 1, 4),
        ask(2, 0, 0, 1, 5),
    ];
    let mut t = Timetable::new(school(2, relations), 2, vec![], vec![]);
    t.generate_random_table(Shift::First);
    t.generate_random_table(Shift::Second);
    let w = Weights { hard_1: 2, soft_1: 1, hard_2: 2, soft_2: 1, overlap: 2 };
    let mut rules = rules();
    rules.teacher_day_max = Some(2);
    let mut search = Search::new(t, rules, w);
    let mut best = search.best_cost;
    let none = String::new();
    for round in 0..400 {
        let offer = search.propose(&none);
        // every fourth round is lucky
        let lucky = round % 4 == 0;
        let take_first = accepts(offer.delta_first, lucky);
        let take_second = accepts(offer.delta_second, lucky);
        let outcome = search.advance(offer, take_first, take_second);
        assert_eq!(outcome.cost, search.cost());
        assert_eq!(outcome.cost, total_points(&search.current, &search.rules, w));
        assert!(search.best_cost <= best);
        assert!(search.best_cost <= outcome.cost);
        assert_eq!(outcome.improved, outcome.cost < best);
        assert_eq!(search.best_cost, total_points(&search.best, &search.rules, w));
        best = search.best_cost;
    }
}

#[test]
fn search_finds_a_timetable_without_hard_violations() {
    // 2 classes, 2 teachers, 2 subjects of different kinds, one room per kind, 2
    // periods a day: both classes start the week with the same teacher
    let relations = vec![
        ask(1, 0, 0, 0, 3),
        ask(1, 0, 1, 1, 2),
        ask(1, 1, 0, 0, 2),
        ask(1, 1, 1, 1, 3),
    ];
    let mut t = Timetable::new(school(2, relations), 2, vec![], vec![]);
    t.generate_random_table(Shift::First);
    let rules = rules();
    assert!(t.hard_points(Shift::First, 1, &rules) > 0);
    let mut search = Search::new(t, rules, HARD_ONLY);
    let none = String::new();
    let mut rounds = 0;
    while !search.converged() && rounds < 20_000 {
        let offer = search.propose(&none);
        let take_first = accepts(offer.delta_first, false);
        let take_second = accepts(offer.delta_second, false);
        search.advance(offer, take_first, take_second);
        rounds += 1;
    }
    assert!(search.converged());
    assert_eq!(search.best_cost, 0);
    let best = search.into_best();
    assert_eq!(best.hard_points(Shift::First, 1, &Rules::none()), 0);
    let mut rules = Rules::none();
    rules.capacity_kinds = vec!["regular".to_string(), "computer".to_string()];
    assert_eq!(best.hard_points(Shift::First, 1, &rules), 0);
    // every lesson that was asked for is still there
    for (class, teacher, periods) in [(0, 0, 3), (0, 1, 2), (1, 0, 2), (1, 1, 3)] {
        let found = best.table1[class]
            .slots
            .iter()
            .filter(|slot| **slot == full(teacher, teacher))
            .count();
        assert_eq!(found, periods);
    }
}

#[test]
fn toy_school_has_no_hard_cost_after_placement_and_search() {
    // two classes, each with its own teacher and subject, two periods a week each
    let relations = vec![ask(1, 0, 0, 0, 2), ask(1, 1, 1, 1, 2)];
    let mut t = Timetable::new(school(2, relations), 2, vec![], vec![]);
    assert!(t.is_frame_well_formed());
    t.generate_random_table(Shift::First);
    t.generate_random_table(Shift::Second);
    assert!(t.is_well_formed());
    let rules = Rules::none();
    assert_eq!(t.hard_points(Shift::First, 1, &rules), 0);
    assert_eq!(t.hard_points(Shift::Second, 1, &rules), 0);
    let w = Weights { hard_1: 1, soft_1: 1, hard_2: 1, soft_2: 1, overlap: 1 };
    let start = total_points(&t, &rules, w);
    let mut search = Search::new(t, Rules::none(), w);
    let none = String::new();
    let mut rounds = 0;
    while !search.converged() && rounds < 2_000 {
        let offer = search.propose(&none);
        let take_first = accepts(offer.delta_first, false);
        let take_second = accepts(offer.delta_second, false);
        search.advance(offer, take_first, take_second);
        rounds += 1;
    }
    assert!(search.best_cost <= start);
    assert!(search.converged());
    let best = search.into_best();
    assert_eq!(best.hard_points(Shift::First, 1, &rules), 0);
    assert_eq!(best.hard_points(Shift::Second, 1, &rules), 0);
    assert_eq!(best.soft_points(Shift::First, 1, &rules), 0);
}
