//! The hard rules: each function counts the violations of one rule, and a timetable is
//! fit for use when all of them return 0.

use vstd::prelude::*;

use crate::logic::{
    grid_of, grid_wf, ClassSlots, ProblemView, Shift, Slot, SlotData, Timetable, TimetableData,
    MAX_ENTITIES, MAX_PERIODS_PER_DAY,
};
use crate::days::whole_class_has;
use crate::rooms::first_free_room;
use crate::rules::{has_kind, texts, BlacklistView, Rules, MAX_RULES};
use crate::{RoomView, SubjectView};
use crate::sums::{one_if, repeats, sum, tally};

verus! {

/// No count of violations is above this: the lessons that the largest grid can hold,
/// two in each of its 5 · [`MAX_PERIODS_PER_DAY`] · [`MAX_ENTITIES`] cells. The counts of
/// all the rules of a shift add up within `i32`, and their sum times a weight of `i32`
/// stays within `i64`.
pub const MAX_COST: i32 = 10_000_000;

/// The cell of class `c` in period `p`.
pub(crate) fn cell(table: &Vec<ClassSlots>, c: usize, p: usize) -> (slot: Slot)
    requires
        c < table.len(),
        p < grid_of(table@)[c as int].len(),
    ensures
        slot == grid_of(table@)[c as int][p as int],
{
    table[c].slots[p]
}

/// The teachers of an entry, or its rooms.
pub open spec fn entry_items(d: SlotData, rooms: bool) -> Seq<usize> {
    if rooms {
        d.rooms()
    } else {
        d.teachers()
    }
}

/// The teachers of a cell, or its rooms.
pub open spec fn cell_items(slot: Slot, rooms: bool) -> Seq<usize> {
    if rooms {
        slot.rooms()
    } else {
        slot.teachers()
    }
}

/// The teachers (or the rooms) that the first `n` classes have in period `p`, class
/// after class.
pub open spec fn gathered(grid: Seq<Seq<Slot>>, p: int, n: int, rooms: bool) -> Seq<usize>
    decreases n,
{
    if n <= 0 {
        Seq::empty()
    } else {
        gathered(grid, p, n - 1, rooms) + cell_items(grid[n - 1][p], rooms)
    }
}

/// For each period, how many lessons have a teacher (or a room) that an earlier lesson
/// of that period has too.
pub open spec fn period_repeats(grid: Seq<Seq<Slot>>, rooms: bool) -> spec_fn(int) -> int {
    |p: int| repeats(gathered(grid, p, grid.len() as int, rooms))
}

/// The cost of teachers in two places at once: in every period, each lesson of a
/// teacher beyond their first counts once.
pub open spec fn repeated_teachers(grid: Seq<Seq<Slot>>, periods: int) -> int {
    sum(periods, period_repeats(grid, false))
}

/// The cost of rooms used twice: in every period, each lesson in a room beyond the
/// first counts once.
pub open spec fn repeated_rooms(grid: Seq<Seq<Slot>>, periods: int) -> int {
    sum(periods, period_repeats(grid, true))
}

/// Whether the rows of a table are `periods` long and few enough to count over.
pub open spec fn countable(grid: Seq<Seq<Slot>>, periods: int) -> bool {
    &&& grid.len() <= MAX_ENTITIES
    &&& 0 <= periods <= 5 * MAX_PERIODS_PER_DAY
    &&& forall|c: int| 0 <= c < grid.len() ==> (#[trigger] grid[c]).len() == periods
}

fn tally_entry(
    seen: &mut Vec<usize>,
    d: SlotData,
    rooms: bool,
    Ghost(done): Ghost<Seq<usize>>,
) -> (extra: i32)
    requires
        forall|y: usize| old(seen)@.contains(y) <==> done.contains(y),
    ensures
        extra == repeats(done + entry_items(d, rooms)) - repeats(done),
        0 <= extra <= 1,
        forall|y: usize| final(seen)@.contains(y) <==> (done + entry_items(d, rooms)).contains(y),
{
    let item: Option<usize> = match d {
        SlotData::PartiallyFilled { teacher, room, .. } => if rooms {
            room
        } else {
            Some(teacher)
        },
        SlotData::Empty => None,
    };
    match item {
        Some(x) => {
            assert(done + entry_items(d, rooms) =~= done.push(x));
            tally(seen, x, Ghost(done))
        },
        None => {
            assert(done + entry_items(d, rooms) =~= done);
            0
        },
    }
}

fn count_repeats(table: &Vec<ClassSlots>, periods: usize, rooms: bool) -> (points: i32)
    requires
        countable(grid_of(table@), periods as int),
    ensures
        points == sum(periods as int, period_repeats(grid_of(table@), rooms)),
        0 <= points <= MAX_COST,
{
    let ghost grid = grid_of(table@);
    let ghost f = period_repeats(grid, rooms);
    let n = table.len();
    let mut points: i32 = 0;
    let mut p: usize = 0;
    while p < periods
        invariant
            p <= periods,
            n == table.len(),
            grid == grid_of(table@),
            f == period_repeats(grid, rooms),
            countable(grid, periods as int),
            points == sum(p as int, f),
            0 <= points <= p * 20_000,
        decreases periods - p,
    {
        let mut seen: Vec<usize> = Vec::new();
        let mut count: i32 = 0;
        let ghost mut done: Seq<usize> = Seq::empty();
        let mut c: usize = 0;
        while c < n
            invariant
                c <= n,
                p < periods,
                n == table.len(),
                grid == grid_of(table@),
                countable(grid, periods as int),
                done == gathered(grid, p as int, c as int, rooms),
                forall|y: usize| seen@.contains(y) <==> done.contains(y),
                count == repeats(done),
                0 <= count <= 2 * c,
            decreases n - c,
        {
            assert(grid[c as int].len() == periods);
            match cell(table, c, p) {
                Slot::Single(d) => {
                    let extra = tally_entry(&mut seen, d, rooms, Ghost(done));
                    count = count + extra;
                    proof {
                        done = done + entry_items(d, rooms);
                    }
                },
                Slot::Double { first, second, .. } => {
                    let extra1 = tally_entry(&mut seen, first, rooms, Ghost(done));
                    let ghost mid = done + entry_items(first, rooms);
                    let extra2 = tally_entry(&mut seen, second, rooms, Ghost(mid));
                    count = count + extra1 + extra2;
                    proof {
                        assert(mid + entry_items(second, rooms) =~= done + (entry_items(first, rooms)
                            + entry_items(second, rooms)));
                        done = mid + entry_items(second, rooms);
                    }
                },
            }
            c += 1;
        }
        assert(count == f(p as int));
        points = points + count;
        p += 1;
    }
    points
}

/// The cost of rooms used twice in `shift`.
pub fn repeating_rooms(timetable: &Timetable, shift: Shift) -> (points: i32)
    requires
        timetable.shift_wf(shift),
    ensures
        points == repeated_rooms(timetable@.grid(shift), timetable@.periods()),
        0 <= points <= MAX_COST,
{
    let periods: usize = 5 * (timetable.max_periods_per_day as usize);
    count_repeats(timetable.table(shift), periods, true)
}

/// The cost of teachers who teach several lessons in the same period of `shift`.
pub fn hard_repeating_teachers(timetable: &Timetable, shift: Shift) -> (points: i32)
    requires
        timetable.shift_wf(shift),
    ensures
        points == repeated_teachers(timetable@.grid(shift), timetable@.periods()),
        0 <= points <= MAX_COST,
{
    let periods: usize = 5 * (timetable.max_periods_per_day as usize);
    count_repeats(timetable.table(shift), periods, false)
}

/// Whether `teacher` is not to teach in `period` of the week.
pub open spec fn barred(lists: Seq<BlacklistView>, teacher: usize, period: int) -> bool {
    exists|k: int|
        0 <= k < lists.len() && (#[trigger] lists[k]).teacher == teacher
            && lists[k].periods.contains(period as u32)
}

/// Whether an entry has a teacher in a period that is barred to them.
pub open spec fn entry_barred(lists: Seq<BlacklistView>, d: SlotData, period: int) -> bool {
    d matches SlotData::PartiallyFilled { teacher, .. } && barred(lists, teacher, period)
}

/// How many lessons of a cell are given in a period barred to their teacher.
pub open spec fn cell_barred(lists: Seq<BlacklistView>, slot: Slot, period: int) -> int {
    match slot {
        Slot::Single(d) => one_if(entry_barred(lists, d, period)),
        Slot::Double { first, second, .. } => one_if(entry_barred(lists, first, period)) + one_if(
            entry_barred(lists, second, period),
        ),
    }
}

/// For each period, the lessons of a row that are given in a period barred to their
/// teacher.
pub open spec fn row_barred(lists: Seq<BlacklistView>, row: Seq<Slot>) -> spec_fn(int) -> int {
    |p: int| cell_barred(lists, row[p], p)
}

/// For each class, the lessons of its row that are given in barred periods.
pub open spec fn grid_barred(
    lists: Seq<BlacklistView>,
    grid: Seq<Seq<Slot>>,
    periods: int,
) -> spec_fn(int) -> int {
    |c: int| sum(periods, row_barred(lists, grid[c]))
}

/// The cost of the teachers' barred periods: every lesson given in a period that is
/// barred to its teacher counts once.
pub open spec fn barred_lessons(
    lists: Seq<BlacklistView>,
    grid: Seq<Seq<Slot>>,
    periods: int,
) -> int {
    sum(grid.len() as int, grid_barred(lists, grid, periods))
}

/// Whether `x` is one of `list`.
fn has_period(list: &Vec<u32>, x: u32) -> (found: bool)
    ensures
        found == list@.contains(x),
{
    let mut i: usize = 0;
    while i < list.len()
        invariant
            i <= list.len(),
            forall|j: int| 0 <= j < i ==> list@[j] != x,
        decreases list.len() - i,
    {
        if list[i] == x {
            return true;
        }
        i += 1;
    }
    false
}

fn is_barred(rules: &Rules, d: SlotData, period: u32) -> (r: bool)
    ensures
        r == entry_barred(rules@.blacklists, d, period as int),
{
    match d {
        SlotData::Empty => false,
        SlotData::PartiallyFilled { teacher, .. } => {
            let mut k: usize = 0;
            while k < rules.blacklists.len()
                invariant
                    k <= rules.blacklists.len(),
                    d.taught_by(teacher),
                    forall|j: int|
                        0 <= j < k ==> !((#[trigger] rules@.blacklists[j]).teacher == teacher
                            && rules@.blacklists[j].periods.contains(period)),
                decreases rules.blacklists.len() - k,
            {
                assert(rules@.blacklists[k as int] == rules.blacklists@[k as int]@);
                if rules.blacklists[k].teacher == teacher && has_period(
                    &rules.blacklists[k].periods,
                    period,
                ) {
                    assert(rules@.blacklists[k as int].teacher == teacher
                        && rules@.blacklists[k as int].periods.contains((period as int) as u32));
                    assert(barred(rules@.blacklists, teacher, period as int));
                    return true;
                }
                k += 1;
            }
            false
        },
    }
}

/// The cost of lessons given in periods that are barred to their teachers.
pub fn hard_teacher_extra_constraints(
    timetable: &Timetable,
    shift: Shift,
    rules: &Rules,
) -> (points: i32)
    requires
        timetable.shift_wf(shift),
    ensures
        points == barred_lessons(rules@.blacklists, timetable@.grid(shift), timetable@.periods()),
        0 <= points <= MAX_COST,
{
    let periods: u32 = 5 * timetable.max_periods_per_day;
    let table = timetable.table(shift);
    let ghost grid = grid_of(table@);
    let ghost lists = rules@.blacklists;
    let ghost f = grid_barred(lists, grid, periods as int);
    let mut points: i32 = 0;
    let mut c: usize = 0;
    while c < table.len()
        invariant
            c <= table.len(),
            grid == grid_of(table@),
            lists == rules@.blacklists,
            f == grid_barred(lists, grid, periods as int),
            countable(grid, periods as int),
            points == sum(c as int, f),
            0 <= points <= c * 1_000,
        decreases table.len() - c,
    {
        let ghost g = row_barred(lists, grid[c as int]);
        let mut count: i32 = 0;
        let mut p: u32 = 0;
        while p < periods
            invariant
                p <= periods,
                c < table.len(),
                grid == grid_of(table@),
                lists == rules@.blacklists,
                g == row_barred(lists, grid[c as int]),
                countable(grid, periods as int),
                count == sum(p as int, g),
                0 <= count <= 2 * p,
            decreases periods - p,
        {
            assert(grid[c as int].len() == periods);
            let extra: i32 = match cell(table, c, p as usize) {
                Slot::Single(d) => if is_barred(rules, d, p) {
                    1
                } else {
                    0
                },
                Slot::Double { first, second, .. } => {
                    let a: i32 = if is_barred(rules, first, p) {
                        1
                    } else {
                        0
                    };
                    let b: i32 = if is_barred(rules, second, p) {
                        1
                    } else {
                        0
                    };
                    a + b
                },
            };
            assert(extra == g(p as int));
            count = count + extra;
            p += 1;
        }
        assert(count == f(c as int));
        points = points + count;
        c += 1;
    }
    points
}

/// The teachers who teach in the `n` periods from `lo`, period after period.
pub open spec fn day_teachers(grid: Seq<Seq<Slot>>, lo: int, n: int) -> Seq<usize>
    decreases n,
{
    if n <= 0 {
        Seq::empty()
    } else {
        day_teachers(grid, lo, n - 1) + gathered(grid, lo + n - 1, grid.len() as int, false)
    }
}

/// Whether `teacher` teaches on `day` (0 to 4) in a grid.
pub open spec fn works_on(grid: Seq<Seq<Slot>>, per_day: int, day: int, teacher: usize) -> bool {
    day_teachers(grid, day * per_day, per_day).contains(teacher)
}

/// For each teacher, 1 if they teach in both grids on `day`.
pub open spec fn day_overlap(
    first: Seq<Seq<Slot>>,
    second: Seq<Seq<Slot>>,
    per_day: int,
    day: int,
) -> spec_fn(int) -> int {
    |t: int|
        one_if(
            works_on(first, per_day, day, t as usize) && works_on(second, per_day, day, t as usize),
        )
}

/// For each day, the teachers who teach in both grids on it.
pub open spec fn week_overlap(
    first: Seq<Seq<Slot>>,
    second: Seq<Seq<Slot>>,
    per_day: int,
    teachers: int,
) -> spec_fn(int) -> int {
    |day: int| sum(teachers, day_overlap(first, second, per_day, day))
}

/// The cost of teachers who work both shifts of a day: each of the `teachers` counts
/// once for every day on which they teach in both grids.
pub open spec fn shift_overlap(
    first: Seq<Seq<Slot>>,
    second: Seq<Seq<Slot>>,
    per_day: int,
    teachers: int,
) -> int {
    sum(5, week_overlap(first, second, per_day, teachers))
}

proof fn lemma_contains_add(a: Seq<usize>, b: Seq<usize>, y: usize)
    ensures
        (a + b).contains(y) <==> a.contains(y) || b.contains(y),
{
    if (a + b).contains(y) {
        let k = choose|k: int| 0 <= k < (a + b).len() && (a + b)[k] == y;
        if k < a.len() {
            assert(a[k] == y);
        } else {
            assert(b[k - a.len()] == y);
        }
    }
    if a.contains(y) {
        let k = choose|k: int| 0 <= k < a.len() && a[k] == y;
        assert((a + b)[k] == y);
    }
    if b.contains(y) {
        let k = choose|k: int| 0 <= k < b.len() && b[k] == y;
        assert((a + b)[a.len() + k] == y);
    }
}

fn mark_entry(
    marks: &mut Vec<bool>,
    d: SlotData,
    Ghost(done): Ghost<Seq<usize>>,
    Ghost(subjects): Ghost<nat>,
)
    requires
        d.refers_within(old(marks).len() as nat, subjects),
        forall|t: int| 0 <= t < old(marks).len() ==> old(marks)@[t] == done.contains(t as usize),
    ensures
        final(marks).len() == old(marks).len(),
        forall|t: int|
            0 <= t < final(marks).len() ==> final(marks)@[t] == (done + d.teachers()).contains(
                t as usize,
            ),
{
    match d {
        SlotData::PartiallyFilled { teacher, .. } => {
            marks[teacher] = true;
            proof {
                assert forall|t: int| 0 <= t < marks.len() implies marks@[t] == (done
                    + d.teachers()).contains(t as usize) by {
                    lemma_contains_add(done, d.teachers(), t as usize);
                    if t == teacher {
                        assert(d.teachers()[0] == teacher);
                    }
                }
            }
        },
        SlotData::Empty => {
            assert(done + d.teachers() =~= done);
        },
    }
}

/// Which teachers teach in the `per_day` periods from `lo`.
fn mark_day(
    table: &Vec<ClassSlots>,
    lo: usize,
    per_day: usize,
    teachers: usize,
    Ghost(subjects): Ghost<nat>,
) -> (marks: Vec<bool>)
    requires
        lo + per_day <= usize::MAX,
        forall|c: int| 0 <= c < table.len() ==> (#[trigger] grid_of(table@)[c]).len() >= lo + per_day,
        forall|c: int, p: int|
            0 <= c < table.len() && 0 <= p < grid_of(table@)[c].len() ==> (#[trigger] grid_of(
                table@,
            )[c][p]).refers_within(teachers as nat, subjects),
    ensures
        marks.len() == teachers,
        forall|t: int|
            0 <= t < teachers ==> marks@[t] == day_teachers(
                grid_of(table@),
                lo as int,
                per_day as int,
            ).contains(t as usize),
{
    let ghost grid = grid_of(table@);
    let mut marks: Vec<bool> = Vec::new();
    let mut t: usize = 0;
    while t < teachers
        invariant
            t <= teachers,
            marks.len() == t,
            forall|j: int| 0 <= j < t ==> !marks@[j],
        decreases teachers - t,
    {
        marks.push(false);
        t += 1;
    }
    let ghost mut done: Seq<usize> = Seq::empty();
    let mut q: usize = 0;
    while q < per_day
        invariant
            q <= per_day,
            lo + per_day <= usize::MAX,
            grid == grid_of(table@),
            marks.len() == teachers,
            forall|c: int| 0 <= c < table.len() ==> (#[trigger] grid[c]).len() >= lo + per_day,
            forall|c: int, p: int|
                0 <= c < table.len() && 0 <= p < grid[c].len() ==> (
                #[trigger] grid[c][p]).refers_within(teachers as nat, subjects),
            done == day_teachers(grid, lo as int, q as int),
            forall|t: int| 0 <= t < teachers ==> marks@[t] == done.contains(t as usize),
        decreases per_day - q,
    {
        let ghost before = done;
        let ghost mut here: Seq<usize> = Seq::empty();
        let mut c: usize = 0;
        proof {
            assert(before + here =~= before);
        }
        while c < table.len()
            invariant
                c <= table.len(),
                q < per_day,
                lo + per_day <= usize::MAX,
                grid == grid_of(table@),
                marks.len() == teachers,
                forall|c: int| 0 <= c < table.len() ==> (#[trigger] grid[c]).len() >= lo + per_day,
                forall|c: int, p: int|
                    0 <= c < table.len() && 0 <= p < grid[c].len() ==> (
                    #[trigger] grid[c][p]).refers_within(teachers as nat, subjects),
                here == gathered(grid, lo + q, c as int, false),
                forall|t: int| 0 <= t < teachers ==> marks@[t] == (before + here).contains(t as usize),
            decreases table.len() - c,
        {
            assert(grid[c as int].len() >= lo + per_day);
            let slot = cell(table, c, lo + q);
            assert(slot.refers_within(teachers as nat, subjects));
            match slot {
                Slot::Single(d) => {
                    mark_entry(&mut marks, d, Ghost(before + here), Ghost(subjects));
                    proof {
                        assert((before + here) + d.teachers() =~= before + (here + d.teachers()));
                        here = here + d.teachers();
                    }
                },
                Slot::Double { first, second, .. } => {
                    mark_entry(&mut marks, first, Ghost(before + here), Ghost(subjects));
                    mark_entry(
                        &mut marks,
                        second,
                        Ghost(before + here + first.teachers()),
                        Ghost(subjects),
                    );
                    proof {
                        assert(((before + here) + first.teachers()) + second.teachers() =~= before + (
                        here + (first.teachers() + second.teachers())));
                        here = here + (first.teachers() + second.teachers());
                    }
                },
            }
            c += 1;
        }
        proof {
            done = before + here;
        }
        q += 1;
    }
    marks
}

/// The cost of teachers who work both shifts of a day: the number of teachers and days
/// on which a teacher teaches in both tables.
pub fn teacher_shifts(
    table1: &Vec<ClassSlots>,
    table2: &Vec<ClassSlots>,
    max_periods_per_day: u32,
    data: &TimetableData,
) -> (points: i32)
    requires
        data@.wf(),
        max_periods_per_day <= MAX_PERIODS_PER_DAY,
        grid_wf(grid_of(table1@), data@, 5 * max_periods_per_day),
        grid_wf(grid_of(table2@), data@, 5 * max_periods_per_day),
    ensures
        points == shift_overlap(
            grid_of(table1@),
            grid_of(table2@),
            max_periods_per_day as int,
            data@.teachers.len() as int,
        ),
        0 <= points <= MAX_COST,
{
    let per_day = max_periods_per_day as usize;
    let teachers = data.teachers.len();
    let ghost first = grid_of(table1@);
    let ghost second = grid_of(table2@);
    let ghost f = week_overlap(first, second, per_day as int, teachers as int);
    let ghost subjects = data@.subjects.len();
    let mut points: i32 = 0;
    let mut day: usize = 0;
    let mut lo: usize = 0;
    proof {
        assert forall|c: int, p: int|
            0 <= c < table1.len() && 0 <= p < first[c].len() implies (
        #[trigger] first[c][p]).refers_within(teachers as nat, subjects) by {
            assert(first[c][p].refers_within(data@.teachers.len(), data@.subjects.len()));
        }
        assert forall|c: int, p: int|
            0 <= c < table2.len() && 0 <= p < second[c].len() implies (
        #[trigger] second[c][p]).refers_within(teachers as nat, subjects) by {
            assert(second[c][p].refers_within(data@.teachers.len(), data@.subjects.len()));
        }
    }
    while day < 5
        invariant
            day <= 5,
            lo == day * per_day,
            per_day <= MAX_PERIODS_PER_DAY,
            teachers == data@.teachers.len(),
            teachers <= MAX_ENTITIES,
            first == grid_of(table1@),
            second == grid_of(table2@),
            f == week_overlap(first, second, per_day as int, teachers as int),
            forall|c: int| 0 <= c < table1.len() ==> (#[trigger] first[c]).len() == 5 * per_day,
            forall|c: int| 0 <= c < table2.len() ==> (#[trigger] second[c]).len() == 5 * per_day,
            forall|c: int, p: int|
                0 <= c < table1.len() && 0 <= p < first[c].len() ==> (
                #[trigger] first[c][p]).refers_within(teachers as nat, subjects),
            forall|c: int, p: int|
                0 <= c < table2.len() && 0 <= p < second[c].len() ==> (
                #[trigger] second[c][p]).refers_within(teachers as nat, subjects),
            points == sum(day as int, f),
            0 <= points <= day * 10_000,
        decreases 5 - day,
    {
        proof {
            assert(lo + per_day <= 5 * per_day) by (nonlinear_arith)
                requires
                    lo == day * per_day,
                    day < 5,
            ;
            assert((day + 1) * per_day == lo + per_day) by (nonlinear_arith)
                requires
                    lo == day * per_day,
            ;
        }
        let marks1 = mark_day(table1, lo, per_day, teachers, Ghost(subjects));
        let marks2 = mark_day(table2, lo, per_day, teachers, Ghost(subjects));
        let ghost g = day_overlap(first, second, per_day as int, day as int);
        let mut count: i32 = 0;
        let mut t: usize = 0;
        while t < teachers
            invariant
                t <= teachers,
                teachers <= MAX_ENTITIES,
                marks1.len() == teachers,
                marks2.len() == teachers,
                lo == day * per_day,
                g == day_overlap(first, second, per_day as int, day as int),
                forall|j: int|
                    0 <= j < teachers ==> marks1@[j] == day_teachers(
                        first,
                        lo as int,
                        per_day as int,
                    ).contains(j as usize),
                forall|j: int|
                    0 <= j < teachers ==> marks2@[j] == day_teachers(
                        second,
                        lo as int,
                        per_day as int,
                    ).contains(j as usize),
                count == sum(t as int, g),
                0 <= count <= t,
            decreases teachers - t,
        {
            let extra: i32 = if marks1[t] && marks2[t] {
                1
            } else {
                0
            };
            assert(extra == g(t as int));
            count = count + extra;
            t += 1;
        }
        assert(count == f(day as int));
        points = points + count;
        day += 1;
        lo = lo + per_day;
    }
    points
}

/// The subjects of an entry: one or none.
pub open spec fn entry_subjects(d: SlotData) -> Seq<usize> {
    match d {
        SlotData::Empty => Seq::empty(),
        SlotData::PartiallyFilled { subject, .. } => seq![subject],
    }
}

/// The subjects taught in a cell, first group first.
pub open spec fn cell_subjects(slot: Slot) -> Seq<usize> {
    match slot {
        Slot::Single(d) => entry_subjects(d),
        Slot::Double { first, second, .. } => entry_subjects(first) + entry_subjects(second),
    }
}

/// The subjects that the first `n` classes are taught in period `p`, class after class.
pub open spec fn period_subjects(grid: Seq<Seq<Slot>>, p: int, n: int) -> Seq<usize>
    decreases n,
{
    if n <= 0 {
        Seq::empty()
    } else {
        period_subjects(grid, p, n - 1) + cell_subjects(grid[n - 1][p])
    }
}

/// For each lesson of `subjects`, 1 if its subject is of `kind`.
pub open spec fn needs_kind(
    data: ProblemView,
    subjects: Seq<usize>,
    kind: Seq<char>,
) -> spec_fn(int) -> int {
    |i: int| one_if(data.subjects[subjects[i] as int].kind == kind)
}

/// How many of the lessons in `subjects` need a room of `kind`.
pub open spec fn demand(data: ProblemView, subjects: Seq<usize>, kind: Seq<char>) -> int {
    sum(subjects.len() as int, needs_kind(data, subjects, kind))
}

/// The rooms taken after `n` lessons of `kind` each claimed the first free room of
/// that kind, as long as there was one.
pub open spec fn claimed(
    rooms: Seq<RoomView>,
    used: Seq<usize>,
    kind: Seq<char>,
    n: int,
) -> Seq<usize>
    decreases n,
{
    if n <= 0 {
        used
    } else {
        let before = claimed(rooms, used, kind, n - 1);
        let r = first_free_room(rooms, before, kind, 0);
        if r < rooms.len() {
            before.push(r as usize)
        } else {
            before
        }
    }
}

/// Whether the last of `n` lessons of `kind` finds no room.
pub open spec fn crowded(rooms: Seq<RoomView>, used: Seq<usize>, kind: Seq<char>, n: int) -> bool {
    n > 0 && first_free_room(rooms, claimed(rooms, used, kind, n - 1), kind, 0) >= rooms.len()
}

/// The rooms taken in a period, and the kinds that ran out of rooms so far.
pub struct Claims {
    pub used: Seq<usize>,
    pub short: int,
}

/// The claims after the first `k` kinds were served in their order: each kind claims
/// rooms for all its lessons, and counts once if they do not all find one.
pub open spec fn kinds_claimed(
    data: ProblemView,
    kinds: Seq<Seq<char>>,
    subjects: Seq<usize>,
    k: int,
) -> Claims
    decreases k,
{
    if k <= 0 {
        Claims { used: Seq::empty(), short: 0 }
    } else {
        let before = kinds_claimed(data, kinds, subjects, k - 1);
        let n = demand(data, subjects, kinds[k - 1]);
        Claims {
            used: claimed(data.rooms, before.used, kinds[k - 1], n),
            short: before.short + one_if(crowded(data.rooms, before.used, kinds[k - 1], n)),
        }
    }
}

/// For each period, the kinds that run out of rooms in it.
pub open spec fn period_short(
    data: ProblemView,
    kinds: Seq<Seq<char>>,
    grid: Seq<Seq<Slot>>,
) -> spec_fn(int) -> int {
    |p: int|
        kinds_claimed(
            data,
            kinds,
            period_subjects(grid, p, grid.len() as int),
            kinds.len() as int,
        ).short
}

/// The kinds in the order in which they claim rooms: the `listed` ones as they are
/// listed, then the kind of each of the first `n` subjects that did not come before. So
/// every kind that a subject has is served, and the list decides only who goes first.
pub open spec fn kind_order(
    listed: Seq<Seq<char>>,
    subjects: Seq<SubjectView>,
    n: int,
) -> Seq<Seq<char>>
    decreases n,
{
    if n <= 0 {
        listed
    } else {
        let before = kind_order(listed, subjects, n - 1);
        if before.contains(subjects[n - 1].kind) {
            before
        } else {
            before.push(subjects[n - 1].kind)
        }
    }
}

/// The kinds of a school in the order in which they claim rooms; see [`kind_order`].
pub open spec fn serving_order(data: ProblemView, listed: Seq<Seq<char>>) -> Seq<Seq<char>> {
    kind_order(listed, data.subjects, data.subjects.len() as int)
}

/// The cost of too many lessons of a kind: in every period, every kind of `kinds`
/// counts once if its lessons do not all find a room, the kinds claiming rooms in the
/// order of the list.
pub open spec fn kinds_short(
    data: ProblemView,
    kinds: Seq<Seq<char>>,
    grid: Seq<Seq<Slot>>,
    periods: int,
) -> int {
    sum(periods, period_short(data, kinds, grid))
}

fn push_subject(list: &mut Vec<usize>, d: SlotData, Ghost(bound): Ghost<nat>)
    requires
        d matches SlotData::PartiallyFilled { subject, .. } ==> subject < bound,
        forall|i: int| 0 <= i < old(list).len() ==> old(list)@[i] < bound,
    ensures
        final(list)@ == old(list)@ + entry_subjects(d),
        forall|i: int| 0 <= i < final(list).len() ==> final(list)@[i] < bound,
{
    match d {
        SlotData::PartiallyFilled { subject, .. } => {
            list.push(subject);
            assert(list@ =~= old(list)@ + entry_subjects(d));
        },
        SlotData::Empty => {
            assert(list@ =~= old(list)@ + entry_subjects(d));
        },
    }
}

fn count_demand(data: &TimetableData, subjects: &Vec<usize>, kind: &String) -> (n: usize)
    requires
        forall|i: int| 0 <= i < subjects.len() ==> subjects@[i] < data.subjects.len(),
    ensures
        n == demand(data@, subjects@, kind@),
        n <= subjects.len(),
{
    let ghost f = needs_kind(data@, subjects@, kind@);
    let mut n: usize = 0;
    let mut i: usize = 0;
    while i < subjects.len()
        invariant
            i <= subjects.len(),
            forall|i: int| 0 <= i < subjects.len() ==> subjects@[i] < data.subjects.len(),
            f == needs_kind(data@, subjects@, kind@),
            n == sum(i as int, f),
            n <= i,
        decreases subjects.len() - i,
    {
        if data.subjects[subjects[i]].kind == *kind {
            n = n + 1;
        }
        assert(sum(i + 1, f) == sum(i as int, f) + f(i as int));
        i += 1;
    }
    n
}

/// The kinds in the order in which they claim rooms: see [`serving_order`].
fn kinds_to_serve(data: &TimetableData, listed: &Vec<String>) -> (order: Vec<String>)
    ensures
        texts(order@) == serving_order(data@, texts(listed@)),
        order.len() <= listed.len() + data.subjects.len(),
{
    let mut order: Vec<String> = Vec::new();
    let mut i: usize = 0;
    while i < listed.len()
        invariant
            i <= listed.len(),
            order.len() == i,
            forall|j: int| 0 <= j < i ==> order@[j]@ == listed@[j]@,
        decreases listed.len() - i,
    {
        order.push(listed[i].clone());
        i += 1;
    }
    assert(texts(order@) =~= texts(listed@));
    let mut s: usize = 0;
    while s < data.subjects.len()
        invariant
            s <= data.subjects.len(),
            texts(order@) == kind_order(texts(listed@), data@.subjects, s as int),
            order.len() <= listed.len() + s,
        decreases data.subjects.len() - s,
    {
        let kind = &data.subjects[s].kind;
        assert(data@.subjects[s as int].kind == kind@);
        if !has_kind(&order, kind) {
            let ghost before = texts(order@);
            order.push(kind.clone());
            assert(texts(order@) =~= before.push(kind@));
        }
        s += 1;
    }
    order
}

/// The cost of too many lessons of a kind in the periods of `shift`. Every kind that a
/// subject has claims rooms: those of `rules.capacity_kinds` first, in the order of
/// that list, then the others in the order of the subjects.
pub fn hard_too_many_subjects_of_same_kind(
    timetable: &Timetable,
    shift: Shift,
    rules: &Rules,
) -> (points: i32)
    requires
        timetable.shift_wf(shift),
        rules@.wf(),
    ensures
        points == kinds_short(
            timetable@.data,
            serving_order(timetable@.data, rules@.capacity_kinds),
            timetable@.grid(shift),
            timetable@.periods(),
        ),
        0 <= points <= MAX_COST,
{
    let periods: usize = 5 * (timetable.max_periods_per_day as usize);
    let table = timetable.table(shift);
    let data = &timetable.data;
    let order = kinds_to_serve(data, &rules.capacity_kinds);
    let ghost grid = grid_of(table@);
    let ghost kinds = texts(order@);
    let ghost f = period_short(data@, kinds, grid);
    let mut points: i32 = 0;
    let mut p: usize = 0;
    while p < periods
        invariant
            p <= periods,
            grid == grid_of(table@),
            kinds == texts(order@),
            order.len() <= MAX_RULES + MAX_ENTITIES,
            grid_wf(grid, data@, periods as int),
            periods <= 5 * MAX_PERIODS_PER_DAY,
            f == period_short(data@, kinds, grid),
            points == sum(p as int, f),
            0 <= points <= p * 10_100,
        decreases periods - p,
    {
        let mut subjects: Vec<usize> = Vec::new();
        let mut c: usize = 0;
        while c < table.len()
            invariant
                c <= table.len(),
                p < periods,
                grid == grid_of(table@),
                grid_wf(grid, data@, periods as int),
                subjects@ == period_subjects(grid, p as int, c as int),
                forall|i: int| 0 <= i < subjects.len() ==> subjects@[i] < data.subjects.len(),
            decreases table.len() - c,
        {
            assert(grid[c as int].len() == periods);
            let slot = cell(table, c, p);
            assert(slot.refers_within(data@.teachers.len(), data@.subjects.len()));
            let ghost bound = data.subjects.len() as nat;
            match slot {
                Slot::Single(d) => {
                    push_subject(&mut subjects, d, Ghost(bound));
                },
                Slot::Double { first, second, .. } => {
                    let ghost before = subjects@;
                    push_subject(&mut subjects, first, Ghost(bound));
                    push_subject(&mut subjects, second, Ghost(bound));
                    assert(subjects@ =~= before + (entry_subjects(first) + entry_subjects(second)));
                },
            }
            c += 1;
        }
        let mut used: Vec<usize> = Vec::new();
        let mut short: i32 = 0;
        let mut k: usize = 0;
        while k < order.len()
            invariant
                k <= order.len(),
                kinds == texts(order@),
                order.len() <= MAX_RULES + MAX_ENTITIES,
                forall|i: int| 0 <= i < subjects.len() ==> subjects@[i] < data.subjects.len(),
                (Claims { used: used@, short: short as int }) == kinds_claimed(
                    data@,
                    kinds,
                    subjects@,
                    k as int,
                ),
                0 <= short <= k,
            decreases order.len() - k,
        {
            let kind = &order[k];
            assert(kinds[k as int] == kind@);
            let n = count_demand(data, &subjects, kind);
            let ghost start = used@;
            let mut found = true;
            let mut i: usize = 0;
            while i < n
                invariant
                    i <= n,
                    used@ == claimed(data@.rooms, start, kind@, i as int),
                    i > 0 ==> found == !crowded(data@.rooms, start, kind@, i as int),
                decreases n - i,
            {
                let r = crate::rooms::find_room(data, &used, kind);
                if r < data.rooms.len() {
                    used.push(r);
                    found = true;
                } else {
                    found = false;
                }
                i += 1;
            }
            if n > 0 && !found {
                short = short + 1;
            }
            k += 1;
        }
        assert(short == f(p as int));
        points = points + short;
        p += 1;
    }
    points
}

/// For each period, 1 if the row has a whole-class lesson in `subject` in it.
pub open spec fn taught_at(row: Seq<Slot>, subject: usize) -> spec_fn(int) -> int {
    |p: int| one_if(whole_class_has(row[p], subject))
}

/// For each period, 1 if the row has a whole-class lesson in `subject` in it and in
/// the period after it, on the same day.
pub open spec fn paired_at(row: Seq<Slot>, per_day: int, subject: usize) -> spec_fn(int) -> int {
    |p: int|
        one_if(
            whole_class_has(row[p], subject) && p + 1 < row.len() && p % per_day + 1 < per_day
                && whole_class_has(row[p + 1], subject),
        )
}

/// Whether a class has whole-class lessons in `subject` but never two of them in
/// periods that follow each other on one day.
pub open spec fn never_paired(row: Seq<Slot>, per_day: int, subject: usize) -> bool {
    sum(row.len() as int, taught_at(row, subject)) > 0 && sum(
        row.len() as int,
        paired_at(row, per_day, subject),
    ) == 0
}

/// For each listed subject, 1 if the row has it, but never twice in a row.
pub open spec fn class_unpaired(
    subjects: Seq<usize>,
    row: Seq<Slot>,
    per_day: int,
) -> spec_fn(int) -> int {
    |b: int| one_if(never_paired(row, per_day, subjects[b]))
}

/// For each class, the listed subjects that it has, but never twice in a row.
pub open spec fn grid_unpaired(subjects: Seq<usize>, grid: Seq<Seq<Slot>>, per_day: int) -> spec_fn(
    int,
) -> int {
    |c: int| sum(subjects.len() as int, class_unpaired(subjects, grid[c], per_day))
}

/// The cost of subjects that want double periods: every class and entry of
/// `rules.block_subjects` counts once if the class has the subject but never twice in
/// a row.
pub open spec fn unpaired_subjects(
    subjects: Seq<usize>,
    grid: Seq<Seq<Slot>>,
    per_day: int,
) -> int {
    sum(grid.len() as int, grid_unpaired(subjects, grid, per_day))
}

fn has_whole_class(slot: Slot, subject: usize) -> (r: bool)
    ensures
        r == whole_class_has(slot, subject),
{
    match slot {
        Slot::Single(SlotData::PartiallyFilled { subject: s, .. }) => s == subject,
        _ => false,
    }
}

fn is_never_paired(row: &Vec<Slot>, per_day: usize, subject: usize) -> (r: bool)
    requires
        row.len() == 5 * per_day,
        per_day <= MAX_PERIODS_PER_DAY,
    ensures
        r == never_paired(row@, per_day as int, subject),
{
    let ghost f = taught_at(row@, subject);
    let ghost g = paired_at(row@, per_day as int, subject);
    let mut lessons: u32 = 0;
    let mut pairs: u32 = 0;
    let mut p: usize = 0;
    while p < row.len()
        invariant
            p <= row.len(),
            row.len() == 5 * per_day,
            per_day <= MAX_PERIODS_PER_DAY,
            f == taught_at(row@, subject),
            g == paired_at(row@, per_day as int, subject),
            lessons == sum(p as int, f),
            pairs == sum(p as int, g),
            lessons <= p,
            pairs <= p,
        decreases row.len() - p,
    {
        if has_whole_class(row[p], subject) {
            lessons = lessons + 1;
            if p + 1 < row.len() && p % per_day + 1 < per_day && has_whole_class(row[p + 1], subject) {
                pairs = pairs + 1;
            }
        }
        assert(sum(p + 1, f) == sum(p as int, f) + f(p as int));
        assert(sum(p + 1, g) == sum(p as int, g) + g(p as int));
        p += 1;
    }
    lessons > 0 && pairs == 0
}

/// The cost of the subjects that want double periods and never get one.
pub fn hard_block_classes(timetable: &Timetable, shift: Shift, rules: &Rules) -> (points: i32)
    requires
        timetable.shift_wf(shift),
        rules@.wf(),
    ensures
        points == unpaired_subjects(
            rules@.block_subjects,
            timetable@.grid(shift),
            timetable@.max_periods_per_day as int,
        ),
        0 <= points <= MAX_COST,
{
    let per_day = timetable.max_periods_per_day as usize;
    let table = timetable.table(shift);
    let ghost grid = grid_of(table@);
    let ghost subjects = rules@.block_subjects;
    let ghost f = grid_unpaired(subjects, grid, per_day as int);
    let mut points: i32 = 0;
    let mut c: usize = 0;
    while c < table.len()
        invariant
            c <= table.len(),
            per_day <= MAX_PERIODS_PER_DAY,
            grid == grid_of(table@),
            subjects == rules@.block_subjects,
            subjects.len() <= MAX_RULES,
            countable(grid, 5 * per_day),
            f == grid_unpaired(subjects, grid, per_day as int),
            points == sum(c as int, f),
            0 <= points <= c * 100,
        decreases table.len() - c,
    {
        let row = &table[c].slots;
        assert(row@ == grid[c as int]);
        assert(grid[c as int].len() == 5 * per_day);
        let ghost g = class_unpaired(subjects, row@, per_day as int);
        let mut count: i32 = 0;
        let mut b: usize = 0;
        while b < rules.block_subjects.len()
            invariant
                b <= rules.block_subjects.len(),
                subjects == rules@.block_subjects,
                subjects.len() <= MAX_RULES,
                row.len() == 5 * per_day,
                per_day <= MAX_PERIODS_PER_DAY,
                g == class_unpaired(subjects, row@, per_day as int),
                count == sum(b as int, g),
                0 <= count <= b,
            decreases rules.block_subjects.len() - b,
        {
            if is_never_paired(row, per_day, rules.block_subjects[b]) {
                count = count + 1;
            }
            assert(sum(b + 1, g) == sum(b as int, g) + g(b as int));
            b += 1;
        }
        assert(count == f(c as int));
        points = points + count;
        c += 1;
    }
    points
}

} // verus!
