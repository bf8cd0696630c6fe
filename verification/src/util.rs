//! The timetable as the teachers see it, and the rules that look at a teacher's day.

use vstd::prelude::*;

use crate::cost::{cell, MAX_COST};
use crate::logic::{
    grid_of, grid_wf, rows_numbered, ClassSlots, Shift, Slot, SlotData, Timetable, TimetableData,
    MAX_ENTITIES, MAX_PERIODS_PER_DAY, MAX_RELATIONS,
};
use crate::rules::{Rules, RulesView};
use crate::sums::{one_if, sum};
use crate::Relation;

verus! {

/// One period of a teacher: free, or a lesson in `subject` with `class`.
#[derive(Clone, Copy, Debug, PartialEq, Eq, Structural)]
pub enum TeacherSlot {
    Empty,
    PartiallyFilled { class: usize, subject: usize },
}

/// The week of one teacher.
#[derive(Debug)]
pub struct TeacherSlots {
    pub slots: Vec<TeacherSlot>,
}

impl View for TeacherSlots {
    type V = Seq<TeacherSlot>;

    open spec fn view(&self) -> Seq<TeacherSlot> {
        self.slots@
    }
}

impl Clone for TeacherSlots {
    fn clone(&self) -> (r: Self)
        ensures
            r@ == self@,
    {
        let mut slots: Vec<TeacherSlot> = Vec::new();
        let mut i: usize = 0;
        while i < self.slots.len()
            invariant
                i <= self.slots.len(),
                slots.len() == i,
                forall|j: int| 0 <= j < i ==> slots@[j] == self.slots@[j],
            decreases self.slots.len() - i,
        {
            slots.push(self.slots[i]);
            i += 1;
        }
        assert(slots@ =~= self.slots@);
        TeacherSlots { slots }
    }
}

/// The weeks of the teachers, as sequences.
pub open spec fn weeks_of(table: Seq<TeacherSlots>) -> Seq<Seq<TeacherSlot>> {
    Seq::new(table.len(), |t: int| table[t]@)
}

/// What an entry means to `teacher`, if it is theirs.
pub open spec fn lesson_for(d: SlotData, teacher: int, class: int) -> Option<TeacherSlot> {
    match d {
        SlotData::PartiallyFilled { teacher: t, subject, .. } => if t == teacher {
            Some(TeacherSlot::PartiallyFilled { class: class as usize, subject })
        } else {
            None
        },
        SlotData::Empty => None,
    }
}

/// What `teacher` does in period `p`, going by the first `n` classes: the lesson with
/// the last of these classes that has them there, the second group of a block before
/// the first.
pub open spec fn teacher_cell(grid: Seq<Seq<Slot>>, teacher: int, p: int, n: int) -> TeacherSlot
    decreases n,
{
    if n <= 0 {
        TeacherSlot::Empty
    } else {
        let slot = grid[n - 1][p];
        match lesson_for(slot.second_group(), teacher, n - 1) {
            Some(lesson) => lesson,
            None => match lesson_for(slot.first_group(), teacher, n - 1) {
                Some(lesson) => lesson,
                None => teacher_cell(grid, teacher, p, n - 1),
            },
        }
    }
}

/// The weeks of `teachers` teachers, read off a grid.
pub open spec fn teacher_weeks(
    grid: Seq<Seq<Slot>>,
    teachers: int,
    periods: int,
) -> Seq<Seq<TeacherSlot>> {
    Seq::new(
        teachers as nat,
        |t: int| Seq::new(periods as nat, |p: int| teacher_cell(grid, t, p, grid.len() as int)),
    )
}

fn note_lesson(table: &mut Vec<TeacherSlots>, d: SlotData, class: usize, p: usize)
    requires
        d matches SlotData::PartiallyFilled { teacher, .. } ==> teacher < old(table).len(),
        forall|t: int| 0 <= t < old(table).len() ==> p < (#[trigger] old(table)@[t])@.len(),
    ensures
        final(table).len() == old(table).len(),
        forall|t: int|
            0 <= t < old(table).len() ==> (#[trigger] final(table)@[t])@ == (match lesson_for(
                d,
                t,
                class as int,
            ) {
                Some(lesson) => old(table)@[t]@.update(p as int, lesson),
                None => old(table)@[t]@,
            }),
{
    match d {
        SlotData::PartiallyFilled { teacher, subject, .. } => {
            table[teacher].slots[p] = TeacherSlot::PartiallyFilled { class, subject };
        },
        SlotData::Empty => {},
    }
}

/// The timetable of the teachers, read off the table of the classes. The class that a
/// teacher meets is named by the index that its row carries; the rows carry their own
/// positions, so that is the row's position too.
pub fn class_table_to_teacher_table(
    class_table: &Vec<ClassSlots>,
    table_data: &TimetableData,
    max_periods_per_day: u32,
) -> (table: Vec<TeacherSlots>)
    requires
        max_periods_per_day <= MAX_PERIODS_PER_DAY,
        grid_wf(grid_of(class_table@), table_data@, 5 * max_periods_per_day),
        rows_numbered(class_table@),
    ensures
        weeks_of(table@) == teacher_weeks(
            grid_of(class_table@),
            table_data@.teachers.len() as int,
            5 * max_periods_per_day,
        ),
{
    let periods: usize = 5 * (max_periods_per_day as usize);
    let teachers = table_data.teachers.len();
    let ghost grid = grid_of(class_table@);
    let mut table: Vec<TeacherSlots> = Vec::new();
    let mut t: usize = 0;
    while t < teachers
        invariant
            t <= teachers,
            table.len() == t,
            forall|j: int| 0 <= j < t ==> (#[trigger] table@[j])@.len() == periods,
            forall|j: int, p: int|
                0 <= j < t && 0 <= p < periods ==> (#[trigger] table@[j]@[p]) == TeacherSlot::Empty,
        decreases teachers - t,
    {
        let mut slots: Vec<TeacherSlot> = Vec::new();
        let mut p: usize = 0;
        while p < periods
            invariant
                p <= periods,
                slots.len() == p,
                forall|q: int| 0 <= q < p ==> slots@[q] == TeacherSlot::Empty,
            decreases periods - p,
        {
            slots.push(TeacherSlot::Empty);
            p += 1;
        }
        table.push(TeacherSlots { slots });
        t += 1;
    }
    let mut c: usize = 0;
    while c < class_table.len()
        invariant
            c <= class_table.len(),
            grid == grid_of(class_table@),
            rows_numbered(class_table@),
            teachers == table_data@.teachers.len(),
            grid_wf(grid, table_data@, periods as int),
            table.len() == teachers,
            forall|j: int| 0 <= j < teachers ==> (#[trigger] table@[j])@.len() == periods,
            forall|j: int, p: int|
                0 <= j < teachers && 0 <= p < periods ==> (#[trigger] table@[j]@[p]) == teacher_cell(
                    grid,
                    j,
                    p,
                    c as int,
                ),
        decreases class_table.len() - c,
    {
        let mut p: usize = 0;
        while p < periods
            invariant
                p <= periods,
                c < class_table.len(),
                grid == grid_of(class_table@),
                rows_numbered(class_table@),
                teachers == table_data@.teachers.len(),
                grid_wf(grid, table_data@, periods as int),
                table.len() == teachers,
                forall|j: int| 0 <= j < teachers ==> (#[trigger] table@[j])@.len() == periods,
                forall|j: int, q: int|
                    0 <= j < teachers && 0 <= q < periods ==> (#[trigger] table@[j]@[q]) == (if q
                        < p {
                        teacher_cell(grid, j, q, c + 1)
                    } else {
                        teacher_cell(grid, j, q, c as int)
                    }),
            decreases periods - p,
        {
            assert(grid[c as int].len() == periods);
            let slot = cell(class_table, c, p);
            assert(slot.refers_within(table_data@.teachers.len(), table_data@.subjects.len()));
            let class = class_table[c].class_index as usize;
            assert(class == c);
            match slot {
                Slot::Single(d) => {
                    note_lesson(&mut table, d, class, p);
                },
                Slot::Double { first, second, .. } => {
                    note_lesson(&mut table, first, class, p);
                    note_lesson(&mut table, second, class, p);
                },
            }
            p += 1;
        }
        c += 1;
    }
    proof {
        let weeks = teacher_weeks(grid, teachers as int, periods as int);
        assert forall|j: int| 0 <= j < teachers implies weeks_of(table@)[j] == weeks[j] by {
            assert(table@[j]@ =~= weeks[j]);
        }
        assert(weeks_of(table@) =~= weeks);
    }
    table
}

/// Whether a teacher is busy in a period.
pub open spec fn busy(slot: TeacherSlot) -> bool {
    slot is PartiallyFilled
}

/// The first of the `n` periods from `lo`, at or after `from`, in which the teacher is
/// busy; `n` where there is none.
pub open spec fn first_busy(week: Seq<TeacherSlot>, lo: int, n: int, from: int) -> int
    decreases n - from,
{
    if from >= n {
        n
    } else if busy(week[lo + from]) {
        from
    } else {
        first_busy(week, lo, n, from + 1)
    }
}

/// The last of the `n` periods from `lo` in which the teacher is busy; -1 where there
/// is none.
pub open spec fn last_busy(week: Seq<TeacherSlot>, lo: int, n: int) -> int
    decreases n,
{
    if n <= 0 {
        -1
    } else if busy(week[lo + n - 1]) {
        n - 1
    } else {
        last_busy(week, lo, n - 1)
    }
}

/// For each period of the day, 1 if the teacher is free in it between the lessons
/// `first` and `last`.
pub open spec fn gap_at(
    week: Seq<TeacherSlot>,
    lo: int,
    first: int,
    last: int,
) -> spec_fn(int) -> int {
    |q: int| one_if(first < q < last && !busy(week[lo + q]))
}

/// The free periods of a teacher's day between their first and their last lesson.
pub open spec fn day_gaps(week: Seq<TeacherSlot>, lo: int, per_day: int) -> int {
    sum(per_day, gap_at(week, lo, first_busy(week, lo, per_day, 0), last_busy(week, lo, per_day)))
}

/// For each period of the day, 1 if the teacher is busy in it.
pub open spec fn busy_at(week: Seq<TeacherSlot>, lo: int) -> spec_fn(int) -> int {
    |q: int| one_if(busy(week[lo + q]))
}

/// The lessons of a teacher's day.
pub open spec fn day_load(week: Seq<TeacherSlot>, lo: int, per_day: int) -> int {
    sum(per_day, busy_at(week, lo))
}

/// The rules that look at a teacher's day.
#[derive(Clone, Copy, Debug, PartialEq, Eq, Structural)]
pub enum TeacherRule {
    Holes,
    Spread,
}

/// What one day of one teacher costs under a rule: 1 or 0. Under `Holes`, a day costs
/// if it has more free periods between lessons than `rules.teacher_gap_tolerance`.
/// Under `Spread`, a day costs if it has exactly one lesson, or `rules.teacher_day_max`
/// lessons or more; with `None` there, no day costs.
pub open spec fn teacher_day_cost(
    rule: TeacherRule,
    rules: RulesView,
    week: Seq<TeacherSlot>,
    lo: int,
    per_day: int,
) -> int {
    match rule {
        TeacherRule::Holes => one_if(day_gaps(week, lo, per_day) > rules.teacher_gap_tolerance),
        TeacherRule::Spread => match rules.teacher_day_max {
            Some(max) => one_if(
                day_load(week, lo, per_day) == 1 || day_load(week, lo, per_day) >= max,
            ),
            None => 0,
        },
    }
}

/// For each day of the week, what it costs a teacher under a rule.
pub open spec fn teacher_days_cost(
    rule: TeacherRule,
    rules: RulesView,
    week: Seq<TeacherSlot>,
    per_day: int,
) -> spec_fn(int) -> int {
    |day: int| teacher_day_cost(rule, rules, week, day * per_day, per_day)
}

/// For each teacher, what their week costs under a rule.
pub open spec fn teachers_cost(
    rule: TeacherRule,
    rules: RulesView,
    weeks: Seq<Seq<TeacherSlot>>,
    per_day: int,
) -> spec_fn(int) -> int {
    |t: int| sum(5, teacher_days_cost(rule, rules, weeks[t], per_day))
}

/// What the weeks of the teachers cost under a rule: the sum over the teachers and
/// their five days.
pub open spec fn teacher_week_cost(
    rule: TeacherRule,
    rules: RulesView,
    weeks: Seq<Seq<TeacherSlot>>,
    per_day: int,
) -> int {
    sum(weeks.len() as int, teachers_cost(rule, rules, weeks, per_day))
}

fn is_busy(slot: TeacherSlot) -> (r: bool)
    ensures
        r == busy(slot),
{
    match slot {
        TeacherSlot::Empty => false,
        TeacherSlot::PartiallyFilled { .. } => true,
    }
}

fn gaps_of_day(week: &Vec<TeacherSlot>, lo: usize, per_day: usize) -> (count: u32)
    requires
        lo + per_day <= week.len(),
        per_day <= MAX_PERIODS_PER_DAY,
    ensures
        count == day_gaps(week@, lo as int, per_day as int),
{
    let mut first: usize = 0;
    while first < per_day && !is_busy(week[lo + first])
        invariant
            first <= per_day,
            lo + per_day <= week.len(),
            first_busy(week@, lo as int, per_day as int, 0) == first_busy(
                week@,
                lo as int,
                per_day as int,
                first as int,
            ),
        decreases per_day - first,
    {
        first += 1;
    }
    let mut end: usize = per_day;
    while end > 0 && !is_busy(week[lo + end - 1])
        invariant
            end <= per_day,
            lo + per_day <= week.len(),
            last_busy(week@, lo as int, per_day as int) == last_busy(week@, lo as int, end as int),
        decreases end,
    {
        end -= 1;
    }
    let ghost f = gap_at(week@, lo as int, first as int, end as int - 1);
    let mut count: u32 = 0;
    let mut q: usize = 0;
    while q < per_day
        invariant
            q <= per_day,
            per_day <= MAX_PERIODS_PER_DAY,
            lo + per_day <= week.len(),
            f == gap_at(week@, lo as int, first as int, end as int - 1),
            count == sum(q as int, f),
            0 <= count <= q,
        decreases per_day - q,
    {
        if first < q && q + 1 < end && !is_busy(week[lo + q]) {
            count = count + 1;
        }
        assert(sum(q + 1, f) == sum(q as int, f) + f(q as int));
        q += 1;
    }
    count
}

fn load_of_day(week: &Vec<TeacherSlot>, lo: usize, per_day: usize) -> (count: u32)
    requires
        lo + per_day <= week.len(),
        per_day <= MAX_PERIODS_PER_DAY,
    ensures
        count == day_load(week@, lo as int, per_day as int),
{
    let ghost f = busy_at(week@, lo as int);
    let mut count: u32 = 0;
    let mut q: usize = 0;
    while q < per_day
        invariant
            q <= per_day,
            per_day <= MAX_PERIODS_PER_DAY,
            lo + per_day <= week.len(),
            f == busy_at(week@, lo as int),
            count == sum(q as int, f),
            0 <= count <= q,
        decreases per_day - q,
    {
        if is_busy(week[lo + q]) {
            count = count + 1;
        }
        assert(sum(q + 1, f) == sum(q as int, f) + f(q as int));
        q += 1;
    }
    count
}

fn cost_of_teacher_day(
    rule: TeacherRule,
    rules: &Rules,
    week: &Vec<TeacherSlot>,
    lo: usize,
    per_day: usize,
) -> (count: i32)
    requires
        lo + per_day <= week.len(),
        per_day <= MAX_PERIODS_PER_DAY,
    ensures
        count == teacher_day_cost(rule, rules@, week@, lo as int, per_day as int),
        0 <= count <= 1,
{
    match rule {
        TeacherRule::Holes => if gaps_of_day(week, lo, per_day) > rules.teacher_gap_tolerance {
            1
        } else {
            0
        },
        TeacherRule::Spread => match rules.teacher_day_max {
            Some(max) => {
                let load = load_of_day(week, lo, per_day);
                if load == 1 || load >= max {
                    1
                } else {
                    0
                }
            },
            None => 0,
        },
    }
}

/// Whether a table of teachers has a week of `5 * per_day` periods for each of at most
/// [`MAX_ENTITIES`] teachers.
pub open spec fn weeks_wf(weeks: Seq<Seq<TeacherSlot>>, per_day: int) -> bool {
    &&& weeks.len() <= MAX_ENTITIES
    &&& forall|t: int| 0 <= t < weeks.len() ==> (#[trigger] weeks[t]).len() == 5 * per_day
}

/// What the weeks of the teachers cost under a rule.
pub fn cost_of_teachers(
    timetable: &Timetable,
    teacher_table: &Vec<TeacherSlots>,
    rules: &Rules,
    rule: TeacherRule,
) -> (points: i32)
    requires
        timetable.max_periods_per_day <= MAX_PERIODS_PER_DAY,
        weeks_wf(weeks_of(teacher_table@), timetable.max_periods_per_day as int),
    ensures
        points == teacher_week_cost(
            rule,
            rules@,
            weeks_of(teacher_table@),
            timetable.max_periods_per_day as int,
        ),
        0 <= points <= MAX_COST,
{
    let per_day = timetable.max_periods_per_day as usize;
    let ghost weeks = weeks_of(teacher_table@);
    let ghost f = teachers_cost(rule, rules@, weeks, per_day as int);
    let mut points: i32 = 0;
    let mut t: usize = 0;
    while t < teacher_table.len()
        invariant
            t <= teacher_table.len(),
            per_day <= MAX_PERIODS_PER_DAY,
            weeks == weeks_of(teacher_table@),
            weeks_wf(weeks, per_day as int),
            f == teachers_cost(rule, rules@, weeks, per_day as int),
            points == sum(t as int, f),
            0 <= points <= t * 5,
        decreases teacher_table.len() - t,
    {
        let week = &teacher_table[t].slots;
        assert(week@ == weeks[t as int]);
        assert(weeks[t as int].len() == 5 * per_day);
        let ghost g = teacher_days_cost(rule, rules@, week@, per_day as int);
        let mut count: i32 = 0;
        let mut day: usize = 0;
        let mut lo: usize = 0;
        while day < 5
            invariant
                day <= 5,
                lo == day * per_day,
                per_day <= MAX_PERIODS_PER_DAY,
                week.len() == 5 * per_day,
                g == teacher_days_cost(rule, rules@, week@, per_day as int),
                count == sum(day as int, g),
                0 <= count <= day,
            decreases 5 - day,
        {
            proof {
                assert(lo + per_day <= 5 * per_day) by (nonlinear_arith)
                    requires
                        lo == day * per_day,
                        day < 5,
                ;
                assert((day + 1) * per_day == lo + per_day) by (nonlinear_arith)
                    requires
                        lo == day * per_day,
                ;
            }
            let extra = cost_of_teacher_day(rule, rules, week, lo, per_day);
            assert(extra == g(day as int));
            count = count + extra;
            day += 1;
            lo = lo + per_day;
        }
        assert(count == f(t as int));
        points = points + count;
        t += 1;
    }
    points
}

/// The cost of teachers' days with one lesson only, or with too many.
pub fn soft_teacher_class_spread(
    timetable: &Timetable,
    teacher_table: &Vec<TeacherSlots>,
    rules: &Rules,
) -> (points: i32)
    requires
        timetable.max_periods_per_day <= MAX_PERIODS_PER_DAY,
        weeks_wf(weeks_of(teacher_table@), timetable.max_periods_per_day as int),
    ensures
        points == teacher_week_cost(
            TeacherRule::Spread,
            rules@,
            weeks_of(teacher_table@),
            timetable.max_periods_per_day as int,
        ),
        0 <= points <= MAX_COST,
{
    cost_of_teachers(timetable, teacher_table, rules, TeacherRule::Spread)
}

/// The cost of teachers' days with too many free periods between lessons.
pub fn soft_holes_in_teacher_timetable(
    timetable: &Timetable,
    teacher_table: &Vec<TeacherSlots>,
    rules: &Rules,
) -> (points: i32)
    requires
        timetable.max_periods_per_day <= MAX_PERIODS_PER_DAY,
        weeks_wf(weeks_of(teacher_table@), timetable.max_periods_per_day as int),
    ensures
        points == teacher_week_cost(
            TeacherRule::Holes,
            rules@,
            weeks_of(teacher_table@),
            timetable.max_periods_per_day as int,
        ),
        0 <= points <= MAX_COST,
{
    cost_of_teachers(timetable, teacher_table, rules, TeacherRule::Holes)
}

/// The periods a week that a teacher is asked to teach, shift by shift.
#[derive(Clone, Copy, Debug, PartialEq, Eq, Structural)]
pub struct ShiftLoad {
    pub first: u64,
    pub second: u64,
}

/// The periods a week that a requirement asks for, both groups together.
pub open spec fn periods_asked(r: Relation) -> int {
    r.per_week_first + match r.per_week_second {
        Some(n) => n as int,
        None => 0,
    }
}

/// For each requirement, the periods a week that it asks of `teacher` in `shift`.
pub open spec fn asked_of(
    relations: Seq<Relation>,
    teacher: int,
    shift: Shift,
) -> spec_fn(int) -> int {
    |k: int|
        if relations[k].teacher == teacher && relations[k].shift == shift.number() {
            periods_asked(relations[k])
        } else {
            0
        }
}

/// The periods a week that the first `n` requirements ask of `teacher` in `shift`.
pub open spec fn load_asked(relations: Seq<Relation>, teacher: int, shift: Shift, n: int) -> int {
    sum(n, asked_of(relations, teacher, shift))
}

/// For every teacher, the periods a week that the requirements ask of them in each
/// shift. A requirement with any other shift number counts for neither.
pub fn teacher_count_per_shift(timetable: &Timetable) -> (loads: Vec<ShiftLoad>)
    requires
        timetable@.data.wf(),
    ensures
        loads.len() == timetable@.data.teachers.len(),
        forall|t: int|
            0 <= t < loads.len() ==> (#[trigger] loads@[t]).first == load_asked(
                timetable@.data.relations,
                t,
                Shift::First,
                timetable@.data.relations.len() as int,
            ) && loads@[t].second == load_asked(
                timetable@.data.relations,
                t,
                Shift::Second,
                timetable@.data.relations.len() as int,
            ),
{
    let data = &timetable.data;
    let teachers = data.teachers.len();
    let ghost relations = data@.relations;
    let mut loads: Vec<ShiftLoad> = Vec::new();
    let mut t: usize = 0;
    while t < teachers
        invariant
            t <= teachers,
            loads.len() == t,
            forall|j: int| 0 <= j < t ==> (#[trigger] loads@[j]) == (ShiftLoad { first: 0, second: 0 }),
        decreases teachers - t,
    {
        loads.push(ShiftLoad { first: 0, second: 0 });
        t += 1;
    }
    let mut k: usize = 0;
    while k < data.relations.len()
        invariant
            k <= data.relations.len(),
            relations == data@.relations,
            relations.len() <= MAX_RELATIONS,
            data@.wf(),
            teachers == data@.teachers.len(),
            loads.len() == teachers,
            forall|j: int|
                0 <= j < teachers ==> (#[trigger] loads@[j]).first == load_asked(
                    relations,
                    j,
                    Shift::First,
                    k as int,
                ) && loads@[j].second == load_asked(relations, j, Shift::Second, k as int),
            forall|j: int|
                0 <= j < teachers ==> (#[trigger] loads@[j]).first <= k * 0x2_0000_0000
                    && loads@[j].second <= k * 0x2_0000_0000,
        decreases data.relations.len() - k,
    {
        let r = data.relations[k];
        assert(relations[k as int] == r);
        assert(r.teacher < teachers);
        let asked: u64 = r.per_week_first as u64 + match r.per_week_second {
            Some(n) => n as u64,
            None => 0,
        };
        let before = loads[r.teacher];
        if r.shift == 1 {
            loads[r.teacher] = ShiftLoad { first: before.first + asked, second: before.second };
        } else if r.shift == 2 {
            loads[r.teacher] = ShiftLoad { first: before.first, second: before.second + asked };
        }
        k += 1;
    }
    loads
}

} // verus!
