use vstd::prelude::*;

use crate::{Class, Relation, Room, RoomView, Subject, SubjectView, Teacher};

verus! {

/// Most periods a day that a timetable may have. The limit behind it is that of `i32`,
/// in which the violations are counted: a week has 5 times as many periods, a grid at
/// most [`MAX_ENTITIES`] rows of them, and a cell two lessons. With this bound and that
/// one, no count is above 10 000 000, the counts of all the rules of a shift add up
/// within `i32`, and such a sum times any weight of `i32`, added up over both shifts,
/// stays within `i64`.
pub const MAX_PERIODS_PER_DAY: u32 = 100;

/// Most classes, most teachers and most subjects that a timetable may have. The limit
/// behind it is that of `i32`, as for [`MAX_PERIODS_PER_DAY`]: the counts run over the
/// cells of all classes, over the days of all teachers, and over the kinds of all
/// subjects in every period.
pub const MAX_ENTITIES: usize = 10_000;

/// Most requirements that a school may have. The limit behind it is that of `u64`, in
/// which the periods asked for are added up: a requirement asks for less than
/// 2 · 2^32 periods a week, so a million of them ask for less than 2^53.
pub const MAX_RELATIONS: usize = 1_000_000;

/// One group's lesson in one period: nothing, or a teacher with a subject and, once
/// rooms are given out, a room.
#[derive(Clone, Copy, Debug, PartialEq, Eq, Structural)]
pub enum SlotData {
    Empty,
    PartiallyFilled { teacher: usize, subject: usize, room: Option<usize> },
}

/// One period of one class: a lesson for the whole class, or one cell of a paired
/// block, in which the two groups of the class are taught side by side. `before` and
/// `after` count the cells of the same block that precede and follow this one.
#[derive(Clone, Copy, Debug, PartialEq, Eq, Structural)]
pub enum Slot {
    Single(SlotData),
    Double { first: SlotData, second: SlotData, before: u32, after: u32 },
}

impl SlotData {
    /// Whether a teacher and a subject stand here.
    pub open spec fn occupied(self) -> bool {
        self is PartiallyFilled
    }

    /// The same lesson with no room.
    pub open spec fn without_room(self) -> SlotData {
        match self {
            SlotData::Empty => SlotData::Empty,
            SlotData::PartiallyFilled { teacher, subject, .. } => SlotData::PartiallyFilled {
                teacher,
                subject,
                room: None,
            },
        }
    }

    /// The same lesson in room `room`; an empty entry stays empty.
    pub open spec fn in_room(self, room: usize) -> SlotData {
        match self {
            SlotData::Empty => SlotData::Empty,
            SlotData::PartiallyFilled { teacher, subject, .. } => SlotData::PartiallyFilled {
                teacher,
                subject,
                room: Some(room),
            },
        }
    }

    /// The teachers that this entry keeps busy: one or none.
    pub open spec fn teachers(self) -> Seq<usize> {
        match self {
            SlotData::Empty => Seq::empty(),
            SlotData::PartiallyFilled { teacher, .. } => seq![teacher],
        }
    }

    /// The rooms that this entry takes up: one or none.
    pub open spec fn rooms(self) -> Seq<usize> {
        match self {
            SlotData::PartiallyFilled { room: Some(r), .. } => seq![r],
            _ => Seq::empty(),
        }
    }

    /// Whether `teacher` teaches here.
    pub open spec fn taught_by(self, teacher: usize) -> bool {
        self matches SlotData::PartiallyFilled { teacher: t, .. } && t == teacher
    }

    /// Whether `subject` is taught here.
    pub open spec fn teaches(self, subject: usize) -> bool {
        self matches SlotData::PartiallyFilled { subject: s, .. } && s == subject
    }

    /// Whether the teacher and the subject are known to the reference data.
    pub open spec fn refers_within(self, teachers: nat, subjects: nat) -> bool {
        self matches SlotData::PartiallyFilled { teacher, subject, .. } ==> teacher < teachers
            && subject < subjects
    }

    /// Whether the entry is backed by a requirement of `class` in `shift`.
    pub open spec fn backed_by(self, relations: Seq<Relation>, shift: Shift, class: int) -> bool {
        self matches SlotData::PartiallyFilled { teacher, subject, .. } ==> exists|k: int|
            0 <= k < relations.len() && (#[trigger] relations[k]).teacher == teacher
                && relations[k].subject == subject && relations[k].class == class
                && relations[k].shift == shift.number()
    }
}

impl Slot {
    /// What the first group has in this period (the whole class, in a single cell).
    pub open spec fn first_group(self) -> SlotData {
        match self {
            Slot::Single(d) => d,
            Slot::Double { first, .. } => first,
        }
    }

    /// What the second group has in this period (the whole class, in a single cell).
    pub open spec fn second_group(self) -> SlotData {
        match self {
            Slot::Single(d) => d,
            Slot::Double { second, .. } => second,
        }
    }

    /// What group `g` has in this period: the first group for 0, the second for any
    /// other number.
    pub open spec fn entry(self, g: int) -> SlotData {
        if g == 0 {
            self.first_group()
        } else {
            self.second_group()
        }
    }

    /// Whether anybody is taught in this cell.
    pub open spec fn occupied(self) -> bool {
        match self {
            Slot::Single(d) => d.occupied(),
            Slot::Double { first, second, .. } => first.occupied() || second.occupied(),
        }
    }

    /// The teachers busy in this cell, first group first.
    pub open spec fn teachers(self) -> Seq<usize> {
        match self {
            Slot::Single(d) => d.teachers(),
            Slot::Double { first, second, .. } => first.teachers() + second.teachers(),
        }
    }

    /// The rooms taken up by this cell, first group first.
    pub open spec fn rooms(self) -> Seq<usize> {
        match self {
            Slot::Single(d) => d.rooms(),
            Slot::Double { first, second, .. } => first.rooms() + second.rooms(),
        }
    }

    /// The same cell with no rooms.
    pub open spec fn without_rooms(self) -> Slot {
        match self {
            Slot::Single(d) => Slot::Single(d.without_room()),
            Slot::Double { first, second, before, after } => Slot::Double {
                first: first.without_room(),
                second: second.without_room(),
                before,
                after,
            },
        }
    }

    /// The same cell with `data` as the entry of group `group` (0 or 1; a single cell
    /// has only entry 0).
    pub open spec fn with_entry(self, group: int, data: SlotData) -> Slot {
        match self {
            Slot::Single(_) => Slot::Single(data),
            Slot::Double { first, second, before, after } => if group == 0 {
                Slot::Double { first: data, second, before, after }
            } else {
                Slot::Double { first, second: data, before, after }
            },
        }
    }

    /// Whether the lessons of the cell name teachers and subjects that exist.
    pub open spec fn refers_within(self, teachers: nat, subjects: nat) -> bool {
        self.first_group().refers_within(teachers, subjects) && self.second_group().refers_within(
            teachers,
            subjects,
        )
    }

    /// Whether the lessons of the cell are backed by requirements of `class` in `shift`.
    pub open spec fn backed_by(self, relations: Seq<Relation>, shift: Shift, class: int) -> bool {
        self.first_group().backed_by(relations, shift, class) && self.second_group().backed_by(
            relations,
            shift,
            class,
        )
    }
}

/// Block integrity of one class's week: every cell of a block knows where the block
/// starts and ends, and every cell in between belongs to the same block.
pub open spec fn blocks_intact(row: Seq<Slot>) -> bool {
    forall|i: int, j: int|
        #![trigger row[i], row[j]]
        0 <= i < row.len() && row[i] is Double && i - row[i]->before <= j <= i + row[i]->after
            ==> 0 <= j < row.len() && row[j] is Double && j - row[j]->before == i - row[i]->before
            && j + row[j]->after == i + row[i]->after
}

/// Slot legality of one class's week: whatever is taught is asked for by a requirement
/// of that class in that shift.
pub open spec fn row_legal(
    row: Seq<Slot>,
    relations: Seq<Relation>,
    shift: Shift,
    class: int,
) -> bool {
    forall|p: int| 0 <= p < row.len() ==> (#[trigger] row[p]).backed_by(relations, shift, class)
}

/// Slot legality of a grid.
pub open spec fn grid_legal(grid: Seq<Seq<Slot>>, relations: Seq<Relation>, shift: Shift) -> bool {
    forall|c: int| 0 <= c < grid.len() ==> row_legal(#[trigger] grid[c], relations, shift, c)
}

/// The reference data of a school.
#[derive(Debug)]
pub struct TimetableData {
    pub classes: Vec<Class>,
    pub rooms: Vec<Room>,
    pub subjects: Vec<Subject>,
    pub teachers: Vec<Teacher>,
    pub relations: Vec<Relation>,
}

/// The reference data as the rules read it.
pub struct ProblemView {
    pub classes: Seq<Seq<char>>,
    pub rooms: Seq<RoomView>,
    pub subjects: Seq<SubjectView>,
    pub teachers: Seq<Seq<char>>,
    pub relations: Seq<Relation>,
}

impl ProblemView {
    /// Referential integrity: every requirement names a teacher, a subject and a class
    /// that exist; and the lists are short enough to count over.
    pub open spec fn wf(self) -> bool {
        &&& self.classes.len() <= MAX_ENTITIES
        &&& self.teachers.len() <= MAX_ENTITIES
        &&& self.subjects.len() <= MAX_ENTITIES
        &&& self.relations.len() <= MAX_RELATIONS
        &&& forall|k: int|
            0 <= k < self.relations.len() ==> (#[trigger] self.relations[k]).teacher
                < self.teachers.len() && self.relations[k].subject < self.subjects.len()
                && self.relations[k].class < self.classes.len()
    }
}

impl View for TimetableData {
    type V = ProblemView;

    open spec fn view(&self) -> ProblemView {
        ProblemView {
            classes: Seq::new(self.classes@.len(), |i: int| self.classes@[i]@),
            rooms: Seq::new(self.rooms@.len(), |i: int| self.rooms@[i]@),
            subjects: Seq::new(self.subjects@.len(), |i: int| self.subjects@[i]@),
            teachers: Seq::new(self.teachers@.len(), |i: int| self.teachers@[i]@),
            relations: self.relations@,
        }
    }
}

impl Clone for TimetableData {
    fn clone(&self) -> (r: Self)
        ensures
            r@ == self@,
    {
        let mut classes: Vec<Class> = Vec::new();
        let mut i: usize = 0;
        while i < self.classes.len()
            invariant
                i <= self.classes.len(),
                classes.len() == i,
                forall|j: int| 0 <= j < i ==> classes@[j]@ == self.classes@[j]@,
            decreases self.classes.len() - i,
        {
            classes.push(self.classes[i].clone());
            i += 1;
        }
        let mut rooms: Vec<Room> = Vec::new();
        i = 0;
        while i < self.rooms.len()
            invariant
                i <= self.rooms.len(),
                rooms.len() == i,
                forall|j: int| 0 <= j < i ==> rooms@[j]@ == self.rooms@[j]@,
            decreases self.rooms.len() - i,
        {
            rooms.push(self.rooms[i].clone());
            i += 1;
        }
        let mut subjects: Vec<Subject> = Vec::new();
        i = 0;
        while i < self.subjects.len()
            invariant
                i <= self.subjects.len(),
                subjects.len() == i,
                forall|j: int| 0 <= j < i ==> subjects@[j]@ == self.subjects@[j]@,
            decreases self.subjects.len() - i,
        {
            subjects.push(self.subjects[i].clone());
            i += 1;
        }
        let mut teachers: Vec<Teacher> = Vec::new();
        i = 0;
        while i < self.teachers.len()
            invariant
                i <= self.teachers.len(),
                teachers.len() == i,
                forall|j: int| 0 <= j < i ==> teachers@[j]@ == self.teachers@[j]@,
            decreases self.teachers.len() - i,
        {
            teachers.push(self.teachers[i].clone());
            i += 1;
        }
        let mut relations: Vec<Relation> = Vec::new();
        i = 0;
        while i < self.relations.len()
            invariant
                i <= self.relations.len(),
                relations.len() == i,
                forall|j: int| 0 <= j < i ==> relations@[j] == self.relations@[j],
            decreases self.relations.len() - i,
        {
            relations.push(self.relations[i]);
            i += 1;
        }
        let r = TimetableData { classes, rooms, subjects, teachers, relations };
        assert(r@.classes =~= self@.classes);
        assert(r@.rooms =~= self@.rooms);
        assert(r@.subjects =~= self@.subjects);
        assert(r@.teachers =~= self@.teachers);
        assert(r@.relations =~= self@.relations);
        r
    }
}

/// The week of one class: `5 * max_periods_per_day` cells, day after day.
#[derive(Debug)]
pub struct ClassSlots {
    pub class_index: u32,
    pub slots: Vec<Slot>,
}

impl View for ClassSlots {
    type V = Seq<Slot>;

    open spec fn view(&self) -> Seq<Slot> {
        self.slots@
    }
}

impl Clone for ClassSlots {
    fn clone(&self) -> (r: Self)
        ensures
            r@ == self@,
            r.class_index == self.class_index,
    {
        let mut slots: Vec<Slot> = Vec::new();
        let mut i: usize = 0;
        while i < self.slots.len()
            invariant
                i <= self.slots.len(),
                slots.len() == i,
                forall|j: int| 0 <= j < i ==> slots@[j] == self.slots@[j],
            decreases self.slots.len() - i,
        {
            slots.push(self.slots[i]);
            i += 1;
        }
        assert(slots@ =~= self.slots@);
        ClassSlots { class_index: self.class_index, slots }
    }
}

/// The grid of a table: one row of cells per class.
pub open spec fn grid_of(table: Seq<ClassSlots>) -> Seq<Seq<Slot>> {
    Seq::new(table.len(), |c: int| table[c]@)
}

/// Whether each row of a table carries its own position as the class's index.
pub open spec fn rows_numbered(table: Seq<ClassSlots>) -> bool {
    forall|c: int| 0 <= c < table.len() ==> (#[trigger] table[c]).class_index == c
}

/// Whether a grid fits the reference data and the shape of the week: a row per class
/// at most, `periods` cells a row, every lesson naming a teacher and a subject that
/// exist, and every block intact.
pub open spec fn grid_wf(grid: Seq<Seq<Slot>>, data: ProblemView, periods: int) -> bool {
    &&& grid.len() <= data.classes.len()
    &&& forall|c: int| 0 <= c < grid.len() ==> (#[trigger] grid[c]).len() == periods
    &&& forall|c: int, p: int|
        0 <= c < grid.len() && 0 <= p < grid[c].len() ==> (#[trigger] grid[c][p]).refers_within(
            data.teachers.len(),
            data.subjects.len(),
        )
    &&& forall|c: int| 0 <= c < grid.len() ==> blocks_intact(#[trigger] grid[c])
}

/// Copies a table, cell by cell.
pub(crate) fn clone_table(table: &Vec<ClassSlots>) -> (r: Vec<ClassSlots>)
    ensures
        grid_of(r@) == grid_of(table@),
        r.len() == table.len(),
        rows_numbered(table@) ==> rows_numbered(r@),
{
    let mut r: Vec<ClassSlots> = Vec::new();
    let mut c: usize = 0;
    while c < table.len()
        invariant
            c <= table.len(),
            r.len() == c,
            forall|j: int| 0 <= j < c ==> r@[j]@ == table@[j]@,
            forall|j: int| 0 <= j < c ==> r@[j].class_index == table@[j].class_index,
        decreases table.len() - c,
    {
        r.push(table[c].clone());
        c += 1;
    }
    assert(grid_of(r@) =~= grid_of(table@));
    r
}

/// The two halves of the school day; each has a table of its own.
#[derive(Clone, Copy, Debug, PartialEq, Eq, PartialOrd, Structural)]
pub enum Shift {
    First,
    Second,
}

impl Shift {
    /// The number by which requirements name the shift.
    pub open spec fn number(self) -> i32 {
        match self {
            Shift::First => 1i32,
            Shift::Second => 2i32,
        }
    }

    /// The number of the shift: 1 or 2.
    pub fn to_i32(&self) -> (n: i32)
        ensures
            n == self.number(),
    {
        match self {
            Shift::First => 1,
            Shift::Second => 2,
        }
    }

    /// The shift with the number `v`, which is 1 or 2.
    pub fn from_i32(v: i32) -> (shift: Self)
        requires
            v == 1 || v == 2,
        ensures
            shift.number() == v,
    {
        if v == 1 {
            Shift::First
        } else {
            Shift::Second
        }
    }

    /// The other shift.
    pub open spec fn other(self) -> Shift {
        match self {
            Shift::First => Shift::Second,
            Shift::Second => Shift::First,
        }
    }

    /// Whether `v` is the number of the shift.
    pub fn equals(&self, v: i32) -> (same: bool)
        ensures
            same == (self.number() == v),
    {
        self.to_i32() == v
    }
}

/// A candidate solution: the reference data, the shape of the day, and one table per
/// shift.
#[derive(Debug)]
pub struct Timetable {
    pub data: TimetableData,
    pub max_periods_per_day: u32,
    pub table1: Vec<ClassSlots>,
    pub table2: Vec<ClassSlots>,
}

/// A timetable as the rules read it.
pub struct TimetableView {
    pub data: ProblemView,
    pub max_periods_per_day: nat,
    pub first: Seq<Seq<Slot>>,
    pub second: Seq<Seq<Slot>>,
}

impl TimetableView {
    /// The number of cells in a row.
    pub open spec fn periods(self) -> int {
        5 * (self.max_periods_per_day as int)
    }

    /// The grid of a shift.
    pub open spec fn grid(self, shift: Shift) -> Seq<Seq<Slot>> {
        match shift {
            Shift::First => self.first,
            Shift::Second => self.second,
        }
    }

    /// The same timetable with `grid` as the grid of `shift`.
    pub open spec fn with_grid(self, shift: Shift, grid: Seq<Seq<Slot>>) -> TimetableView {
        match shift {
            Shift::First => TimetableView { first: grid, ..self },
            Shift::Second => TimetableView { second: grid, ..self },
        }
    }

    /// Well-formedness of what both shifts share: the reference data is well-formed and
    /// the day has no more than [`MAX_PERIODS_PER_DAY`] periods.
    pub open spec fn frame_wf(self) -> bool {
        &&& self.data.wf()
        &&& self.max_periods_per_day <= MAX_PERIODS_PER_DAY
    }

    /// Well-formedness of one shift: the frame is well-formed and the grid of the shift
    /// fits it; see [`grid_wf`]. The grid of the other shift may be anything.
    pub open spec fn shift_wf(self, shift: Shift) -> bool {
        &&& self.frame_wf()
        &&& grid_wf(self.grid(shift), self.data, self.periods())
    }

    /// Well-formedness: the reference data is well-formed, the day has no more than
    /// [`MAX_PERIODS_PER_DAY`] periods, and both grids fit; see [`grid_wf`].
    pub open spec fn wf(self) -> bool {
        &&& self.data.wf()
        &&& self.max_periods_per_day <= MAX_PERIODS_PER_DAY
        &&& grid_wf(self.first, self.data, self.periods())
        &&& grid_wf(self.second, self.data, self.periods())
    }
}

impl View for Timetable {
    type V = TimetableView;

    open spec fn view(&self) -> TimetableView {
        TimetableView {
            data: self.data@,
            max_periods_per_day: self.max_periods_per_day as nat,
            first: grid_of(self.table1@),
            second: grid_of(self.table2@),
        }
    }
}

impl Clone for Timetable {
    fn clone(&self) -> (r: Self)
        ensures
            r@ == self@,
            rows_numbered(self.table1@) ==> rows_numbered(r.table1@),
            rows_numbered(self.table2@) ==> rows_numbered(r.table2@),
    {
        Timetable {
            data: self.data.clone(),
            max_periods_per_day: self.max_periods_per_day,
            table1: clone_table(&self.table1),
            table2: clone_table(&self.table2),
        }
    }
}

impl Timetable {
    /// Well-formedness of what both shifts share: see [`TimetableView::frame_wf`].
    pub open spec fn frame_wf(&self) -> bool {
        self@.frame_wf()
    }

    /// Well-formedness of one shift: the view is well-formed in that shift and every row
    /// of its table carries its class's index. Nothing is asked of the other table.
    pub open spec fn shift_wf(&self, shift: Shift) -> bool {
        &&& self@.shift_wf(shift)
        &&& rows_numbered(self.spec_table(shift)@)
    }

    /// Well-formedness: the view is well-formed and every row carries its class's index.
    /// A timetable is well-formed exactly when it is so in both shifts.
    pub open spec fn wf(&self) -> bool {
        &&& self@.wf()
        &&& rows_numbered(self.table1@)
        &&& rows_numbered(self.table2@)
    }

    /// The table of a shift, in specifications.
    pub open spec fn spec_table(&self, shift: Shift) -> Vec<ClassSlots> {
        match shift {
            Shift::First => self.table1,
            Shift::Second => self.table2,
        }
    }

    /// A timetable of the given parts.
    pub fn new(
        data: TimetableData,
        max_periods_per_day: u32,
        table1: Vec<ClassSlots>,
        table2: Vec<ClassSlots>,
    ) -> (timetable: Self)
        ensures
            timetable.data == data,
            timetable.max_periods_per_day == max_periods_per_day,
            timetable.table1 == table1,
            timetable.table2 == table2,
    {
        Self { data, max_periods_per_day, table1, table2 }
    }

    /// The table of a shift.
    pub fn table(&self, shift: Shift) -> (table: &Vec<ClassSlots>)
        ensures
            *table == self.spec_table(shift),
    {
        match shift {
            Shift::First => &self.table1,
            Shift::Second => &self.table2,
        }
    }

    /// The table of a shift, to change it. Whoever changes it answers for the
    /// well-formedness of that shift: see [`Timetable::is_well_formed_in`].
    pub fn table_mut(&mut self, shift: Shift) -> (table: &mut Vec<ClassSlots>)
        ensures
            *table == old(self).spec_table(shift),
            final(self).spec_table(shift) == *final(table),
            final(self).data == old(self).data,
            final(self).max_periods_per_day == old(self).max_periods_per_day,
            shift == Shift::First ==> final(self).table2 == old(self).table2,
            shift == Shift::Second ==> final(self).table1 == old(self).table1,
    {
        match shift {
            Shift::First => &mut self.table1,
            Shift::Second => &mut self.table2,
        }
    }
}

/// Whether a lesson names a teacher and a subject that exist.
fn entry_refers_within(d: SlotData, teachers: usize, subjects: usize) -> (ok: bool)
    ensures
        ok == d.refers_within(teachers as nat, subjects as nat),
{
    match d {
        SlotData::Empty => true,
        SlotData::PartiallyFilled { teacher, subject, .. } => teacher < teachers && subject < subjects,
    }
}

/// Whether the cell `j` of a row is a cell of the block that the cell `i` speaks of.
spec fn cell_fits(row: Seq<Slot>, i: int, j: int) -> bool {
    0 <= j < row.len() && row[j] is Double && j - row[j]->before == i - row[i]->before && j
        + row[j]->after == i + row[i]->after
}

/// Whether the cell `i` of a row, if it is a cell of a block, knows the whole block.
spec fn block_known(row: Seq<Slot>, i: int) -> bool {
    row[i] is Double ==> forall|j: int|
        i - row[i]->before <= j <= i + row[i]->after ==> #[trigger] cell_fits(row, i, j)
}

fn is_block_known(row: &Vec<Slot>, i: usize) -> (ok: bool)
    requires
        i < row.len(),
    ensures
        ok == block_known(row@, i as int),
{
    match row[i] {
        Slot::Single(_) => true,
        Slot::Double { before, after, .. } => {
            if before as usize > i {
                assert(!cell_fits(row@, i as int, i - before));
                return false;
            }
            if after as usize >= row.len() - i {
                assert(!cell_fits(row@, i as int, i + after));
                return false;
            }
            let from = i - before as usize;
            let to = i + after as usize;
            let mut j: usize = from;
            while j <= to
                invariant
                    from <= j <= to + 1,
                    to < row.len(),
                    i < row.len(),
                    from == i - before,
                    to == i + after,
                    row@[i as int] == (Slot::Double {
                        first: row@[i as int]->first,
                        second: row@[i as int]->second,
                        before,
                        after,
                    }),
                    forall|k: int| from <= k < j ==> #[trigger] cell_fits(row@, i as int, k),
                decreases to + 1 - j,
            {
                let fits = match row[j] {
                    Slot::Single(_) => false,
                    Slot::Double { before: b, after: a, .. } => b as usize <= j && j - b as usize
                        == from && a as usize == to - j,
                };
                if !fits {
                    assert(!cell_fits(row@, i as int, j as int));
                    return false;
                }
                j += 1;
            }
            true
        },
    }
}

/// Whether every block of a row is intact.
fn are_blocks_intact(row: &Vec<Slot>) -> (ok: bool)
    ensures
        ok == blocks_intact(row@),
{
    let mut i: usize = 0;
    while i < row.len()
        invariant
            i <= row.len(),
            forall|k: int| 0 <= k < i ==> block_known(row@, k),
        decreases row.len() - i,
    {
        if !is_block_known(row, i) {
            proof {
                let j = choose|j: int|
                    i - row@[i as int]->before <= j <= i + row@[i as int]->after && !cell_fits(
                        row@,
                        i as int,
                        j,
                    );
                assert(!cell_fits(row@, i as int, j));
            }
            return false;
        }
        i += 1;
    }
    assert forall|a: int, b: int|
        0 <= a < row@.len() && row@[a] is Double && a - row@[a]->before <= b <= a
            + row@[a]->after implies 0 <= b < row@.len() && row@[b] is Double && b
        - row@[b]->before == a - row@[a]->before && b + row@[b]->after == a + row@[a]->after by {
        assert(block_known(row@, a));
        assert(cell_fits(row@, a, b));
    }
    true
}

/// Whether a table fits the reference data and the shape of the week.
fn is_table_wf(table: &Vec<ClassSlots>, data: &TimetableData, periods: usize) -> (ok: bool)
    ensures
        ok == (grid_wf(grid_of(table@), data@, periods as int) && rows_numbered(table@)),
{
    let ghost grid = grid_of(table@);
    if table.len() > data.classes.len() {
        return false;
    }
    let mut c: usize = 0;
    while c < table.len()
        invariant
            c <= table.len(),
            table.len() <= data.classes.len(),
            grid == grid_of(table@),
            forall|k: int| 0 <= k < c ==> (#[trigger] table@[k]).class_index == k,
            forall|k: int| 0 <= k < c ==> (#[trigger] grid[k]).len() == periods,
            forall|k: int| 0 <= k < c ==> blocks_intact(#[trigger] grid[k]),
            forall|k: int, p: int|
                0 <= k < c && 0 <= p < grid[k].len() ==> (#[trigger] grid[k][p]).refers_within(
                    data@.teachers.len(),
                    data@.subjects.len(),
                ),
        decreases table.len() - c,
    {
        let row = &table[c];
        assert(row@ == grid[c as int]);
        if row.class_index as usize != c || row.slots.len() != periods || !are_blocks_intact(
            &row.slots,
        ) {
            return false;
        }
        let mut p: usize = 0;
        while p < periods
            invariant
                p <= periods,
                c < table.len(),
                row == &table@[c as int],
                row.slots.len() == periods,
                grid == grid_of(table@),
                forall|q: int|
                    0 <= q < p ==> (#[trigger] row@[q]).refers_within(
                        data@.teachers.len(),
                        data@.subjects.len(),
                    ),
            decreases periods - p,
        {
            let fits = match row.slots[p] {
                Slot::Single(d) => entry_refers_within(d, data.teachers.len(), data.subjects.len()),
                Slot::Double { first, second, .. } => entry_refers_within(
                    first,
                    data.teachers.len(),
                    data.subjects.len(),
                ) && entry_refers_within(second, data.teachers.len(), data.subjects.len()),
            };
            if !fits {
                assert(!grid[c as int][p as int].refers_within(
                    data@.teachers.len(),
                    data@.subjects.len(),
                ));
                return false;
            }
            p += 1;
        }
        c += 1;
    }
    true
}

impl TimetableData {
    /// Whether the reference data is well-formed: see [`ProblemView::wf`].
    pub fn is_well_formed(&self) -> (ok: bool)
        ensures
            ok == self@.wf(),
    {
        if self.classes.len() > MAX_ENTITIES || self.teachers.len() > MAX_ENTITIES
            || self.subjects.len() > MAX_ENTITIES || self.relations.len() > MAX_RELATIONS {
            return false;
        }
        let mut k: usize = 0;
        while k < self.relations.len()
            invariant
                k <= self.relations.len(),
                forall|j: int|
                    0 <= j < k ==> (#[trigger] self@.relations[j]).teacher < self@.teachers.len()
                        && self@.relations[j].subject < self@.subjects.len()
                        && self@.relations[j].class < self@.classes.len(),
            decreases self.relations.len() - k,
        {
            let r = self.relations[k];
            if r.teacher >= self.teachers.len() || r.subject >= self.subjects.len() || r.class
                >= self.classes.len() {
                assert(self@.relations[k as int] == r);
                return false;
            }
            k += 1;
        }
        true
    }
}

impl Timetable {
    /// Whether what both shifts share is well-formed: see [`Timetable::frame_wf`].
    pub fn is_frame_well_formed(&self) -> (ok: bool)
        ensures
            ok == self.frame_wf(),
    {
        self.data.is_well_formed() && self.max_periods_per_day <= MAX_PERIODS_PER_DAY
    }

    /// Whether the timetable is well-formed in one shift: see [`Timetable::shift_wf`].
    /// Whoever gets a timetable from outside asks this before handing the shift to a
    /// function that reads it.
    pub fn is_well_formed_in(&self, shift: Shift) -> (ok: bool)
        ensures
            ok == self.shift_wf(shift),
    {
        if !self.is_frame_well_formed() {
            return false;
        }
        let periods: usize = 5 * (self.max_periods_per_day as usize);
        is_table_wf(self.table(shift), &self.data, periods)
    }

    /// Whether the timetable is well-formed: see [`Timetable::wf`]. Whoever gets a
    /// timetable from outside asks this before handing it to a function that reads both
    /// shifts.
    pub fn is_well_formed(&self) -> (ok: bool)
        ensures
            ok == self.wf(),
            ok == (self.shift_wf(Shift::First) && self.shift_wf(Shift::Second)),
    {
        if !self.data.is_well_formed() || self.max_periods_per_day > MAX_PERIODS_PER_DAY {
            return false;
        }
        let periods: usize = 5 * (self.max_periods_per_day as usize);
        is_table_wf(&self.table1, &self.data, periods) && is_table_wf(
            &self.table2,
            &self.data,
            periods,
        )
    }
}


} // verus!
