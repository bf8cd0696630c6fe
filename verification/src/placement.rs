//! The first timetable of a search: the requirements of each class are laid out one
//! after the other, lessons for the whole class first, then the lessons of split
//! classes in paired blocks. Nothing is weighed here; the search does that.

use vstd::prelude::*;

use crate::logic::{
    blocks_intact, grid_legal, grid_of, grid_wf, row_legal, ClassSlots, ProblemView, Shift, Slot,
    SlotData, Timetable, TimetableData,
};
use crate::sums::{one_if, sum};
use crate::util::periods_asked;
use crate::Relation;

verus! {

/// The lesson that a requirement asks for, with no room yet.
pub open spec fn lesson_of(r: Relation) -> SlotData {
    SlotData::PartiallyFilled { teacher: r.teacher, subject: r.subject, room: None }
}

/// Whether a requirement is one of `class` in `shift`.
pub open spec fn concerns(r: Relation, shift: Shift, class: int) -> bool {
    r.shift == shift.number() && r.class == class
}

/// Whether the `count` cells from `from` are single and empty.
pub open spec fn all_vacant(row: Seq<Slot>, from: int, count: int) -> bool {
    forall|p: int| from <= p < from + count ==> #[trigger] row[p] == Slot::Single(SlotData::Empty)
}

/// The first place at or after `from` where `count` single empty cells lie in a row;
/// the length of the row where there is none.
pub open spec fn first_vacant_run(row: Seq<Slot>, count: int, from: int) -> int
    decreases row.len() - from,
{
    if from < 0 || from + count > row.len() {
        row.len() as int
    } else if all_vacant(row, from, count) {
        from
    } else {
        first_vacant_run(row, count, from + 1)
    }
}

/// The row with a lesson for the whole class, `count` periods long: it starts at the
/// first single empty cell and takes the single empty cells among the `count` cells
/// from there. What does not fit is left out.
pub open spec fn with_single(row: Seq<Slot>, lesson: SlotData, count: int) -> Seq<Slot> {
    let at = first_vacant_run(row, 1, 0);
    Seq::new(
        row.len(),
        |p: int|
            if at <= p < at + count && row[p] == Slot::Single(SlotData::Empty) {
                Slot::Single(lesson)
            } else {
                row[p]
            },
    )
}

/// Whether group `g` is free in the `count` cells from `from`, and the other group is
/// not with `teacher` there.
pub open spec fn group_free(row: Seq<Slot>, from: int, count: int, g: int, teacher: usize) -> bool {
    forall|p: int|
        from <= p < from + count ==> (#[trigger] row[p]).entry(g) is Empty && !row[p].entry(
            1 - g,
        ).taught_by(teacher)
}

/// The group that can take `count` lessons of `teacher` at the end of the block that
/// starts in cell `i`: the first group if it is free there, else the second if that is;
/// none if no block of at least `count` cells starts in `i`.
pub open spec fn host_group(row: Seq<Slot>, i: int, count: int, teacher: usize) -> Option<int> {
    match row[i] {
        Slot::Double { before, after, .. } => if before == 0 && after + 1 >= count && i + after
            < row.len() {
            let from = i + after + 1 - count;
            if group_free(row, from, count, 0, teacher) {
                Some(0)
            } else if group_free(row, from, count, 1, teacher) {
                Some(1)
            } else {
                None
            }
        } else {
            None
        },
        Slot::Single(_) => None,
    }
}

/// The first cell at or after `from` in which a block starts that can take the
/// lessons; the length of the row where there is none.
pub open spec fn first_host(row: Seq<Slot>, count: int, teacher: usize, from: int) -> int
    decreases row.len() - from,
{
    if from < 0 || from >= row.len() {
        row.len() as int
    } else if host_group(row, from, count, teacher) is Some {
        from
    } else {
        first_host(row, count, teacher, from + 1)
    }
}

/// The row with `lesson` as the entry of group `g` in the `count` cells from `from`.
pub open spec fn with_entries(
    row: Seq<Slot>,
    from: int,
    count: int,
    g: int,
    lesson: SlotData,
) -> Seq<Slot,> {
    Seq::new(
        row.len(),
        |p: int|
            if from <= p < from + count {
                row[p].with_entry(g, lesson)
            } else {
                row[p]
            },
    )
}

/// The row with a new block in the `count` cells from `from`: the first group has
/// `lesson`, the second is free.
pub open spec fn with_block(row: Seq<Slot>, from: int, count: int, lesson: SlotData) -> Seq<Slot> {
    Seq::new(
        row.len(),
        |p: int|
            if from <= p < from + count {
                Slot::Double {
                    first: lesson,
                    second: SlotData::Empty,
                    before: (p - from) as u32,
                    after: (from + count - 1 - p) as u32,
                }
            } else {
                row[p]
            },
    )
}

/// The row with `count` periods of `lesson` for one group of a split class. They go to
/// the end of the first block that can take them; where there is none, a new block is
/// made of the first `count` single empty cells in a row; where there are none either,
/// the lessons are left out.
pub open spec fn with_group(
    row: Seq<Slot>,
    lesson: SlotData,
    teacher: usize,
    count: int,
) -> Seq<Slot> {
    if count <= 0 {
        row
    } else {
        let host = first_host(row, count, teacher, 0);
        if host < row.len() {
            with_entries(
                row,
                host + row[host]->after + 1 - count,
                count,
                host_group(row, host, count, teacher)->0,
                lesson,
            )
        } else {
            let at = first_vacant_run(row, count, 0);
            if at < row.len() {
                with_block(row, at, count, lesson)
            } else {
                row
            }
        }
    }
}

/// The row with both groups of a split requirement placed, the first group first.
pub open spec fn with_double(row: Seq<Slot>, r: Relation) -> Seq<Slot> {
    let second = match r.per_week_second {
        Some(n) => n as int,
        None => 0,
    };
    with_group(
        with_group(row, lesson_of(r), r.teacher, r.per_week_first as int),
        lesson_of(r),
        r.teacher,
        second,
    )
}

/// The row after the whole-class requirements among the first `n` were placed, in
/// their order.
pub open spec fn with_singles(
    relations: Seq<Relation>,
    shift: Shift,
    class: int,
    row: Seq<Slot>,
    n: int,
) -> Seq<Slot>
    decreases n,
{
    if n <= 0 {
        row
    } else {
        let before = with_singles(relations, shift, class, row, n - 1);
        let r = relations[n - 1];
        if concerns(r, shift, class) && r.per_week_second is None {
            with_single(before, lesson_of(r), r.per_week_first as int)
        } else {
            before
        }
    }
}

/// Where a requirement of `weight` periods goes in a list ordered from the longest
/// down: before the first that is no longer than it.
pub open spec fn rank(order: Seq<Relation>, weight: u32, from: int) -> int
    decreases order.len() - from,
{
    if from < 0 || from >= order.len() {
        order.len() as int
    } else if order[from].per_week_first <= weight {
        from
    } else {
        rank(order, weight, from + 1)
    }
}

/// The split requirements among the first `n`, ordered by the periods of their first
/// group from the longest down; of two that are equally long, the later comes first.
pub open spec fn doubles_of(
    relations: Seq<Relation>,
    shift: Shift,
    class: int,
    n: int,
) -> Seq<Relation,>
    decreases n,
{
    if n <= 0 {
        Seq::empty()
    } else {
        let before = doubles_of(relations, shift, class, n - 1);
        let r = relations[n - 1];
        if concerns(r, shift, class) && r.per_week_second is Some {
            before.insert(rank(before, r.per_week_first, 0), r)
        } else {
            before
        }
    }
}

/// The row after the first `n` split requirements of `order` were placed.
pub open spec fn with_doubles(order: Seq<Relation>, row: Seq<Slot>, n: int) -> Seq<Slot>
    decreases n,
{
    if n <= 0 {
        row
    } else {
        with_double(with_doubles(order, row, n - 1), order[n - 1])
    }
}

/// A week of `periods` single empty cells.
pub open spec fn vacant_row(periods: int) -> Seq<Slot> {
    Seq::new(periods as nat, |p: int| Slot::Single(SlotData::Empty))
}

/// The first week of a class.
pub open spec fn placed_row(
    relations: Seq<Relation>,
    shift: Shift,
    class: int,
    periods: int,
) -> Seq<Slot,> {
    let order = doubles_of(relations, shift, class, relations.len() as int);
    with_doubles(
        order,
        with_singles(relations, shift, class, vacant_row(periods), relations.len() as int),
        order.len() as int,
    )
}

/// The first grid of a shift: a row for every class.
pub open spec fn placed_grid(data: ProblemView, shift: Shift, periods: int) -> Seq<Seq<Slot>> {
    Seq::new(data.classes.len(), |c: int| placed_row(data.relations, shift, c, periods))
}

/// What placement keeps of a row: its length, its blocks, and that every lesson names
/// a teacher and a subject that exist and is asked for by the class.
pub open spec fn row_sound(
    row: Seq<Slot>,
    data: ProblemView,
    shift: Shift,
    class: int,
    periods: int,
) -> bool {
    &&& row.len() == periods
    &&& blocks_intact(row)
    &&& row_legal(row, data.relations, shift, class)
    &&& forall|p: int|
        0 <= p < row.len() ==> (#[trigger] row[p]).refers_within(
            data.teachers.len(),
            data.subjects.len(),
        )
}

/// Whether a lesson may stand in a row of `class`: it is the lesson of a requirement of
/// that class.
pub open spec fn lesson_sound(
    lesson: SlotData,
    data: ProblemView,
    shift: Shift,
    class: int,
) -> bool {
    lesson.refers_within(data.teachers.len(), data.subjects.len()) && lesson.backed_by(
        data.relations,
        shift,
        class,
    )
}

proof fn lemma_lesson_sound(data: ProblemView, shift: Shift, class: int, k: int)
    requires
        data.wf(),
        0 <= k < data.relations.len(),
        concerns(data.relations[k], shift, class),
    ensures
        lesson_sound(lesson_of(data.relations[k]), data, shift, class),
{
}

proof fn lemma_with_single_sound(
    row: Seq<Slot>,
    lesson: SlotData,
    count: int,
    data: ProblemView,
    shift: Shift,
    class: int,
    periods: int,
)
    requires
        row_sound(row, data, shift, class, periods),
        lesson_sound(lesson, data, shift, class),
    ensures
        row_sound(with_single(row, lesson, count), data, shift, class, periods),
{
    let after = with_single(row, lesson, count);
    assert forall|i: int, j: int|
        0 <= i < after.len() && after[i] is Double && i - after[i]->before <= j <= i
            + after[i]->after implies 0 <= j < after.len() && after[j] is Double && j
        - after[j]->before == i - after[i]->before && j + after[j]->after == i + after[i]->after by {
        assert(after[i] == row[i]);
        assert(0 <= j < row.len() && row[j] is Double && j - row[j]->before == i - row[i]->before
            && j + row[j]->after == i + row[i]->after);
        assert(after[j] == row[j]);
    }
    assert forall|p: int| 0 <= p < after.len() implies (#[trigger] after[p]).backed_by(
        data.relations,
        shift,
        class,
    ) && after[p].refers_within(data.teachers.len(), data.subjects.len()) by {
        assert(row[p].backed_by(data.relations, shift, class));
        assert(row[p].refers_within(data.teachers.len(), data.subjects.len()));
    }
}

proof fn lemma_with_entries_sound(
    row: Seq<Slot>,
    from: int,
    count: int,
    g: int,
    lesson: SlotData,
    data: ProblemView,
    shift: Shift,
    class: int,
    periods: int,
)
    requires
        row_sound(row, data, shift, class, periods),
        lesson_sound(lesson, data, shift, class),
        forall|p: int| from <= p < from + count && 0 <= p < row.len() ==> (#[trigger] row[p]) is Double,
    ensures
        row_sound(with_entries(row, from, count, g, lesson), data, shift, class, periods),
{
    let after = with_entries(row, from, count, g, lesson);
    assert forall|i: int, j: int|
        0 <= i < after.len() && after[i] is Double && i - after[i]->before <= j <= i
            + after[i]->after implies 0 <= j < after.len() && after[j] is Double && j
        - after[j]->before == i - after[i]->before && j + after[j]->after == i + after[i]->after by {
        assert(row[i] is Double && row[i]->before == after[i]->before && row[i]->after
            == after[i]->after);
        assert(0 <= j < row.len() && row[j] is Double && j - row[j]->before == i - row[i]->before
            && j + row[j]->after == i + row[i]->after);
    }
    assert forall|p: int| 0 <= p < after.len() implies (#[trigger] after[p]).backed_by(
        data.relations,
        shift,
        class,
    ) && after[p].refers_within(data.teachers.len(), data.subjects.len()) by {
        assert(row[p].backed_by(data.relations, shift, class));
        assert(row[p].refers_within(data.teachers.len(), data.subjects.len()));
    }
}

proof fn lemma_with_block_sound(
    row: Seq<Slot>,
    from: int,
    count: int,
    lesson: SlotData,
    data: ProblemView,
    shift: Shift,
    class: int,
    periods: int,
)
    requires
        row_sound(row, data, shift, class, periods),
        lesson_sound(lesson, data, shift, class),
        0 <= from,
        1 <= count <= u32::MAX,
        from + count <= row.len(),
        all_vacant(row, from, count),
    ensures
        row_sound(with_block(row, from, count, lesson), data, shift, class, periods),
{
    let after = with_block(row, from, count, lesson);
    assert forall|i: int, j: int|
        0 <= i < after.len() && after[i] is Double && i - after[i]->before <= j <= i
            + after[i]->after implies 0 <= j < after.len() && after[j] is Double && j
        - after[j]->before == i - after[i]->before && j + after[j]->after == i + after[i]->after by {
        if from <= i < from + count {
            assert(from <= j < from + count);
        } else {
            assert(after[i] == row[i]);
            assert(0 <= j < row.len() && row[j] is Double && j - row[j]->before == i
                - row[i]->before && j + row[j]->after == i + row[i]->after);
            if from <= j < from + count {
                assert(row[j] == Slot::Single(SlotData::Empty));
            }
        }
    }
    assert forall|p: int| 0 <= p < after.len() implies (#[trigger] after[p]).backed_by(
        data.relations,
        shift,
        class,
    ) && after[p].refers_within(data.teachers.len(), data.subjects.len()) by {
        assert(row[p].backed_by(data.relations, shift, class));
        assert(row[p].refers_within(data.teachers.len(), data.subjects.len()));
    }
}

proof fn lemma_first_vacant_run(row: Seq<Slot>, count: int, from: int)
    requires
        0 <= from,
        0 <= count,
    ensures
        from <= first_vacant_run(row, count, from) <= row.len() || first_vacant_run(row, count, from)
            == row.len(),
        first_vacant_run(row, count, from) < row.len() ==> first_vacant_run(row, count, from)
            + count <= row.len() && all_vacant(row, first_vacant_run(row, count, from), count),
    decreases row.len() - from,
{
    if from + count <= row.len() && !all_vacant(row, from, count) {
        lemma_first_vacant_run(row, count, from + 1);
    }
}

proof fn lemma_first_host(row: Seq<Slot>, count: int, teacher: usize, from: int)
    requires
        0 <= from,
    ensures
        first_host(row, count, teacher, from) < row.len() ==> from <= first_host(
            row,
            count,
            teacher,
            from,
        ) && host_group(row, first_host(row, count, teacher, from), count, teacher) is Some,
    decreases row.len() - from,
{
    if from < row.len() && !(host_group(row, from, count, teacher) is Some) {
        lemma_first_host(row, count, teacher, from + 1);
    }
}

proof fn lemma_with_group_sound(
    row: Seq<Slot>,
    lesson: SlotData,
    teacher: usize,
    count: int,
    data: ProblemView,
    shift: Shift,
    class: int,
    periods: int,
)
    requires
        row_sound(row, data, shift, class, periods),
        lesson_sound(lesson, data, shift, class),
        count <= u32::MAX,
    ensures
        row_sound(with_group(row, lesson, teacher, count), data, shift, class, periods),
{
    if count > 0 {
        let host = first_host(row, count, teacher, 0);
        lemma_first_host(row, count, teacher, 0);
        if host < row.len() {
            let from = host + row[host]->after + 1 - count;
            let g = host_group(row, host, count, teacher)->0;
            assert forall|p: int| from <= p < from + count && 0 <= p < row.len() implies (
            #[trigger] row[p]) is Double by {
                assert(row[host] is Double && host - row[host]->before <= p <= host
                    + row[host]->after);
            }
            lemma_with_entries_sound(row, from, count, g, lesson, data, shift, class, periods);
        } else {
            let at = first_vacant_run(row, count, 0);
            lemma_first_vacant_run(row, count, 0);
            if at < row.len() {
                lemma_with_block_sound(row, at, count, lesson, data, shift, class, periods);
            }
        }
    }
}

proof fn lemma_with_singles_sound(data: ProblemView, shift: Shift, class: int, periods: int, n: int)
    requires
        data.wf(),
        0 <= periods,
        n <= data.relations.len(),
    ensures
        row_sound(
            with_singles(data.relations, shift, class, vacant_row(periods), n),
            data,
            shift,
            class,
            periods,
        ),
    decreases n,
{
    if n > 0 {
        lemma_with_singles_sound(data, shift, class, periods, n - 1);
        let r = data.relations[n - 1];
        if concerns(r, shift, class) && r.per_week_second is None {
            lemma_lesson_sound(data, shift, class, n - 1);
            lemma_with_single_sound(
                with_singles(data.relations, shift, class, vacant_row(periods), n - 1),
                lesson_of(r),
                r.per_week_first as int,
                data,
                shift,
                class,
                periods,
            );
        }
    }
}

/// Whether every requirement of a list is one of the reference data, for `class` in
/// `shift`.
pub open spec fn all_concern(
    order: Seq<Relation>,
    data: ProblemView,
    shift: Shift,
    class: int,
) -> bool {
    forall|i: int|
        0 <= i < order.len() ==> lesson_sound(lesson_of(#[trigger] order[i]), data, shift, class)
}

proof fn lemma_doubles_concern(data: ProblemView, shift: Shift, class: int, n: int)
    requires
        data.wf(),
        n <= data.relations.len(),
    ensures
        all_concern(doubles_of(data.relations, shift, class, n), data, shift, class),
    decreases n,
{
    if n > 0 {
        lemma_doubles_concern(data, shift, class, n - 1);
        let before = doubles_of(data.relations, shift, class, n - 1);
        let r = data.relations[n - 1];
        if concerns(r, shift, class) && r.per_week_second is Some {
            lemma_lesson_sound(data, shift, class, n - 1);
            lemma_rank(before, r.per_week_first, 0);
            let at = rank(before, r.per_week_first, 0);
            let after = before.insert(at, r);
            assert forall|i: int| 0 <= i < after.len() implies lesson_sound(
                lesson_of(#[trigger] after[i]),
                data,
                shift,
                class,
            ) by {
                if i < at {
                    assert(after[i] == before[i]);
                } else if i > at {
                    assert(after[i] == before[i - 1]);
                }
            }
        }
    }
}

proof fn lemma_rank(order: Seq<Relation>, weight: u32, from: int)
    requires
        0 <= from <= order.len(),
    ensures
        from <= rank(order, weight, from) <= order.len(),
    decreases order.len() - from,
{
    if from < order.len() && order[from].per_week_first > weight {
        lemma_rank(order, weight, from + 1);
    }
}

proof fn lemma_with_doubles_sound(
    order: Seq<Relation>,
    row: Seq<Slot>,
    data: ProblemView,
    shift: Shift,
    class: int,
    periods: int,
    n: int,
)
    requires
        row_sound(row, data, shift, class, periods),
        all_concern(order, data, shift, class),
        n <= order.len(),
    ensures
        row_sound(with_doubles(order, row, n), data, shift, class, periods),
    decreases n,
{
    if n > 0 {
        lemma_with_doubles_sound(order, row, data, shift, class, periods, n - 1);
        let before = with_doubles(order, row, n - 1);
        let r = order[n - 1];
        let second = match r.per_week_second {
            Some(k) => k as int,
            None => 0,
        };
        lemma_with_group_sound(
            before,
            lesson_of(r),
            r.teacher,
            r.per_week_first as int,
            data,
            shift,
            class,
            periods,
        );
        lemma_with_group_sound(
            with_group(before, lesson_of(r), r.teacher, r.per_week_first as int),
            lesson_of(r),
            r.teacher,
            second,
            data,
            shift,
            class,
            periods,
        );
    }
}

/// The first week of a class keeps its length and its blocks, and holds only lessons
/// that the class asks for, of teachers and subjects that exist.
pub proof fn lemma_placed_row_sound(data: ProblemView, shift: Shift, class: int, periods: int)
    requires
        data.wf(),
        0 <= periods,
    ensures
        row_sound(placed_row(data.relations, shift, class, periods), data, shift, class, periods),
{
    let n = data.relations.len() as int;
    lemma_with_singles_sound(data, shift, class, periods, n);
    lemma_doubles_concern(data, shift, class, n);
    let order = doubles_of(data.relations, shift, class, n);
    lemma_with_doubles_sound(
        order,
        with_singles(data.relations, shift, class, vacant_row(periods), n),
        data,
        shift,
        class,
        periods,
        order.len() as int,
    );
}

/// The first grid of a shift fits the reference data and the shape of the week, and
/// every lesson in it is asked for by a requirement of its class in that shift.
pub proof fn lemma_placed_grid_legal(data: ProblemView, shift: Shift, periods: int)
    requires
        data.wf(),
        0 <= periods,
    ensures
        grid_wf(placed_grid(data, shift, periods), data, periods),
        grid_legal(placed_grid(data, shift, periods), data.relations, shift),
{
    let grid = placed_grid(data, shift, periods);
    assert forall|c: int| 0 <= c < grid.len() implies row_sound(
        #[trigger] grid[c],
        data,
        shift,
        c,
        periods,
    ) by {
        lemma_placed_row_sound(data, shift, c, periods);
    }
}

/// How often `lesson` stands in a cell: as the lesson of the whole class, or as that
/// of either group.
pub open spec fn cell_count(slot: Slot, lesson: SlotData) -> int {
    match slot {
        Slot::Single(d) => one_if(d == lesson),
        Slot::Double { first, second, .. } => one_if(first == lesson) + one_if(second == lesson),
    }
}

/// How often `lesson` stands in the first `n` cells of a row.
pub open spec fn lessons_upto(row: Seq<Slot>, lesson: SlotData, n: int) -> int
    decreases n,
{
    if n <= 0 {
        0
    } else {
        lessons_upto(row, lesson, n - 1) + cell_count(row[n - 1], lesson)
    }
}

/// How often `lesson` stands in a row.
pub open spec fn lesson_count(row: Seq<Slot>, lesson: SlotData) -> int {
    lessons_upto(row, lesson, row.len() as int)
}

/// The periods a week that a requirement asks for, if it is one of `class` in `shift`
/// and, where `lesson` is given, one for that lesson; 0 if it is not.
pub open spec fn asked_by(r: Relation, shift: Shift, class: int, lesson: Option<SlotData>) -> int {
    if concerns(r, shift, class) && (lesson is None || lesson == Some(lesson_of(r))) {
        periods_asked(r)
    } else {
        0
    }
}

/// The periods a week that the first `n` requirements ask of `class` in `shift`: for
/// `lesson`, where one is given, and else for any lesson.
pub open spec fn asked_for(
    relations: Seq<Relation>,
    shift: Shift,
    class: int,
    lesson: Option<SlotData>,
    n: int,
) -> int
    decreases n,
{
    if n <= 0 {
        0
    } else {
        asked_for(relations, shift, class, lesson, n - 1) + asked_by(
            relations[n - 1],
            shift,
            class,
            lesson,
        )
    }
}

/// Whether a row holds every lesson as often as the requirements ask for it.
pub open spec fn row_complete(
    row: Seq<Slot>,
    relations: Seq<Relation>,
    shift: Shift,
    class: int,
) -> bool {
    forall|lesson: SlotData|
        lesson.occupied() ==> #[trigger] lesson_count(row, lesson) == asked_for(
            relations,
            shift,
            class,
            Some(lesson),
            relations.len() as int,
        )
}

/// Whether a row is filled from the front: the cells before `u` are taken, the cells
/// from `u` on are single and empty.
spec fn packed(row: Seq<Slot>, u: int) -> bool {
    &&& 0 <= u <= row.len()
    &&& forall|p: int| u <= p < row.len() ==> #[trigger] row[p] == Slot::Single(SlotData::Empty)
    &&& forall|p: int| 0 <= p < u ==> #[trigger] row[p] != Slot::Single(SlotData::Empty)
}

/// The part of `asked_for` that comes from the requirements that are split, or from
/// those that are not.
spec fn asked_part(
    relations: Seq<Relation>,
    shift: Shift,
    class: int,
    lesson: Option<SlotData>,
    split: bool,
    n: int,
) -> int
    decreases n,
{
    if n <= 0 {
        0
    } else {
        asked_part(relations, shift, class, lesson, split, n - 1) + if (relations[n
            - 1].per_week_second is Some) == split {
            asked_by(relations[n - 1], shift, class, lesson)
        } else {
            0
        }
    }
}

/// The periods that a list of requirements asks for `lesson`, or for any lesson.
spec fn asked_of_list(order: Seq<Relation>, lesson: Option<SlotData>) -> int
    decreases order.len(),
{
    if order.len() == 0 {
        0
    } else {
        asked_of_list(order.drop_last(), lesson) + if lesson is None || lesson == Some(
            lesson_of(order.last()),
        ) {
            periods_asked(order.last())
        } else {
            0
        }
    }
}

proof fn lemma_asked_parts(
    relations: Seq<Relation>,
    shift: Shift,
    class: int,
    lesson: Option<SlotData>,
    n: int,
)
    ensures
        asked_for(relations, shift, class, lesson, n) == asked_part(
            relations,
            shift,
            class,
            lesson,
            false,
            n,
        ) + asked_part(relations, shift, class, lesson, true, n),
        0 <= asked_part(relations, shift, class, lesson, false, n),
        0 <= asked_part(relations, shift, class, lesson, true, n),
    decreases n,
{
    if n > 0 {
        lemma_asked_parts(relations, shift, class, lesson, n - 1);
    }
}

proof fn lemma_asked_of_list_insert(
    order: Seq<Relation>,
    at: int,
    r: Relation,
    lesson: Option<SlotData>,
)
    requires
        0 <= at <= order.len(),
    ensures
        asked_of_list(order.insert(at, r), lesson) == asked_of_list(order, lesson) + asked_of_list(
            seq![r],
            lesson,
        ),
    decreases order.len(),
{
    let longer = order.insert(at, r);
    lemma_asked_of_one(r, lesson);
    if at == order.len() {
        assert(longer.drop_last() =~= order);
        assert(longer.last() == r);
    } else {
        assert(longer.drop_last() =~= order.drop_last().insert(at, r));
        assert(longer.last() == order.last());
        lemma_asked_of_list_insert(order.drop_last(), at, r, lesson);
    }
}

proof fn lemma_asked_of_one(r: Relation, lesson: Option<SlotData>)
    ensures
        asked_of_list(seq![r], lesson) == if lesson is None || lesson == Some(lesson_of(r)) {
            periods_asked(r)
        } else {
            0
        },
{
    assert(seq![r].drop_last() =~= Seq::<Relation>::empty());
    assert(seq![r].last() == r);
    assert(asked_of_list(seq![r].drop_last(), lesson) == 0);
}

/// The ordered list of split requirements asks for what the split requirements ask
/// for.
proof fn lemma_doubles_ask_the_same(
    relations: Seq<Relation>,
    shift: Shift,
    class: int,
    lesson: Option<SlotData>,
    n: int,
)
    requires
        n <= relations.len(),
    ensures
        asked_of_list(doubles_of(relations, shift, class, n), lesson) == asked_part(
            relations,
            shift,
            class,
            lesson,
            true,
            n,
        ),
    decreases n,
{
    if n > 0 {
        lemma_doubles_ask_the_same(relations, shift, class, lesson, n - 1);
        let before = doubles_of(relations, shift, class, n - 1);
        let r = relations[n - 1];
        if concerns(r, shift, class) && r.per_week_second is Some {
            lemma_rank(before, r.per_week_first, 0);
            lemma_asked_of_list_insert(before, rank(before, r.per_week_first, 0), r, lesson);
            lemma_asked_of_one(r, lesson);
        }
    }
}

/// How many of the first `n` cells lie in the span from `a` to `b`.
spec fn within(n: int, a: int, b: int) -> int {
    if n <= a {
        0
    } else if n >= b {
        b - a
    } else {
        n - a
    }
}

/// Where two rows differ only in the cells from `a` to `b`, and each of these holds
/// `lesson` once more in the second row (if `hit`) or as often as before (if not), the
/// counts of `lesson` differ by the length of the span, or not at all.
proof fn lemma_count_span(
    row: Seq<Slot>,
    after: Seq<Slot>,
    lesson: SlotData,
    a: int,
    b: int,
    hit: bool,
    n: int,
)
    requires
        row.len() == after.len(),
        0 <= a <= b <= row.len(),
        0 <= n <= row.len(),
        forall|p: int| 0 <= p < row.len() && !(a <= p < b) ==> #[trigger] after[p] == row[p],
        forall|p: int|
            a <= p < b ==> cell_count(#[trigger] after[p], lesson) == cell_count(row[p], lesson)
                + one_if(hit),
    ensures
        lessons_upto(after, lesson, n) == lessons_upto(row, lesson, n) + if hit {
            within(n, a, b)
        } else {
            0
        },
    decreases n,
{
    if n > 0 {
        lemma_count_span(row, after, lesson, a, b, hit, n - 1);
        if a <= n - 1 < b {
            assert(cell_count(after[n - 1], lesson) == cell_count(row[n - 1], lesson) + one_if(hit));
        } else {
            assert(after[n - 1] == row[n - 1]);
        }
    }
}

proof fn lemma_packed_run(row: Seq<Slot>, u: int, count: int, from: int)
    requires
        packed(row, u),
        count >= 1,
        0 <= from <= u,
    ensures
        first_vacant_run(row, count, from) == if u + count <= row.len() {
            u
        } else {
            row.len() as int
        },
    decreases u - from,
{
    if from + count <= row.len() {
        if from < u {
            assert(row[from] != Slot::Single(SlotData::Empty));
            assert(!all_vacant(row, from, count));
            lemma_packed_run(row, u, count, from + 1);
        }
    }
}

/// What placing a lesson does to a row that is filled from the front and has room for
/// it: the row stays filled from the front, grows by no more than the lesson's periods,
/// and holds the lesson that often more.
spec fn placed_on(
    row: Seq<Slot>,
    u: int,
    after: Seq<Slot>,
    v: int,
    placed: SlotData,
    count: int,
) -> bool {
    &&& packed(after, v)
    &&& u <= v <= u + count
    &&& forall|lesson: SlotData|
        lesson.occupied() ==> #[trigger] lesson_count(after, lesson) == lesson_count(row, lesson) + if lesson
            == placed {
            count
        } else {
            0
        }
}

proof fn lemma_with_single_complete(row: Seq<Slot>, u: int, placed: SlotData, count: int)
    requires
        packed(row, u),
        placed.occupied(),
        0 <= count,
        u + count <= row.len(),
    ensures
        placed_on(row, u, with_single(row, placed, count), u + count, placed, count),
{
    let after = with_single(row, placed, count);
    lemma_packed_run(row, u, 1, 0);
    let at = first_vacant_run(row, 1, 0);
    if count > 0 {
        assert(at == u);
    }
    assert forall|lesson: SlotData| lesson.occupied() implies #[trigger] lesson_count(after, lesson)
        == lesson_count(row, lesson) + if lesson == placed {
        count
    } else {
        0
    } by {
        if count > 0 {
            lemma_count_span(row, after, lesson, u, u + count, lesson == placed, row.len() as int);
        } else {
            assert(after =~= row);
        }
    }
}

proof fn lemma_with_group_complete(
    row: Seq<Slot>,
    u: int,
    placed: SlotData,
    teacher: usize,
    count: int,
) -> (v: int)
    requires
        packed(row, u),
        blocks_intact(row),
        placed.occupied(),
        0 <= count <= u32::MAX,
        u + count <= row.len(),
    ensures
        placed_on(row, u, with_group(row, placed, teacher, count), v, placed, count),
{
    let after = with_group(row, placed, teacher, count);
    if count <= 0 {
        return u;
    }
    let host = first_host(row, count, teacher, 0);
    lemma_first_host(row, count, teacher, 0);
    if host < row.len() {
        let from = host + row[host]->after + 1 - count;
        let g = host_group(row, host, count, teacher)->0;
        assert(group_free(row, from, count, g, teacher));
        assert forall|p: int| from <= p < from + count implies (#[trigger] row[p]) is Double
            && row[p].entry(g) is Empty by {
            assert(row[host] is Double && host - row[host]->before <= p <= host + row[host]->after);
        }
        assert(after == with_entries(row, from, count, g, placed));
        assert forall|lesson: SlotData| lesson.occupied() implies #[trigger] lesson_count(
            after,
            lesson,
        ) == lesson_count(row, lesson) + if lesson == placed {
            count
        } else {
            0
        } by {
            assert forall|p: int| from <= p < from + count implies cell_count(
                #[trigger] after[p],
                lesson,
            ) == cell_count(row[p], lesson) + one_if(lesson == placed) by {
                assert(row[p] is Double && row[p].entry(g) is Empty);
            }
            lemma_count_span(row, after, lesson, from, from + count, lesson == placed, row.len() as int);
        }
        assert forall|p: int| 0 <= p < u implies #[trigger] after[p] != Slot::Single(
            SlotData::Empty,
        ) by {
            assert(row[p] != Slot::Single(SlotData::Empty));
        }
        assert forall|p: int| u <= p < after.len() implies #[trigger] after[p] == Slot::Single(
            SlotData::Empty,
        ) by {
            assert(row[p] == Slot::Single(SlotData::Empty));
        }
        u
    } else {
        lemma_packed_run(row, u, count, 0);
        assert(after == with_block(row, u, count, placed));
        assert forall|lesson: SlotData| lesson.occupied() implies #[trigger] lesson_count(
            after,
            lesson,
        ) == lesson_count(row, lesson) + if lesson == placed {
            count
        } else {
            0
        } by {
            lemma_count_span(row, after, lesson, u, u + count, lesson == placed, row.len() as int);
        }
        u + count
    }
}

proof fn lemma_vacant_row_has_nothing(periods: int, lesson: SlotData, n: int)
    requires
        0 <= n <= periods,
        lesson.occupied(),
    ensures
        lessons_upto(vacant_row(periods), lesson, n) == 0,
    decreases n,
{
    if n > 0 {
        lemma_vacant_row_has_nothing(periods, lesson, n - 1);
    }
}

proof fn lemma_with_singles_complete(
    data: ProblemView,
    shift: Shift,
    class: int,
    periods: int,
    n: int,
)
    requires
        data.wf(),
        0 <= periods,
        n <= data.relations.len(),
        asked_part(data.relations, shift, class, None, false, n) <= periods,
    ensures
        packed(
            with_singles(data.relations, shift, class, vacant_row(periods), n),
            asked_part(data.relations, shift, class, None, false, n),
        ),
        forall|lesson: SlotData|
            lesson.occupied() ==> #[trigger] lesson_count(
                with_singles(data.relations, shift, class, vacant_row(periods), n),
                lesson,
            ) == asked_part(data.relations, shift, class, Some(lesson), false, n),
    decreases n,
{
    let relations = data.relations;
    if n > 0 {
        lemma_asked_parts(relations, shift, class, None, n - 1);
        let r = relations[n - 1];
        assert(0 <= asked_by(r, shift, class, None));
        lemma_with_singles_complete(data, shift, class, periods, n - 1);
        lemma_with_singles_sound(data, shift, class, periods, n - 1);
        let before = with_singles(relations, shift, class, vacant_row(periods), n - 1);
        let u = asked_part(relations, shift, class, None, false, n - 1);
        if concerns(r, shift, class) && r.per_week_second is None {
            lemma_with_single_complete(before, u, lesson_of(r), r.per_week_first as int);
            let after = with_single(before, lesson_of(r), r.per_week_first as int);
            assert forall|lesson: SlotData| lesson.occupied() implies #[trigger] lesson_count(
                after,
                lesson,
            ) == asked_part(relations, shift, class, Some(lesson), false, n) by {
                assert(lesson_count(before, lesson) == asked_part(
                    relations,
                    shift,
                    class,
                    Some(lesson),
                    false,
                    n - 1,
                ));
            }
        } else {
            assert forall|lesson: SlotData| lesson.occupied() implies #[trigger] lesson_count(
                before,
                lesson,
            ) == asked_part(relations, shift, class, Some(lesson), false, n) by {
                assert(lesson_count(before, lesson) == asked_part(
                    relations,
                    shift,
                    class,
                    Some(lesson),
                    false,
                    n - 1,
                ));
            }
        }
    } else {
        assert forall|lesson: SlotData| lesson.occupied() implies #[trigger] lesson_count(
            vacant_row(periods),
            lesson,
        ) == 0 by {
            lemma_vacant_row_has_nothing(periods, lesson, periods);
        }
    }
}

proof fn lemma_asked_of_list_grows(order: Seq<Relation>, n: int)
    requires
        0 <= n <= order.len(),
    ensures
        0 <= asked_of_list(order.take(n), None) <= asked_of_list(order, None),
    decreases order.len() - n,
{
    lemma_asked_of_list_positive(order.take(n));
    if n < order.len() {
        lemma_asked_of_list_grows(order, n + 1);
        assert(order.take(n + 1).drop_last() =~= order.take(n));
    } else {
        assert(order.take(n) =~= order);
    }
}

proof fn lemma_asked_of_list_positive(order: Seq<Relation>)
    ensures
        0 <= asked_of_list(order, None),
    decreases order.len(),
{
    if order.len() > 0 {
        lemma_asked_of_list_positive(order.drop_last());
    }
}

proof fn lemma_with_doubles_complete(
    order: Seq<Relation>,
    row: Seq<Slot>,
    u: int,
    data: ProblemView,
    shift: Shift,
    class: int,
    periods: int,
    n: int,
) -> (v: int)
    requires
        row_sound(row, data, shift, class, periods),
        all_concern(order, data, shift, class),
        packed(row, u),
        0 <= n <= order.len(),
        u + asked_of_list(order, None) <= periods,
    ensures
        packed(with_doubles(order, row, n), v),
        u <= v <= u + asked_of_list(order.take(n), None),
        forall|lesson: SlotData|
            lesson.occupied() ==> #[trigger] lesson_count(with_doubles(order, row, n), lesson)
                == lesson_count(row, lesson) + asked_of_list(order.take(n), Some(lesson)),
    decreases n,
{
    if n > 0 {
        let w = lemma_with_doubles_complete(order, row, u, data, shift, class, periods, n - 1);
        lemma_with_doubles_sound(order, row, data, shift, class, periods, n - 1);
        lemma_asked_of_list_grows(order, n);
        lemma_asked_of_list_grows(order, n - 1);
        assert(order.take(n).drop_last() =~= order.take(n - 1));
        assert(order.take(n).last() == order[n - 1]);
        let before = with_doubles(order, row, n - 1);
        let r = order[n - 1];
        let second = match r.per_week_second {
            Some(k) => k as int,
            None => 0,
        };
        assert(periods_asked(r) == r.per_week_first + second);
        let x = lemma_with_group_complete(before, w, lesson_of(r), r.teacher, r.per_week_first as int);
        let middle = with_group(before, lesson_of(r), r.teacher, r.per_week_first as int);
        lemma_with_group_sound(
            before,
            lesson_of(r),
            r.teacher,
            r.per_week_first as int,
            data,
            shift,
            class,
            periods,
        );
        let v = lemma_with_group_complete(middle, x, lesson_of(r), r.teacher, second);
        let after = with_group(middle, lesson_of(r), r.teacher, second);
        assert(after == with_doubles(order, row, n));
        assert forall|lesson: SlotData| lesson.occupied() implies #[trigger] lesson_count(
            after,
            lesson,
        ) == lesson_count(row, lesson) + asked_of_list(order.take(n), Some(lesson)) by {
            assert(lesson_count(before, lesson) == lesson_count(row, lesson) + asked_of_list(
                order.take(n - 1),
                Some(lesson),
            ));
            assert(lesson_count(middle, lesson) == lesson_count(before, lesson) + if lesson
                == lesson_of(r) {
                r.per_week_first as int
            } else {
                0
            });
        }
        v
    } else {
        assert(order.take(0) =~= Seq::<Relation>::empty());
        u
    }
}

/// Where the week has room for everything that is asked of a class, the first week of
/// the class holds every lesson as often as the requirements ask for it: nothing is
/// left out, and nothing is there that was not asked for.
pub proof fn lemma_placed_row_complete(data: ProblemView, shift: Shift, class: int, periods: int)
    requires
        data.wf(),
        0 <= periods,
        asked_for(data.relations, shift, class, None, data.relations.len() as int) <= periods,
    ensures
        row_complete(placed_row(data.relations, shift, class, periods), data.relations, shift, class),
{
    let relations = data.relations;
    let n = relations.len() as int;
    lemma_asked_parts(relations, shift, class, None, n);
    lemma_with_singles_complete(data, shift, class, periods, n);
    lemma_with_singles_sound(data, shift, class, periods, n);
    lemma_doubles_concern(data, shift, class, n);
    lemma_doubles_ask_the_same(relations, shift, class, None, n);
    let order = doubles_of(relations, shift, class, n);
    let row = with_singles(relations, shift, class, vacant_row(periods), n);
    let u = asked_part(relations, shift, class, None, false, n);
    let v = lemma_with_doubles_complete(order, row, u, data, shift, class, periods, order.len() as int);
    assert(order.take(order.len() as int) =~= order);
    let placed = placed_row(relations, shift, class, periods);
    assert forall|lesson: SlotData| lesson.occupied() implies #[trigger] lesson_count(placed, lesson)
        == asked_for(relations, shift, class, Some(lesson), n) by {
        lemma_asked_parts(relations, shift, class, Some(lesson), n);
        lemma_doubles_ask_the_same(relations, shift, class, Some(lesson), n);
        assert(lesson_count(row, lesson) == asked_part(
            relations,
            shift,
            class,
            Some(lesson),
            false,
            n,
        ));
    }
}

/// Whether the `count` cells from `from` are single and empty.
fn is_vacant_run(row: &Vec<Slot>, from: usize, count: usize) -> (r: bool)
    requires
        from + count <= row.len(),
    ensures
        r == all_vacant(row@, from as int, count as int),
{
    let mut j: usize = 0;
    while j < count
        invariant
            j <= count,
            from + count <= row.len(),
            all_vacant(row@, from as int, j as int),
        decreases count - j,
    {
        match row[from + j] {
            Slot::Single(SlotData::Empty) => {},
            _ => {
                assert(row@[from + j] != Slot::Single(SlotData::Empty));
                return false;
            },
        }
        j += 1;
    }
    true
}

/// The first place where `count` single empty cells lie in a row.
fn find_vacant_run(row: &Vec<Slot>, count: usize) -> (at: usize)
    requires
        count >= 1,
    ensures
        at == first_vacant_run(row@, count as int, 0),
        at <= row.len(),
{
    let mut i: usize = 0;
    while i < row.len() && count <= row.len() - i
        invariant
            i <= row.len(),
            first_vacant_run(row@, count as int, 0) == first_vacant_run(
                row@,
                count as int,
                i as int,
            ),
        decreases row.len() - i,
    {
        if is_vacant_run(row, i, count) {
            return i;
        }
        i += 1;
    }
    row.len()
}

/// Whether group `g` is free in the `count` cells from `from`, and the other group is
/// not with `teacher` there.
fn is_group_free(row: &Vec<Slot>, from: usize, count: usize, g: u8, teacher: usize) -> (r: bool)
    requires
        from + count <= row.len(),
        g <= 1,
    ensures
        r == group_free(row@, from as int, count as int, g as int, teacher),
{
    let mut j: usize = 0;
    while j < count
        invariant
            j <= count,
            g <= 1,
            from + count <= row.len(),
            group_free(row@, from as int, j as int, g as int, teacher),
        decreases count - j,
    {
        let (mine, other) = match row[from + j] {
            Slot::Single(d) => (d, d),
            Slot::Double { first, second, .. } => if g == 0 {
                (first, second)
            } else {
                (second, first)
            },
        };
        assert(mine == row@[from + j].entry(g as int));
        assert(other == row@[from + j].entry(1 - g));
        let busy = match other {
            SlotData::PartiallyFilled { teacher: t, .. } => t == teacher,
            SlotData::Empty => false,
        };
        let vacant = match mine {
            SlotData::Empty => true,
            SlotData::PartiallyFilled { .. } => false,
        };
        if busy || !vacant {
            return false;
        }
        j += 1;
    }
    true
}

/// The group that can take the lessons at the end of the block that starts in cell `i`.
fn host_group_of(row: &Vec<Slot>, i: usize, count: usize, teacher: usize) -> (r: Option<u8>)
    requires
        i < row.len(),
    ensures
        match r {
            Some(g) => host_group(row@, i as int, count as int, teacher) == Some(g as int) && g <= 1,
            None => host_group(row@, i as int, count as int, teacher) is None,
        },
{
    match row[i] {
        Slot::Double { before, after, .. } => {
            if before == 0 && (after as usize) < row.len() - i && count <= (after as usize) + 1 {
                let from = i + (after as usize) + 1 - count;
                if is_group_free(row, from, count, 0, teacher) {
                    Some(0)
                } else if is_group_free(row, from, count, 1, teacher) {
                    Some(1)
                } else {
                    None
                }
            } else {
                None
            }
        },
        Slot::Single(_) => None,
    }
}

/// The first cell in which a block starts that can take the lessons, and the group
/// that takes them.
fn find_host(row: &Vec<Slot>, count: usize, teacher: usize) -> (r: (usize, Option<u8>))
    ensures
        r.0 == first_host(row@, count as int, teacher, 0),
        r.0 <= row.len(),
        match r.1 {
            Some(g) => r.0 < row.len() && g <= 1 && host_group(row@, r.0 as int, count as int, teacher)
                == Some(g as int),
            None => r.0 == row.len(),
        },
{
    let mut host: usize = 0;
    while host < row.len()
        invariant
            host <= row.len(),
            first_host(row@, count as int, teacher, 0) == first_host(
                row@,
                count as int,
                teacher,
                host as int,
            ),
        decreases row.len() - host,
    {
        let g = host_group_of(row, host, count, teacher);
        if g.is_some() {
            return (host, g);
        }
        host += 1;
    }
    (host, None)
}

/// Places `count` periods of `lesson` for one group of a split class.
fn place_group(row: &mut Vec<Slot>, lesson: SlotData, teacher: usize, count: u32)
    ensures
        final(row)@ == with_group(old(row)@, lesson, teacher, count as int),
{
    if count == 0 {
        return ;
    }
    let n = row.len();
    let (host, group) = find_host(row, count as usize, teacher);
    match group {
        Some(g) => {
            let after = match row[host] {
                Slot::Double { after, .. } => after as usize,
                Slot::Single(_) => 0,
            };
            let from = host + after + 1 - count as usize;
            let mut j: usize = 0;
            while j < count as usize
                invariant
                    j <= count,
                    n == row.len(),
                    n == old(row).len(),
                    from + count <= n,
                    g <= 1,
                    row@ == with_entries(old(row)@, from as int, j as int, g as int, lesson),
                decreases count - j,
            {
                let cell = match row[from + j] {
                    Slot::Single(_) => Slot::Single(lesson),
                    Slot::Double { first, second, before, after } => if g == 0 {
                        Slot::Double { first: lesson, second, before, after }
                    } else {
                        Slot::Double { first, second: lesson, before, after }
                    },
                };
                row[from + j] = cell;
                assert(row@ =~= with_entries(old(row)@, from as int, j + 1, g as int, lesson));
                j += 1;
            }
        },
        None => {
            let at = find_vacant_run(row, count as usize);
            if at < n {
                proof {
                    lemma_first_vacant_run(row@, count as int, 0);
                }
                let mut j: u32 = 0;
                while j < count
                    invariant
                        j <= count,
                        n == row.len(),
                        n == old(row).len(),
                        at + count <= n,
                        forall|p: int|
                            0 <= p < n ==> #[trigger] row@[p] == (if at <= p < at + j {
                                with_block(old(row)@, at as int, count as int, lesson)[p]
                            } else {
                                old(row)@[p]
                            }),
                    decreases count - j,
                {
                    row[at + j as usize] = Slot::Double {
                        first: lesson,
                        second: SlotData::Empty,
                        before: j,
                        after: count - j - 1,
                    };
                    j += 1;
                }
                assert(row@ =~= with_block(old(row)@, at as int, count as int, lesson));
            }
        },
    }
}

/// Places a lesson for the whole class, `count` periods long.
fn place_single(row: &mut Vec<Slot>, lesson: SlotData, count: u32)
    ensures
        final(row)@ == with_single(old(row)@, lesson, count as int),
{
    let n = row.len();
    let at = find_vacant_run(row, 1);
    let mut p: usize = at;
    while p < n && p - at < count as usize
        invariant
            at <= p <= n,
            n == row.len(),
            n == old(row).len(),
            p - at <= count,
            forall|q: int|
                0 <= q < n ==> #[trigger] row@[q] == (if q < p {
                    with_single(old(row)@, lesson, count as int)[q]
                } else {
                    old(row)@[q]
                }),
            at == first_vacant_run(old(row)@, 1, 0),
        decreases n - p,
    {
        match row[p] {
            Slot::Single(SlotData::Empty) => {
                row[p] = Slot::Single(lesson);
            },
            _ => {},
        }
        p += 1;
    }
    assert(row@ =~= with_single(old(row)@, lesson, count as int));
}

/// The first week of a class.
fn place_class(data: &TimetableData, shift: Shift, class: usize, periods: usize) -> (row: Vec<Slot>)
    ensures
        row@ == placed_row(data@.relations, shift, class as int, periods as int),
{
    let mut row: Vec<Slot> = Vec::new();
    let mut p: usize = 0;
    while p < periods
        invariant
            p <= periods,
            row.len() == p,
            forall|q: int| 0 <= q < p ==> row@[q] == Slot::Single(SlotData::Empty),
        decreases periods - p,
    {
        row.push(Slot::Single(SlotData::Empty));
        p += 1;
    }
    assert(row@ =~= vacant_row(periods as int));
    let mut order: Vec<Relation> = Vec::new();
    let mut k: usize = 0;
    while k < data.relations.len()
        invariant
            k <= data.relations.len(),
            row@ == with_singles(
                data@.relations,
                shift,
                class as int,
                vacant_row(periods as int),
                k as int,
            ),
            order@ == doubles_of(data@.relations, shift, class as int, k as int),
        decreases data.relations.len() - k,
    {
        let r = data.relations[k];
        if shift.equals(r.shift) && r.class == class {
            let lesson = SlotData::PartiallyFilled {
                teacher: r.teacher,
                subject: r.subject,
                room: None,
            };
            match r.per_week_second {
                None => {
                    place_single(&mut row, lesson, r.per_week_first);
                },
                Some(_) => {
                    let mut at: usize = 0;
                    while at < order.len() && order[at].per_week_first > r.per_week_first
                        invariant
                            at <= order.len(),
                            rank(order@, r.per_week_first, 0) == rank(
                                order@,
                                r.per_week_first,
                                at as int,
                            ),
                        decreases order.len() - at,
                    {
                        at += 1;
                    }
                    order.insert(at, r);
                },
            }
        }
        k += 1;
    }
    let mut d: usize = 0;
    while d < order.len()
        invariant
            d <= order.len(),
            row@ == with_doubles(
                order@,
                with_singles(
                    data@.relations,
                    shift,
                    class as int,
                    vacant_row(periods as int),
                    data@.relations.len() as int,
                ),
                d as int,
            ),
        decreases order.len() - d,
    {
        let r = order[d];
        let lesson = SlotData::PartiallyFilled { teacher: r.teacher, subject: r.subject, room: None };
        place_group(&mut row, lesson, r.teacher, r.per_week_first);
        match r.per_week_second {
            Some(n) => {
                place_group(&mut row, lesson, r.teacher, n);
            },
            None => {},
        }
        d += 1;
    }
    row
}

impl Timetable {
    /// Builds the first table of `shift` from the requirements. Every class gets a row;
    /// the lessons are laid out as [`placed_row`] says. Where the week has room for all
    /// that is asked of a class, all of it is placed; what finds no room is left out,
    /// and shows later as a cost. The table that `shift` had is thrown away unread, and
    /// the table of the other shift is left as it is.
    pub fn generate_random_table(&mut self, shift: Shift)
        requires
            old(self).frame_wf(),
        ensures
            final(self).shift_wf(shift),
            final(self).spec_table(shift.other()) == old(self).spec_table(shift.other()),
            old(self).shift_wf(shift.other()) ==> final(self).wf(),
            final(self)@ == old(self)@.with_grid(
                shift,
                placed_grid(old(self)@.data, shift, old(self)@.periods()),
            ),
            grid_legal(final(self)@.grid(shift), final(self)@.data.relations, shift),
            forall|c: int|
                0 <= c < old(self)@.data.classes.len() && asked_for(
                    old(self)@.data.relations,
                    shift,
                    c,
                    None,
                    old(self)@.data.relations.len() as int,
                ) <= old(self)@.periods() ==> row_complete(
                    #[trigger] final(self)@.grid(shift)[c],
                    old(self)@.data.relations,
                    shift,
                    c,
                ),
    {
        let periods: usize = 5 * (self.max_periods_per_day as usize);
        let ghost data = self@.data;
        let mut table: Vec<ClassSlots> = Vec::new();
        let mut c: usize = 0;
        while c < self.data.classes.len()
            invariant
                c <= self.data.classes.len(),
                self.data.classes.len() <= crate::logic::MAX_ENTITIES,
                self@.data == data,
                table.len() == c,
                forall|j: int| 0 <= j < c ==> (#[trigger] table@[j]).class_index == j,
                forall|j: int|
                    0 <= j < c ==> (#[trigger] table@[j])@ == placed_row(
                        data.relations,
                        shift,
                        j,
                        periods as int,
                    ),
            decreases self.data.classes.len() - c,
        {
            let row = place_class(&self.data, shift, c, periods);
            table.push(ClassSlots { class_index: c as u32, slots: row });
            c += 1;
        }
        proof {
            let grid = placed_grid(data, shift, periods as int);
            assert(grid_of(table@) =~= grid);
            lemma_placed_grid_legal(data, shift, periods as int);
            assert forall|c: int|
                0 <= c < data.classes.len() && asked_for(
                    data.relations,
                    shift,
                    c,
                    None,
                    data.relations.len() as int,
                ) <= periods implies row_complete(#[trigger] grid[c], data.relations, shift, c) by {
                lemma_placed_row_complete(data, shift, c, periods as int);
            }
        }
        match shift {
            Shift::First => {
                self.table1 = table;
            },
            Shift::Second => {
                self.table2 = table;
            },
        }
    }
}

/// How many lessons stand in a cell.
pub open spec fn cell_lessons(slot: Slot) -> int {
    match slot {
        Slot::Single(d) => one_if(d.occupied()),
        Slot::Double { first, second, .. } => one_if(first.occupied()) + one_if(second.occupied()),
    }
}

/// For each period, the lessons of a row.
pub open spec fn row_lessons(row: Seq<Slot>) -> spec_fn(int) -> int {
    |p: int| cell_lessons(row[p])
}

/// For each class, the lessons of its row.
pub open spec fn grid_lessons(grid: Seq<Seq<Slot>>, periods: int) -> spec_fn(int) -> int {
    |c: int| sum(periods, row_lessons(grid[c]))
}

/// The lessons of a grid.
pub open spec fn lessons_held(grid: Seq<Seq<Slot>>, periods: int) -> int {
    sum(grid.len() as int, grid_lessons(grid, periods))
}

/// For each requirement, the periods a week that it asks for in `shift`.
pub open spec fn asking_in(relations: Seq<Relation>, shift: Shift) -> spec_fn(int) -> int {
    |k: int|
        if relations[k].shift == shift.number() {
            periods_asked(relations[k])
        } else {
            0
        }
}

/// The periods a week that the requirements ask for in `shift`.
pub open spec fn periods_wanted(relations: Seq<Relation>, shift: Shift) -> int {
    sum(relations.len() as int, asking_in(relations, shift))
}

impl Timetable {
    /// How many of the periods that the requirements ask for in `shift` the table does
    /// not hold: the periods asked for less the lessons held. After the first table was
    /// built, these are the periods that found no place.
    pub fn periods_missing(&self, shift: Shift) -> (count: i64)
        requires
            self.shift_wf(shift),
        ensures
            count == periods_wanted(self@.data.relations, shift) - lessons_held(
                self@.grid(shift),
                self@.periods(),
            ),
    {
        let periods: usize = 5 * (self.max_periods_per_day as usize);
        let ghost relations = self@.data.relations;
        let ghost h = asking_in(relations, shift);
        let number = shift.to_i32();
        let mut wanted: i64 = 0;
        let mut k: usize = 0;
        while k < self.data.relations.len()
            invariant
                k <= self.data.relations.len(),
                self.data.relations.len() <= crate::logic::MAX_RELATIONS,
                relations == self@.data.relations,
                number == shift.number(),
                h == asking_in(relations, shift),
                wanted == sum(k as int, h),
                0 <= wanted <= k * 0x2_0000_0000,
            decreases self.data.relations.len() - k,
        {
            let r = self.data.relations[k];
            assert(relations[k as int] == r);
            if r.shift == number {
                let second: i64 = match r.per_week_second {
                    Some(n) => n as i64,
                    None => 0,
                };
                wanted = wanted + r.per_week_first as i64 + second;
            }
            assert(sum(k + 1, h) == sum(k as int, h) + h(k as int));
            k += 1;
        }
        let table = self.table(shift);
        let ghost grid = grid_of(table@);
        let ghost f = grid_lessons(grid, periods as int);
        let mut held: i64 = 0;
        let mut c: usize = 0;
        while c < table.len()
            invariant
                c <= table.len(),
                table.len() <= crate::logic::MAX_ENTITIES,
                periods <= 5 * crate::logic::MAX_PERIODS_PER_DAY,
                grid == grid_of(table@),
                forall|j: int| 0 <= j < grid.len() ==> (#[trigger] grid[j]).len() == periods,
                f == grid_lessons(grid, periods as int),
                held == sum(c as int, f),
                0 <= held <= c * 1_000,
            decreases table.len() - c,
        {
            let row = &table[c].slots;
            assert(row@ == grid[c as int]);
            assert(grid[c as int].len() == periods);
            let ghost g = row_lessons(row@);
            let mut here: i64 = 0;
            let mut p: usize = 0;
            while p < periods
                invariant
                    p <= periods,
                    periods <= 5 * crate::logic::MAX_PERIODS_PER_DAY,
                    row.len() == periods,
                    g == row_lessons(row@),
                    here == sum(p as int, g),
                    0 <= here <= 2 * p,
                decreases periods - p,
            {
                let extra: i64 = match row[p] {
                    Slot::Single(SlotData::PartiallyFilled { .. }) => 1,
                    Slot::Single(SlotData::Empty) => 0,
                    Slot::Double { first, second, .. } => {
                        let a: i64 = match first {
                            SlotData::PartiallyFilled { .. } => 1,
                            SlotData::Empty => 0,
                        };
                        let b: i64 = match second {
                            SlotData::PartiallyFilled { .. } => 1,
                            SlotData::Empty => 0,
                        };
                        a + b
                    },
                };
                assert(extra == g(p as int));
                here = here + extra;
                p += 1;
            }
            assert(here == f(c as int));
            held = held + here;
            c += 1;
        }
        wanted - held
    }
}

} // verus!
