//! The room pass: every lesson gets a room, period by period. Lessons with a room of
//! their own come first; the others are served kind by kind, each taking the first room
//! of its kind that nobody has in that period.

use vstd::prelude::*;

use crate::logic::{
    blocks_intact, grid_legal, grid_of, grid_wf, row_legal, ClassSlots, ProblemView, Shift, Slot,
    SlotData, Timetable, TimetableData,
};
use crate::cost::{countable, MAX_COST};
use crate::logic::MAX_PERIODS_PER_DAY;
use crate::rules::{has_index, has_kind, texts, RoomOverrideView, Rules, RulesView};
use crate::sums::{one_if, sum};
use crate::RoomView;

verus! {

/// Whether a rule on rooms applies to the lesson that `teacher` gives in `subject` to
/// `class`.
pub open spec fn override_applies(
    rule: RoomOverrideView,
    data: ProblemView,
    class: int,
    teacher: usize,
    subject: usize,
) -> bool {
    &&& rule.teacher matches Some(name) ==> name == data.teachers[teacher as int]
    &&& rule.class matches Some(name) ==> name == data.classes[class]
    &&& rule.kinds.len() == 0 || rule.kinds.contains(data.subjects[subject as int].kind)
}

/// The room of its own that the first `n` rules give a lesson, if any: the room of the
/// last rule that applies.
pub open spec fn own_room(
    rules: Seq<RoomOverrideView>,
    data: ProblemView,
    class: int,
    teacher: usize,
    subject: usize,
    n: int,
) -> Option<usize>
    decreases n,
{
    if n <= 0 {
        None
    } else if override_applies(rules[n - 1], data, class, teacher, subject) {
        Some(rules[n - 1].room)
    } else {
        own_room(rules, data, class, teacher, subject, n - 1)
    }
}

/// An entry as the pass starts on it: with the room of its own, or with none.
pub open spec fn seeded_entry(
    rules: RulesView,
    data: ProblemView,
    class: int,
    d: SlotData,
) -> SlotData {
    match d {
        SlotData::Empty => SlotData::Empty,
        SlotData::PartiallyFilled { teacher, subject, .. } => SlotData::PartiallyFilled {
            teacher,
            subject,
            room: own_room(
                rules.room_overrides,
                data,
                class,
                teacher,
                subject,
                rules.room_overrides.len() as int,
            ),
        },
    }
}

/// A cell as the pass starts on it.
pub open spec fn seeded_slot(rules: RulesView, data: ProblemView, class: int, slot: Slot) -> Slot {
    match slot {
        Slot::Single(d) => Slot::Single(seeded_entry(rules, data, class, d)),
        Slot::Double { first, second, before, after } => Slot::Double {
            first: seeded_entry(rules, data, class, first),
            second: seeded_entry(rules, data, class, second),
            before,
            after,
        },
    }
}

/// The cells of one period, one per class, as the pass starts on them.
pub open spec fn seeded_column(
    rules: RulesView,
    data: ProblemView,
    column: Seq<Slot>,
) -> Seq<Slot> {
    Seq::new(column.len(), |c: int| seeded_slot(rules, data, c, column[c]))
}

/// The rooms that the first `n` cells of a column take up, in order.
pub open spec fn column_rooms(column: Seq<Slot>, n: int) -> Seq<usize>
    decreases n,
{
    if n <= 0 {
        Seq::empty()
    } else {
        column_rooms(column, n - 1) + column[n - 1].rooms()
    }
}

/// Whether room `i` has `kind` among its kinds and is not in `used`.
pub open spec fn room_free(
    rooms: Seq<RoomView>,
    used: Seq<usize>,
    kind: Seq<char>,
    i: int,
) -> bool {
    !used.contains(i as usize) && rooms[i].kinds.contains(kind)
}

/// The first free room of `kind` from `from` on; the number of rooms where there is none.
pub open spec fn first_free_room(
    rooms: Seq<RoomView>,
    used: Seq<usize>,
    kind: Seq<char>,
    from: int,
) -> int
    decreases rooms.len() - from,
{
    if from >= rooms.len() {
        rooms.len() as int
    } else if room_free(rooms, used, kind, from) {
        from
    } else {
        first_free_room(rooms, used, kind, from + 1)
    }
}

/// Whether an entry waits for a room of `kind`.
pub open spec fn wants_room(data: ProblemView, kind: Seq<char>, d: SlotData) -> bool {
    d matches SlotData::PartiallyFilled { subject, room, .. } && room is None
        && data.subjects[subject as int].kind == kind
}

/// Whether an entry is given a room when `kind` is served and `used` are taken.
pub open spec fn gets_room(
    data: ProblemView,
    kind: Seq<char>,
    used: Seq<usize>,
    d: SlotData,
) -> bool {
    wants_room(data, kind, d) && first_free_room(data.rooms, used, kind, 0) < data.rooms.len()
}

/// An entry after `kind` was served.
pub open spec fn housed(
    data: ProblemView,
    kind: Seq<char>,
    used: Seq<usize>,
    d: SlotData,
) -> SlotData {
    if gets_room(data, kind, used, d) {
        d.in_room(first_free_room(data.rooms, used, kind, 0) as usize)
    } else {
        d
    }
}

/// The rooms taken after an entry was served.
pub open spec fn used_after(
    data: ProblemView,
    kind: Seq<char>,
    used: Seq<usize>,
    d: SlotData,
) -> Seq<usize> {
    if gets_room(data, kind, used, d) {
        used.push(first_free_room(data.rooms, used, kind, 0) as usize)
    } else {
        used
    }
}

/// The cells of one period and the rooms taken in it.
pub struct Period {
    pub column: Seq<Slot>,
    pub used: Seq<usize>,
}

/// The period after the cell of class `c` was served for `kind`: the first group
/// before the second.
pub open spec fn serve_cell(data: ProblemView, kind: Seq<char>, s: Period, c: int) -> Period {
    match s.column[c] {
        Slot::Single(d) => Period {
            column: s.column.update(c, Slot::Single(housed(data, kind, s.used, d))),
            used: used_after(data, kind, s.used, d),
        },
        Slot::Double { first, second, before, after } => {
            let between = used_after(data, kind, s.used, first);
            Period {
                column: s.column.update(
                    c,
                    Slot::Double {
                        first: housed(data, kind, s.used, first),
                        second: housed(data, kind, between, second),
                        before,
                        after,
                    },
                ),
                used: used_after(data, kind, between, second),
            }
        },
    }
}

/// The period after the first `n` classes were served for `kind`.
pub open spec fn serve_kind(data: ProblemView, kind: Seq<char>, s: Period, n: int) -> Period
    decreases n,
{
    if n <= 0 {
        s
    } else {
        serve_cell(data, kind, serve_kind(data, kind, s, n - 1), n - 1)
    }
}

/// The period after the first `k` kinds were served, each for every class.
pub open spec fn serve_kinds(data: ProblemView, kinds: Seq<Seq<char>>, s: Period, k: int) -> Period
    decreases k,
{
    if k <= 0 {
        s
    } else {
        let before = serve_kinds(data, kinds, s, k - 1);
        serve_kind(data, kinds[k - 1], before, before.column.len() as int)
    }
}

/// The cells of one period with their rooms: whatever rooms they had are dropped, the
/// lessons with a room of their own get it, and the others are served in the order of
/// `rules.room_kinds`.
pub open spec fn filled_column(
    data: ProblemView,
    rules: RulesView,
    column: Seq<Slot>,
) -> Seq<Slot> {
    let seeded = seeded_column(rules, data, column);
    serve_kinds(
        data,
        rules.room_kinds,
        Period { column: seeded, used: column_rooms(seeded, seeded.len() as int) },
        rules.room_kinds.len() as int,
    ).column
}

/// The cells that the classes of a grid have in period `p`.
pub open spec fn column_at(grid: Seq<Seq<Slot>>, p: int) -> Seq<Slot> {
    Seq::new(grid.len(), |c: int| grid[c][p])
}

/// A grid with its rooms: each period filled on its own.
pub open spec fn rooms_assigned(
    data: ProblemView,
    rules: RulesView,
    grid: Seq<Seq<Slot>>,
    periods: int,
) -> Seq<Seq<Slot>> {
    Seq::new(
        grid.len(),
        |c: int| Seq::new(periods as nat, |p: int| filled_column(data, rules, column_at(grid, p))[c]),
    )
}

/// A sequence of cells without their rooms.
pub open spec fn cells_without_rooms(cells: Seq<Slot>) -> Seq<Slot> {
    Seq::new(cells.len(), |c: int| cells[c].without_rooms())
}

/// A grid without its rooms, row by row.
pub open spec fn grid_without_rooms(grid: Seq<Seq<Slot>>) -> Seq<Seq<Slot>> {
    Seq::new(grid.len(), |c: int| cells_without_rooms(grid[c]))
}

proof fn lemma_serve_cell_keeps_lessons(data: ProblemView, kind: Seq<char>, s: Period, c: int)
    requires
        0 <= c < s.column.len(),
    ensures
        cells_without_rooms(serve_cell(data, kind, s, c).column) == cells_without_rooms(s.column),
{
    let t = serve_cell(data, kind, s, c);
    assert(cells_without_rooms(t.column) =~= cells_without_rooms(s.column));
}

proof fn lemma_serve_kind_keeps_lessons(data: ProblemView, kind: Seq<char>, s: Period, n: int)
    requires
        n <= s.column.len(),
    ensures
        cells_without_rooms(serve_kind(data, kind, s, n).column) == cells_without_rooms(s.column),
        serve_kind(data, kind, s, n).column.len() == s.column.len(),
    decreases n,
{
    if n > 0 {
        lemma_serve_kind_keeps_lessons(data, kind, s, n - 1);
        let before = serve_kind(data, kind, s, n - 1);
        lemma_serve_cell_keeps_lessons(data, kind, before, n - 1);
    }
}

proof fn lemma_serve_kinds_keeps_lessons(
    data: ProblemView,
    kinds: Seq<Seq<char>>,
    s: Period,
    k: int,
)
    ensures
        cells_without_rooms(serve_kinds(data, kinds, s, k).column) == cells_without_rooms(s.column),
        serve_kinds(data, kinds, s, k).column.len() == s.column.len(),
    decreases k,
{
    if k > 0 {
        lemma_serve_kinds_keeps_lessons(data, kinds, s, k - 1);
        let before = serve_kinds(data, kinds, s, k - 1);
        lemma_serve_kind_keeps_lessons(data, kinds[k - 1], before, before.column.len() as int);
    }
}

/// The room pass changes rooms and nothing else: without its rooms, a filled column is
/// the column it was made from.
pub proof fn lemma_filled_column_keeps_lessons(
    data: ProblemView,
    rules: RulesView,
    column: Seq<Slot>,
)
    ensures
        filled_column(data, rules, column).len() == column.len(),
        cells_without_rooms(filled_column(data, rules, column)) == cells_without_rooms(column),
{
    let seeded = seeded_column(rules, data, column);
    let start = Period { column: seeded, used: column_rooms(seeded, seeded.len() as int) };
    lemma_serve_kinds_keeps_lessons(data, rules.room_kinds, start, rules.room_kinds.len() as int);
    assert(cells_without_rooms(seeded) =~= cells_without_rooms(column));
}

proof fn lemma_seeded_slot_ignores_rooms(
    rules: RulesView,
    data: ProblemView,
    c: int,
    x: Slot,
    y: Slot,
)
    requires
        x.without_rooms() == y.without_rooms(),
    ensures
        seeded_slot(rules, data, c, x) == seeded_slot(rules, data, c, y),
{
    assert(x.first_group().without_room() == y.first_group().without_room());
    assert(x.second_group().without_room() == y.second_group().without_room());
}

/// The rooms that a column had do not matter to the pass.
pub proof fn lemma_filled_column_ignores_rooms(
    data: ProblemView,
    rules: RulesView,
    a: Seq<Slot>,
    b: Seq<Slot>,
)
    requires
        cells_without_rooms(a) == cells_without_rooms(b),
    ensures
        filled_column(data, rules, a) == filled_column(data, rules, b),
{
    assert(a.len() == cells_without_rooms(a).len());
    assert(b.len() == cells_without_rooms(b).len());
    assert forall|c: int| 0 <= c < a.len() implies seeded_slot(rules, data, c, a[c]) == seeded_slot(
        rules,
        data,
        c,
        b[c],
    ) by {
        assert(cells_without_rooms(a)[c] == a[c].without_rooms());
        assert(cells_without_rooms(b)[c] == b[c].without_rooms());
        lemma_seeded_slot_ignores_rooms(rules, data, c, a[c], b[c]);
    }
    assert(seeded_column(rules, data, a) =~= seeded_column(rules, data, b));
}

/// Running the room pass on its own result gives that result again.
pub proof fn lemma_rooms_assigned_idempotent(
    data: ProblemView,
    rules: RulesView,
    grid: Seq<Seq<Slot>>,
    periods: int,
)
    requires
        0 <= periods,
    ensures
        rooms_assigned(data, rules, rooms_assigned(data, rules, grid, periods), periods)
            == rooms_assigned(data, rules, grid, periods),
{
    let once = rooms_assigned(data, rules, grid, periods);
    let twice = rooms_assigned(data, rules, once, periods);
    assert forall|c: int, p: int| 0 <= c < grid.len() && 0 <= p < periods implies twice[c][p]
        == once[c][p] by {
        let col = column_at(grid, p);
        let filled = filled_column(data, rules, col);
        lemma_filled_column_keeps_lessons(data, rules, col);
        assert(column_at(once, p) =~= filled);
        lemma_filled_column_ignores_rooms(data, rules, filled, col);
    }
    assert forall|c: int| 0 <= c < grid.len() implies twice[c] == once[c] by {
        assert(twice[c] =~= once[c]);
    }
    assert(twice =~= once);
}

/// Whether `(c, g)` names an entry of a column: group 0 of any cell, group 1 of a cell
/// of a block.
pub open spec fn is_entry(column: Seq<Slot>, c: int, g: int) -> bool {
    0 <= c < column.len() && (g == 0 || (g == 1 && column[c] is Double))
}

/// The room of an entry, if it has one.
pub open spec fn room_at(column: Seq<Slot>, c: int, g: int) -> Option<usize> {
    match column[c].entry(g) {
        SlotData::PartiallyFilled { room, .. } => room,
        SlotData::Empty => None,
    }
}

/// Whether the room of the entry `(c, g)`, if the pass gave it one, is fit: it is a
/// room of the school, it has the kind of the lesson's subject, and no other entry of
/// the period is in it. `seeded` is the column as the pass started on it: an entry
/// that had a room of its own there is not spoken of.
pub open spec fn well_housed(
    data: ProblemView,
    seeded: Seq<Slot>,
    column: Seq<Slot>,
    c: int,
    g: int,
) -> bool {
    room_at(seeded, c, g) is None ==> (room_at(column, c, g) matches Some(r) ==> {
        &&& r < data.rooms.len()
        &&& column[c].entry(g) matches SlotData::PartiallyFilled { subject, .. }
            && data.rooms[r as int].kinds.contains(data.subjects[subject as int].kind)
        &&& forall|c2: int, g2: int|
            is_entry(column, c2, g2) && (c2 != c || g2 != g) ==> #[trigger] room_at(column, c2, g2)
                != Some(r)
    })
}

/// Whether every entry of a column is well housed, and every lesson with a room of
/// its own has it.
pub open spec fn column_housed(data: ProblemView, seeded: Seq<Slot>, column: Seq<Slot>) -> bool {
    &&& forall|c: int, g: int|
        is_entry(column, c, g) ==> #[trigger] well_housed(data, seeded, column, c, g)
    &&& forall|c: int, g: int|
        is_entry(seeded, c, g) && room_at(seeded, c, g) is Some ==> #[trigger] room_at(column, c, g)
            == room_at(seeded, c, g)
}

/// What holds of a period throughout the pass.
spec fn period_sound(data: ProblemView, seeded: Seq<Slot>, s: Period) -> bool {
    &&& cells_without_rooms(s.column) == cells_without_rooms(seeded)
    &&& column_housed(data, seeded, s.column)
    &&& forall|c: int, g: int|
        is_entry(s.column, c, g) ==> (#[trigger] room_at(s.column, c, g) matches Some(r)
            ==> s.used.contains(r))
}

/// The period after one entry was served for `kind`.
spec fn serve_entry(data: ProblemView, kind: Seq<char>, s: Period, c: int, g: int) -> Period {
    let d = s.column[c].entry(g);
    Period {
        column: s.column.update(c, s.column[c].with_entry(g, housed(data, kind, s.used, d))),
        used: used_after(data, kind, s.used, d),
    }
}

proof fn lemma_first_free_room(rooms: Seq<RoomView>, used: Seq<usize>, kind: Seq<char>, from: int)
    requires
        0 <= from,
    ensures
        from <= first_free_room(rooms, used, kind, from) || first_free_room(rooms, used, kind, from)
            == rooms.len(),
        first_free_room(rooms, used, kind, from) < rooms.len() ==> room_free(
            rooms,
            used,
            kind,
            first_free_room(rooms, used, kind, from),
        ),
    decreases rooms.len() - from,
{
    if from < rooms.len() && !room_free(rooms, used, kind, from) {
        lemma_first_free_room(rooms, used, kind, from + 1);
    }
}

proof fn lemma_same_shape(a: Seq<Slot>, b: Seq<Slot>)
    requires
        cells_without_rooms(a) == cells_without_rooms(b),
    ensures
        a.len() == b.len(),
        forall|c: int| 0 <= c < a.len() ==> ((#[trigger] a[c]) is Double <==> b[c] is Double),
        forall|c: int| 0 <= c < a.len() ==> (#[trigger] a[c]).without_rooms() == b[c].without_rooms(),
{
    assert(a.len() == cells_without_rooms(a).len());
    assert(b.len() == cells_without_rooms(b).len());
    assert forall|c: int| 0 <= c < a.len() implies (#[trigger] a[c]).without_rooms()
        == b[c].without_rooms() by {
        assert(cells_without_rooms(a)[c] == a[c].without_rooms());
        assert(cells_without_rooms(b)[c] == b[c].without_rooms());
    }
}

proof fn lemma_serve_entry_sound(
    data: ProblemView,
    seeded: Seq<Slot>,
    kind: Seq<char>,
    s: Period,
    c: int,
    g: int,
)
    requires
        data.rooms.len() <= usize::MAX,
        period_sound(data, seeded, s),
        is_entry(s.column, c, g),
    ensures
        period_sound(data, seeded, serve_entry(data, kind, s, c, g)),
{
    let t = serve_entry(data, kind, s, c, g);
    let d = s.column[c].entry(g);
    lemma_same_shape(s.column, seeded);
    assert(cells_without_rooms(t.column) =~= cells_without_rooms(s.column));
    lemma_same_shape(t.column, seeded);
    if gets_room(data, kind, s.used, d) {
        let r = first_free_room(data.rooms, s.used, kind, 0);
        lemma_first_free_room(data.rooms, s.used, kind, 0);
        assert(!s.used.contains(r as usize));
        assert(t.used == s.used.push(r as usize));
        assert(room_at(t.column, c, g) == Some(r as usize));
        assert forall|c2: int, g2: int| is_entry(t.column, c2, g2) && (c2 != c || g2 != g) implies (
        #[trigger] room_at(t.column, c2, g2)) == room_at(s.column, c2, g2) by {}
        assert forall|c2: int, g2: int| is_entry(t.column, c2, g2) implies (#[trigger] room_at(
            t.column,
            c2,
            g2,
        ) matches Some(x) ==> t.used.contains(x)) by {
            if c2 == c && g2 == g {
                assert(t.used[s.used.len() as int] == r as usize);
            } else {
                assert(is_entry(s.column, c2, g2));
                if let Some(x) = room_at(s.column, c2, g2) {
                    assert(s.used.contains(x));
                    let k = choose|k: int| 0 <= k < s.used.len() && s.used[k] == x;
                    assert(t.used[k] == x);
                }
            }
        }
        assert forall|c2: int, g2: int| is_entry(t.column, c2, g2) implies #[trigger] well_housed(
            data,
            seeded,
            t.column,
            c2,
            g2,
        ) by {
            if c2 == c && g2 == g {
                assert forall|c3: int, g3: int|
                    is_entry(t.column, c3, g3) && (c3 != c || g3 != g) implies #[trigger] room_at(
                    t.column,
                    c3,
                    g3,
                ) != Some(r as usize) by {
                    assert(is_entry(s.column, c3, g3));
                    assert(room_at(t.column, c3, g3) == room_at(s.column, c3, g3));
                    if room_at(s.column, c3, g3) == Some(r as usize) {
                        assert(s.used.contains(r as usize));
                    }
                }
            } else {
                assert(is_entry(s.column, c2, g2));
                assert(well_housed(data, seeded, s.column, c2, g2));
                assert(t.column[c2].entry(g2) == s.column[c2].entry(g2));
                if room_at(seeded, c2, g2) is None {
                    if let Some(x) = room_at(t.column, c2, g2) {
                        assert(s.used.contains(x));
                        assert forall|c3: int, g3: int|
                            is_entry(t.column, c3, g3) && (c3 != c2 || g3 != g2) implies #[trigger] room_at(
                            t.column,
                            c3,
                            g3,
                        ) != Some(x) by {
                            if c3 == c && g3 == g {
                                assert(x != r as usize);
                            } else {
                                assert(is_entry(s.column, c3, g3));
                                assert(room_at(t.column, c3, g3) == room_at(s.column, c3, g3));
                                assert(room_at(s.column, c3, g3) != Some(x));
                            }
                        }
                    }
                }
            }
        }
        assert forall|c2: int, g2: int|
            is_entry(seeded, c2, g2) && room_at(seeded, c2, g2) is Some implies #[trigger] room_at(
            t.column,
            c2,
            g2,
        ) == room_at(seeded, c2, g2) by {
            assert(room_at(s.column, c2, g2) == room_at(seeded, c2, g2));
            if c2 == c && g2 == g {
                // an entry that wants a room has none, so it had none of its own
                assert(room_at(s.column, c, g) is None);
            }
        }
    } else {
        assert(t.column =~= s.column);
    }
}

proof fn lemma_serve_cell_sound(
    data: ProblemView,
    seeded: Seq<Slot>,
    kind: Seq<char>,
    s: Period,
    c: int,
)
    requires
        data.rooms.len() <= usize::MAX,
        period_sound(data, seeded, s),
        0 <= c < s.column.len(),
    ensures
        period_sound(data, seeded, serve_cell(data, kind, s, c)),
{
    lemma_serve_entry_sound(data, seeded, kind, s, c, 0);
    let first = serve_entry(data, kind, s, c, 0);
    match s.column[c] {
        Slot::Single(d) => {
            assert(serve_cell(data, kind, s, c).column =~= first.column);
        },
        Slot::Double { .. } => {
            lemma_serve_entry_sound(data, seeded, kind, first, c, 1);
            let second = serve_entry(data, kind, first, c, 1);
            assert(serve_cell(data, kind, s, c).column =~= second.column);
        },
    }
}

proof fn lemma_serve_kind_sound(
    data: ProblemView,
    seeded: Seq<Slot>,
    kind: Seq<char>,
    s: Period,
    n: int,
)
    requires
        data.rooms.len() <= usize::MAX,
        period_sound(data, seeded, s),
        n <= s.column.len(),
    ensures
        period_sound(data, seeded, serve_kind(data, kind, s, n)),
    decreases n,
{
    if n > 0 {
        lemma_serve_kind_sound(data, seeded, kind, s, n - 1);
        lemma_serve_kind_keeps_lessons(data, kind, s, n - 1);
        lemma_serve_cell_sound(data, seeded, kind, serve_kind(data, kind, s, n - 1), n - 1);
    }
}

proof fn lemma_serve_kinds_sound(
    data: ProblemView,
    seeded: Seq<Slot>,
    kinds: Seq<Seq<char>>,
    s: Period,
    k: int,
)
    requires
        data.rooms.len() <= usize::MAX,
        period_sound(data, seeded, s),
    ensures
        period_sound(data, seeded, serve_kinds(data, kinds, s, k)),
    decreases k,
{
    if k > 0 {
        lemma_serve_kinds_sound(data, seeded, kinds, s, k - 1);
        let before = serve_kinds(data, kinds, s, k - 1);
        lemma_serve_kind_sound(data, seeded, kinds[k - 1], before, before.column.len() as int);
    }
}

proof fn lemma_column_rooms_has(column: Seq<Slot>, n: int, c: int, g: int)
    requires
        is_entry(column, c, g),
        c < n <= column.len(),
    ensures
        room_at(column, c, g) matches Some(r) ==> column_rooms(column, n).contains(r),
    decreases n,
{
    if let Some(r) = room_at(column, c, g) {
        let head = column_rooms(column, n - 1);
        let tail = column[n - 1].rooms();
        if c == n - 1 {
            match column[c] {
                Slot::Single(d) => {
                    assert(tail[0] == r);
                    assert((head + tail)[head.len() as int] == r);
                },
                Slot::Double { first, second, .. } => {
                    if g == 0 {
                        assert(first.rooms()[0] == r);
                        assert(tail[0] == r);
                        assert((head + tail)[head.len() as int] == r);
                    } else {
                        assert(second.rooms()[0] == r);
                        assert(tail[first.rooms().len() as int] == r);
                        assert((head + tail)[(head.len() + first.rooms().len()) as int] == r);
                    }
                },
            }
        } else {
            lemma_column_rooms_has(column, n - 1, c, g);
            let k = choose|k: int| 0 <= k < head.len() && head[k] == r;
            assert((head + tail)[k] == r);
        }
    }
}

/// The room pass houses every lesson well: a lesson with a room of its own has it,
/// and a room that the pass gave is a room of the lesson's kind in which no other
/// lesson of the period is.
pub proof fn lemma_filled_column_housed(data: ProblemView, rules: RulesView, column: Seq<Slot>)
    requires
        data.rooms.len() <= usize::MAX,
    ensures
        column_housed(
            data,
            seeded_column(rules, data, column),
            filled_column(data, rules, column),
        ),
{
    let seeded = seeded_column(rules, data, column);
    let start = Period { column: seeded, used: column_rooms(seeded, seeded.len() as int) };
    assert forall|c: int, g: int| is_entry(seeded, c, g) implies (#[trigger] room_at(seeded, c, g) matches Some(
        r,
    ) ==> start.used.contains(r)) by {
        lemma_column_rooms_has(seeded, seeded.len() as int, c, g);
    }
    assert(period_sound(data, seeded, start));
    lemma_serve_kinds_sound(data, seeded, rules.room_kinds, start, rules.room_kinds.len() as int);
}

/// Whether some lesson of a column is in room `r`.
pub open spec fn room_taken(column: Seq<Slot>, r: usize) -> bool {
    exists|c: int, g: int| is_entry(column, c, g) && #[trigger] room_at(column, c, g) == Some(r)
}

/// Whether no lesson of a column was left without a room while a room for it was
/// free: where a lesson of a kind that the pass serves has no room, every room of
/// that kind is taken by a lesson of the period.
pub open spec fn column_served(data: ProblemView, rules: RulesView, column: Seq<Slot>) -> bool {
    forall|c: int, g: int, j: int, i: int|
        #![trigger column[c].entry(g), rules.room_kinds[j], data.rooms[i]]
        is_entry(column, c, g) && 0 <= j < rules.room_kinds.len() && wants_room(
            data,
            rules.room_kinds[j],
            column[c].entry(g),
        ) && 0 <= i < data.rooms.len() && data.rooms[i].kinds.contains(rules.room_kinds[j])
            ==> room_taken(column, i as usize)
}

/// Whether every room of `kind` is in `used`.
spec fn exhausted(rooms: Seq<RoomView>, kind: Seq<char>, used: Seq<usize>) -> bool {
    forall|i: int|
        0 <= i < rooms.len() && (#[trigger] rooms[i]).kinds.contains(kind) ==> used.contains(
            i as usize,
        )
}

/// Whether every room that counts as taken is the room of a lesson.
spec fn all_held(s: Period) -> bool {
    forall|r: usize| s.used.contains(r) ==> #[trigger] room_taken(s.column, r)
}

/// Whether all of `a` is in `b`.
spec fn covers(a: Seq<usize>, b: Seq<usize>) -> bool {
    forall|x: usize| a.contains(x) ==> #[trigger] b.contains(x)
}

/// Whether no entry of `t` waits for a room that did not wait in `s`.
spec fn no_new_wants(data: ProblemView, s: Seq<Slot>, t: Seq<Slot>) -> bool {
    &&& s.len() == t.len()
    &&& forall|c: int| 0 <= c < s.len() ==> ((#[trigger] s[c]) is Double <==> t[c] is Double)
    &&& forall|c: int, g: int, kind: Seq<char>|
        is_entry(t, c, g) && wants_room(data, kind, #[trigger] t[c].entry(g)) ==> #[trigger] wants_room(
            data,
            kind,
            s[c].entry(g),
        )
}

/// Whether the entries of the first `n` cells that still wait for a room of `kind`
/// wait in vain.
spec fn kind_settled(data: ProblemView, kind: Seq<char>, s: Period, n: int) -> bool {
    forall|c: int, g: int|
        is_entry(s.column, c, g) && c < n && wants_room(data, kind, #[trigger] s.column[c].entry(g))
            ==> exhausted(data.rooms, kind, s.used)
}

spec fn kinds_settled(data: ProblemView, kinds: Seq<Seq<char>>, s: Period, k: int) -> bool {
    forall|j: int|
        0 <= j < k ==> kind_settled(data, #[trigger] kinds[j], s, s.column.len() as int)
}

proof fn lemma_no_free_room(rooms: Seq<RoomView>, used: Seq<usize>, kind: Seq<char>, from: int)
    requires
        0 <= from,
        first_free_room(rooms, used, kind, from) >= rooms.len(),
    ensures
        forall|i: int| from <= i < rooms.len() ==> !room_free(rooms, used, kind, i),
    decreases rooms.len() - from,
{
    if from < rooms.len() {
        lemma_first_free_room(rooms, used, kind, from);
        lemma_no_free_room(rooms, used, kind, from + 1);
    }
}

proof fn lemma_covers_push(used: Seq<usize>, r: usize)
    ensures
        covers(used, used.push(r)),
        used.push(r).contains(r),
{
    assert forall|x: usize| used.contains(x) implies #[trigger] used.push(r).contains(x) by {
        let k = choose|k: int| 0 <= k < used.len() && used[k] == x;
        assert(used.push(r)[k] == x);
    }
    assert(used.push(r)[used.len() as int] == r);
}

proof fn lemma_settled_stays(data: ProblemView, kind: Seq<char>, s: Period, t: Period, n: int)
    requires
        kind_settled(data, kind, s, n),
        no_new_wants(data, s.column, t.column),
        covers(s.used, t.used),
    ensures
        kind_settled(data, kind, t, n),
{
    assert forall|c: int, g: int|
        is_entry(t.column, c, g) && c < n && wants_room(
            data,
            kind,
            #[trigger] t.column[c].entry(g),
        ) implies exhausted(data.rooms, kind, t.used) by {
        assert(is_entry(s.column, c, g));
        assert(wants_room(data, kind, s.column[c].entry(g)));
        assert(exhausted(data.rooms, kind, s.used));
        assert forall|i: int|
            0 <= i < data.rooms.len() && (#[trigger] data.rooms[i]).kinds.contains(
                kind,
            ) implies t.used.contains(i as usize) by {
            assert(s.used.contains(i as usize));
        }
    }
}

proof fn lemma_serve_entry_settles(data: ProblemView, kind: Seq<char>, s: Period, c: int, g: int)
    requires
        data.rooms.len() <= usize::MAX,
        all_held(s),
        is_entry(s.column, c, g),
    ensures
        all_held(serve_entry(data, kind, s, c, g)),
        covers(s.used, serve_entry(data, kind, s, c, g).used),
        no_new_wants(data, s.column, serve_entry(data, kind, s, c, g).column),
        wants_room(data, kind, serve_entry(data, kind, s, c, g).column[c].entry(g)) ==> exhausted(
            data.rooms,
            kind,
            serve_entry(data, kind, s, c, g).used,
        ),
{
    let t = serve_entry(data, kind, s, c, g);
    let d = s.column[c].entry(g);
    assert forall|c2: int, g2: int| is_entry(t.column, c2, g2) && (c2 != c || g2 != g) implies (
    #[trigger] t.column[c2].entry(g2)) == s.column[c2].entry(g2) by {}
    if gets_room(data, kind, s.used, d) {
        let r = first_free_room(data.rooms, s.used, kind, 0);
        lemma_first_free_room(data.rooms, s.used, kind, 0);
        lemma_covers_push(s.used, r as usize);
        assert(t.column[c].entry(g) == d.in_room(r as usize));
        assert forall|x: usize| t.used.contains(x) implies #[trigger] room_taken(t.column, x) by {
            if s.used.contains(x) {
                assert(room_taken(s.column, x));
                let (c2, g2) = choose|c2: int, g2: int|
                    is_entry(s.column, c2, g2) && #[trigger] room_at(s.column, c2, g2) == Some(x);
                // the entry that is served had no room, so it is another that holds `x`
                assert(c2 != c || g2 != g);
                assert(is_entry(t.column, c2, g2));
                assert(t.column[c2].entry(g2) == s.column[c2].entry(g2));
                assert(room_at(t.column, c2, g2) == Some(x));
            } else {
                let k = choose|k: int| 0 <= k < t.used.len() && t.used[k] == x;
                assert(k == s.used.len());
                assert(is_entry(t.column, c, g));
                assert(room_at(t.column, c, g) == Some(x));
            }
        }
    } else {
        assert(t.column =~= s.column);
        assert forall|x: usize| t.used.contains(x) implies #[trigger] room_taken(t.column, x) by {
            assert(room_taken(s.column, x));
        }
        if wants_room(data, kind, d) {
            lemma_no_free_room(data.rooms, s.used, kind, 0);
            assert forall|i: int|
                0 <= i < data.rooms.len() && (#[trigger] data.rooms[i]).kinds.contains(
                    kind,
                ) implies s.used.contains(i as usize) by {
                assert(!room_free(data.rooms, s.used, kind, i));
            }
        }
    }
}

proof fn lemma_no_new_wants_chain(data: ProblemView, a: Seq<Slot>, b: Seq<Slot>, c: Seq<Slot>)
    requires
        no_new_wants(data, a, b),
        no_new_wants(data, b, c),
    ensures
        no_new_wants(data, a, c),
{
    assert forall|i: int, g: int, kind: Seq<char>|
        is_entry(c, i, g) && wants_room(data, kind, #[trigger] c[i].entry(g)) implies #[trigger] wants_room(
        data,
        kind,
        a[i].entry(g),
    ) by {
        assert(is_entry(b, i, g));
        assert(wants_room(data, kind, b[i].entry(g)));
    }
}

proof fn lemma_covers_chain(a: Seq<usize>, b: Seq<usize>, c: Seq<usize>)
    requires
        covers(a, b),
        covers(b, c),
    ensures
        covers(a, c),
{
    assert forall|x: usize| a.contains(x) implies #[trigger] c.contains(x) by {
        assert(b.contains(x));
    }
}

proof fn lemma_serve_cell_settles(data: ProblemView, kind: Seq<char>, s: Period, c: int)
    requires
        data.rooms.len() <= usize::MAX,
        all_held(s),
        0 <= c < s.column.len(),
        kind_settled(data, kind, s, c),
    ensures
        all_held(serve_cell(data, kind, s, c)),
        covers(s.used, serve_cell(data, kind, s, c).used),
        no_new_wants(data, s.column, serve_cell(data, kind, s, c).column),
        kind_settled(data, kind, serve_cell(data, kind, s, c), c + 1),
{
    let done = serve_cell(data, kind, s, c);
    lemma_serve_entry_settles(data, kind, s, c, 0);
    let first = serve_entry(data, kind, s, c, 0);
    lemma_settled_stays(data, kind, s, first, c);
    match s.column[c] {
        Slot::Single(d) => {
            assert(done.column =~= first.column);
            assert(done == first);
            assert forall|c2: int, g2: int|
                is_entry(done.column, c2, g2) && c2 < c + 1 && wants_room(
                    data,
                    kind,
                    #[trigger] done.column[c2].entry(g2),
                ) implies exhausted(data.rooms, kind, done.used) by {
                if c2 == c {
                    assert(g2 == 0);
                }
            }
        },
        Slot::Double { .. } => {
            lemma_serve_entry_settles(data, kind, first, c, 1);
            let second = serve_entry(data, kind, first, c, 1);
            assert(done.column =~= second.column);
            assert(done == second);
            lemma_settled_stays(data, kind, first, second, c);
            lemma_no_new_wants_chain(data, s.column, first.column, second.column);
            lemma_covers_chain(s.used, first.used, second.used);
            assert forall|c2: int, g2: int|
                is_entry(done.column, c2, g2) && c2 < c + 1 && wants_room(
                    data,
                    kind,
                    #[trigger] done.column[c2].entry(g2),
                ) implies exhausted(data.rooms, kind, done.used) by {
                if c2 == c && g2 == 0 {
                    // the first group waited in vain already, and no room came free
                    assert(is_entry(first.column, c, 0));
                    assert(wants_room(data, kind, first.column[c].entry(0)));
                    assert(exhausted(data.rooms, kind, first.used));
                    assert forall|i: int|
                        0 <= i < data.rooms.len() && (#[trigger] data.rooms[i]).kinds.contains(
                            kind,
                        ) implies second.used.contains(i as usize) by {
                        assert(first.used.contains(i as usize));
                    }
                }
            }
        },
    }
}

proof fn lemma_serve_kind_settles(data: ProblemView, kind: Seq<char>, s: Period, n: int)
    requires
        data.rooms.len() <= usize::MAX,
        all_held(s),
        n <= s.column.len(),
    ensures
        all_held(serve_kind(data, kind, s, n)),
        covers(s.used, serve_kind(data, kind, s, n).used),
        no_new_wants(data, s.column, serve_kind(data, kind, s, n).column),
        kind_settled(data, kind, serve_kind(data, kind, s, n), n),
    decreases n,
{
    if n > 0 {
        lemma_serve_kind_settles(data, kind, s, n - 1);
        let before = serve_kind(data, kind, s, n - 1);
        lemma_serve_cell_settles(data, kind, before, n - 1);
        let after = serve_cell(data, kind, before, n - 1);
        lemma_no_new_wants_chain(data, s.column, before.column, after.column);
        lemma_covers_chain(s.used, before.used, after.used);
    } else {
        assert forall|x: usize| s.used.contains(x) implies #[trigger] s.used.contains(x) by {}
    }
}

proof fn lemma_serve_kinds_settles(data: ProblemView, kinds: Seq<Seq<char>>, s: Period, k: int)
    requires
        data.rooms.len() <= usize::MAX,
        all_held(s),
        k <= kinds.len(),
    ensures
        all_held(serve_kinds(data, kinds, s, k)),
        covers(s.used, serve_kinds(data, kinds, s, k).used),
        no_new_wants(data, s.column, serve_kinds(data, kinds, s, k).column),
        kinds_settled(data, kinds, serve_kinds(data, kinds, s, k), k),
    decreases k,
{
    if k > 0 {
        lemma_serve_kinds_settles(data, kinds, s, k - 1);
        let before = serve_kinds(data, kinds, s, k - 1);
        let n = before.column.len() as int;
        lemma_serve_kind_settles(data, kinds[k - 1], before, n);
        let after = serve_kind(data, kinds[k - 1], before, n);
        lemma_no_new_wants_chain(data, s.column, before.column, after.column);
        lemma_covers_chain(s.used, before.used, after.used);
        assert forall|j: int| 0 <= j < k implies kind_settled(
            data,
            #[trigger] kinds[j],
            after,
            after.column.len() as int,
        ) by {
            if j < k - 1 {
                assert(kind_settled(data, kinds[j], before, n));
                lemma_settled_stays(data, kinds[j], before, after, n);
            }
        }
    } else {
        assert forall|x: usize| s.used.contains(x) implies #[trigger] s.used.contains(x) by {}
    }
}

proof fn lemma_column_rooms_held(column: Seq<Slot>, n: int, r: usize)
    requires
        n <= column.len(),
        column_rooms(column, n).contains(r),
    ensures
        room_taken(column, r),
    decreases n,
{
    if n > 0 {
        let head = column_rooms(column, n - 1);
        let tail = column[n - 1].rooms();
        let k = choose|k: int| 0 <= k < (head + tail).len() && (head + tail)[k] == r;
        if k < head.len() {
            assert(head[k] == r);
            lemma_column_rooms_held(column, n - 1, r);
        } else {
            assert(tail[k - head.len()] == r);
            match column[n - 1] {
                Slot::Single(d) => {
                    assert(is_entry(column, n - 1, 0));
                    assert(room_at(column, n - 1, 0) == Some(r));
                },
                Slot::Double { first, second, .. } => {
                    if k - head.len() < first.rooms().len() {
                        assert(first.rooms()[k - head.len()] == r);
                        assert(is_entry(column, n - 1, 0));
                        assert(room_at(column, n - 1, 0) == Some(r));
                    } else {
                        assert(second.rooms()[k - head.len() - first.rooms().len()] == r);
                        assert(is_entry(column, n - 1, 1));
                        assert(room_at(column, n - 1, 1) == Some(r));
                    }
                },
            }
        }
    }
}

/// The room pass leaves a lesson without a room only where it must: if a lesson of a
/// kind that the pass serves has no room, every room of that kind is taken by a lesson
/// of the period.
pub proof fn lemma_filled_column_served(data: ProblemView, rules: RulesView, column: Seq<Slot>)
    requires
        data.rooms.len() <= usize::MAX,
    ensures
        column_served(data, rules, filled_column(data, rules, column)),
{
    let seeded = seeded_column(rules, data, column);
    let start = Period { column: seeded, used: column_rooms(seeded, seeded.len() as int) };
    assert forall|r: usize| start.used.contains(r) implies #[trigger] room_taken(start.column, r) by {
        lemma_column_rooms_held(seeded, seeded.len() as int, r);
    }
    let kinds = rules.room_kinds;
    lemma_serve_kinds_settles(data, kinds, start, kinds.len() as int);
    let done = serve_kinds(data, kinds, start, kinds.len() as int);
    let filled = filled_column(data, rules, column);
    assert(filled == done.column);
    assert forall|c: int, g: int, j: int, i: int|
        #![trigger filled[c].entry(g), rules.room_kinds[j], data.rooms[i]]
        is_entry(filled, c, g) && 0 <= j < rules.room_kinds.len() && wants_room(
            data,
            rules.room_kinds[j],
            filled[c].entry(g),
        ) && 0 <= i < data.rooms.len() && data.rooms[i].kinds.contains(
            rules.room_kinds[j],
        ) implies room_taken(filled, i as usize) by {
        assert(kind_settled(data, kinds[j], done, done.column.len() as int));
        assert(exhausted(data.rooms, kinds[j], done.used));
        assert(done.used.contains(i as usize));
    }
}

/// Whether every period of a grid is well housed, going by the grid that the pass
/// started from, and no lesson was left without a room while a room for it was free.
pub open spec fn grid_housed(
    data: ProblemView,
    rules: RulesView,
    before: Seq<Seq<Slot>>,
    after: Seq<Seq<Slot>>,
    periods: int,
) -> bool {
    forall|p: int|
        0 <= p < periods ==> column_housed(
            data,
            seeded_column(rules, data, #[trigger] column_at(before, p)),
            column_at(after, p),
        ) && column_served(data, rules, column_at(after, p))
}

/// The room pass houses every lesson of a grid well, and leaves a lesson without a
/// room only where all rooms of its kind are taken.
pub proof fn lemma_rooms_assigned_housed(
    data: ProblemView,
    rules: RulesView,
    grid: Seq<Seq<Slot>>,
    periods: int,
)
    requires
        data.rooms.len() <= usize::MAX,
    ensures
        grid_housed(data, rules, grid, rooms_assigned(data, rules, grid, periods), periods),
{
    let done = rooms_assigned(data, rules, grid, periods);
    assert forall|p: int| 0 <= p < periods implies column_housed(
        data,
        seeded_column(rules, data, #[trigger] column_at(grid, p)),
        column_at(done, p),
    ) && column_served(data, rules, column_at(done, p)) by {
        let col = column_at(grid, p);
        lemma_filled_column_housed(data, rules, col);
        lemma_filled_column_served(data, rules, col);
        lemma_filled_column_keeps_lessons(data, rules, col);
        assert(column_at(done, p) =~= filled_column(data, rules, col));
    }
}

/// The room of its own that a lesson has, if any.
fn own_room_of(
    data: &TimetableData,
    rules: &Rules,
    class: usize,
    teacher: usize,
    subject: usize,
) -> (r: Option<usize>)
    requires
        class < data.classes.len(),
        teacher < data.teachers.len(),
        subject < data.subjects.len(),
    ensures
        r == own_room(
            rules@.room_overrides,
            data@,
            class as int,
            teacher,
            subject,
            rules@.room_overrides.len() as int,
        ),
{
    let mut r: Option<usize> = None;
    let mut i: usize = 0;
    while i < rules.room_overrides.len()
        invariant
            i <= rules.room_overrides.len(),
            class < data.classes.len(),
            teacher < data.teachers.len(),
            subject < data.subjects.len(),
            r == own_room(rules@.room_overrides, data@, class as int, teacher, subject, i as int),
        decreases rules.room_overrides.len() - i,
    {
        let rule = &rules.room_overrides[i];
        let teacher_fits = match &rule.teacher {
            Some(name) => *name == data.teachers[teacher].name,
            None => true,
        };
        let class_fits = match &rule.class {
            Some(name) => *name == data.classes[class].name,
            None => true,
        };
        let kind_fits = rule.kinds.len() == 0 || has_kind(&rule.kinds, &data.subjects[subject].kind);
        assert(rules@.room_overrides[i as int] == rule@);
        if teacher_fits && class_fits && kind_fits {
            r = Some(rule.room);
        }
        i += 1;
    }
    r
}

/// An entry with the room of its own, or with none.
fn seed_entry(data: &TimetableData, rules: &Rules, class: usize, d: SlotData) -> (r: SlotData)
    requires
        class < data.classes.len(),
        d.refers_within(data@.teachers.len(), data@.subjects.len()),
    ensures
        r == seeded_entry(rules@, data@, class as int, d),
{
    match d {
        SlotData::Empty => SlotData::Empty,
        SlotData::PartiallyFilled { teacher, subject, .. } => SlotData::PartiallyFilled {
            teacher,
            subject,
            room: own_room_of(data, rules, class, teacher, subject),
        },
    }
}

/// Notes the room of an entry as taken.
fn note_room(used: &mut Vec<usize>, d: SlotData)
    ensures
        final(used)@ == old(used)@ + d.rooms(),
{
    match d {
        SlotData::PartiallyFilled { room: Some(r), .. } => {
            used.push(r);
            assert(used@ =~= old(used)@ + d.rooms());
        },
        _ => {
            assert(used@ =~= old(used)@ + d.rooms());
        },
    }
}

/// The first room of `kind` that is not in `used`.
pub(crate) fn find_room(data: &TimetableData, used: &Vec<usize>, kind: &String) -> (r: usize)
    ensures
        r == first_free_room(data@.rooms, used@, kind@, 0),
        r <= data.rooms.len(),
{
    let mut i: usize = 0;
    while i < data.rooms.len()
        invariant
            i <= data.rooms.len(),
            first_free_room(data@.rooms, used@, kind@, 0) == first_free_room(
                data@.rooms,
                used@,
                kind@,
                i as int,
            ),
        decreases data.rooms.len() - i,
    {
        assert(data@.rooms[i as int].kinds == texts(data.rooms@[i as int].kinds@));
        if !has_index(used, i) && has_kind(&data.rooms[i].kinds, kind) {
            return i;
        }
        i += 1;
    }
    i
}

/// Serves one entry for `kind`.
fn house(data: &TimetableData, kind: &String, used: &mut Vec<usize>, d: SlotData) -> (r: SlotData)
    requires
        d.refers_within(data@.teachers.len(), data@.subjects.len()),
    ensures
        r == housed(data@, kind@, old(used)@, d),
        final(used)@ == used_after(data@, kind@, old(used)@, d),
{
    match d {
        SlotData::PartiallyFilled { teacher, subject, room: None } => {
            if data.subjects[subject].kind == *kind {
                let i = find_room(data, used, kind);
                if i < data.rooms.len() {
                    used.push(i);
                    return SlotData::PartiallyFilled { teacher, subject, room: Some(i) };
                }
            }
            d
        },
        _ => d,
    }
}

/// Gives the cells of one period their rooms.
pub(crate) fn fill_column(data: &TimetableData, rules: &Rules, column: &mut Vec<Slot>)
    requires
        old(column).len() <= data.classes.len(),
        forall|c: int|
            0 <= c < old(column).len() ==> (#[trigger] old(column)@[c]).refers_within(
                data@.teachers.len(),
                data@.subjects.len(),
            ),
    ensures
        final(column)@ == filled_column(data@, rules@, old(column)@),
{
    let n = column.len();
    let mut used: Vec<usize> = Vec::new();
    let mut c: usize = 0;
    while c < n
        invariant
            c <= n,
            n == column.len(),
            n == old(column).len(),
            n <= data.classes.len(),
            forall|j: int|
                0 <= j < n ==> (#[trigger] old(column)@[j]).refers_within(
                    data@.teachers.len(),
                    data@.subjects.len(),
                ),
            forall|j: int| 0 <= j < c ==> column@[j] == seeded_slot(rules@, data@, j, old(column)@[j]),
            forall|j: int| c <= j < n ==> column@[j] == old(column)@[j],
            used@ == column_rooms(column@, c as int),
        decreases n - c,
    {
        let ghost previous = column@;
        let seeded = match column[c] {
            Slot::Single(d) => {
                let e = seed_entry(data, rules, c, d);
                note_room(&mut used, e);
                Slot::Single(e)
            },
            Slot::Double { first, second, before, after } => {
                let e1 = seed_entry(data, rules, c, first);
                let e2 = seed_entry(data, rules, c, second);
                note_room(&mut used, e1);
                note_room(&mut used, e2);
                Slot::Double { first: e1, second: e2, before, after }
            },
        };
        column[c] = seeded;
        proof {
            lemma_column_rooms_prefix(previous, column@, c as int);
            assert(used@ =~= column_rooms(column@, c as int) + seeded.rooms());
        }
        c += 1;
    }
    let ghost seeded = column@;
    assert(seeded =~= seeded_column(rules@, data@, old(column)@));
    let ghost start = Period { column: seeded, used: used@ };
    let mut k: usize = 0;
    while k < rules.room_kinds.len()
        invariant
            k <= rules.room_kinds.len(),
            n == column.len(),
            n == seeded.len(),
            start == (Period { column: seeded, used: column_rooms(seeded, seeded.len() as int) }),
            cells_without_rooms(column@) == cells_without_rooms(seeded),
            forall|j: int|
                0 <= j < n ==> (#[trigger] seeded[j]).refers_within(
                    data@.teachers.len(),
                    data@.subjects.len(),
                ),
            (Period { column: column@, used: used@ }) == serve_kinds(
                data@,
                rules@.room_kinds,
                start,
                k as int,
            ),
        decreases rules.room_kinds.len() - k,
    {
        let kind = &rules.room_kinds[k];
        let ghost before = Period { column: column@, used: used@ };
        assert(rules@.room_kinds[k as int] == kind@);
        let mut c: usize = 0;
        while c < n
            invariant
                c <= n,
                n == column.len(),
                n == seeded.len(),
                n == before.column.len(),
                cells_without_rooms(column@) == cells_without_rooms(seeded),
                forall|j: int|
                    0 <= j < n ==> (#[trigger] seeded[j]).refers_within(
                        data@.teachers.len(),
                        data@.subjects.len(),
                    ),
                (Period { column: column@, used: used@ }) == serve_kind(data@, kind@, before, c as int),
            decreases n - c,
        {
            let ghost now = Period { column: column@, used: used@ };
            proof {
                assert(cells_without_rooms(column@)[c as int] == cells_without_rooms(seeded)[c as int]);
                assert(seeded[c as int].refers_within(data@.teachers.len(), data@.subjects.len()));
            }
            let served = match column[c] {
                Slot::Single(d) => Slot::Single(house(data, kind, &mut used, d)),
                Slot::Double { first, second, before, after } => {
                    let e1 = house(data, kind, &mut used, first);
                    let e2 = house(data, kind, &mut used, second);
                    Slot::Double { first: e1, second: e2, before, after }
                },
            };
            column[c] = served;
            proof {
                assert((Period { column: column@, used: used@ }) == serve_cell(data@, kind@, now, c as int));
                lemma_serve_cell_keeps_lessons(data@, kind@, now, c as int);
            }
            c += 1;
        }
        k += 1;
    }
}

/// The rooms of a prefix of a column do not depend on the cells behind it.
proof fn lemma_column_rooms_prefix(a: Seq<Slot>, b: Seq<Slot>, n: int)
    requires
        n <= a.len(),
        n <= b.len(),
        forall|j: int| 0 <= j < n ==> a[j] == b[j],
    ensures
        column_rooms(a, n) == column_rooms(b, n),
    decreases n,
{
    if n > 0 {
        lemma_column_rooms_prefix(a, b, n - 1);
    }
}

/// What the cells of a grid hold besides rooms is what the reference data, the shape of
/// the week, block integrity and slot legality speak of.
pub proof fn lemma_same_lessons(
    a: Seq<Seq<Slot>>,
    b: Seq<Seq<Slot>>,
    data: ProblemView,
    periods: int,
    shift: Shift,
)
    requires
        grid_without_rooms(a) == grid_without_rooms(b),
    ensures
        grid_wf(a, data, periods) ==> grid_wf(b, data, periods),
        grid_legal(a, data.relations, shift) ==> grid_legal(b, data.relations, shift),
{
    assert(a.len() == grid_without_rooms(a).len());
    assert(b.len() == grid_without_rooms(b).len());
    assert forall|c: int| 0 <= c < a.len() implies (#[trigger] a[c]).len() == b[c].len() && (forall|
        p: int,
    |
        0 <= p < a[c].len() ==> (#[trigger] a[c][p]).without_rooms() == b[c][p].without_rooms()) by {
        assert(grid_without_rooms(a)[c] == cells_without_rooms(a[c]));
        assert(grid_without_rooms(b)[c] == cells_without_rooms(b[c]));
        assert(cells_without_rooms(a[c]).len() == a[c].len());
        assert(cells_without_rooms(b[c]).len() == b[c].len());
        assert forall|p: int| 0 <= p < a[c].len() implies (#[trigger] a[c][p]).without_rooms()
            == b[c][p].without_rooms() by {
            assert(cells_without_rooms(a[c])[p] == a[c][p].without_rooms());
            assert(cells_without_rooms(b[c])[p] == b[c][p].without_rooms());
        }
    }
    if grid_wf(a, data, periods) {
        assert forall|c: int| 0 <= c < b.len() implies (#[trigger] b[c]).len() == periods by {
            assert(a[c].len() == b[c].len());
        }
        assert forall|c: int, p: int| 0 <= c < b.len() && 0 <= p < b[c].len() implies (
        #[trigger] b[c][p]).refers_within(data.teachers.len(), data.subjects.len()) by {
            assert(a[c][p].without_rooms() == b[c][p].without_rooms());
            assert(a[c][p].refers_within(data.teachers.len(), data.subjects.len()));
        }
        assert forall|c: int| 0 <= c < b.len() implies blocks_intact(#[trigger] b[c]) by {
            assert(blocks_intact(a[c]));
            assert forall|i: int, j: int|
                0 <= i < b[c].len() && b[c][i] is Double && i - b[c][i]->before <= j <= i
                    + b[c][i]->after implies 0 <= j < b[c].len() && b[c][j] is Double && j
                - b[c][j]->before == i - b[c][i]->before && j + b[c][j]->after == i
                + b[c][i]->after by {
                assert(a[c][i].without_rooms() == b[c][i].without_rooms());
                assert(a[c][i] is Double);
                assert(0 <= j < a[c].len() && a[c][j] is Double);
                assert(a[c][j].without_rooms() == b[c][j].without_rooms());
            }
        }
    }
    if grid_legal(a, data.relations, shift) {
        assert forall|c: int| 0 <= c < b.len() implies row_legal(
            #[trigger] b[c],
            data.relations,
            shift,
            c,
        ) by {
            assert(row_legal(a[c], data.relations, shift, c));
            assert forall|p: int| 0 <= p < b[c].len() implies (#[trigger] b[c][p]).backed_by(
                data.relations,
                shift,
                c,
            ) by {
                assert(a[c][p].without_rooms() == b[c][p].without_rooms());
                assert(a[c][p].backed_by(data.relations, shift, c));
            }
        }
    }
}

/// The room pass never moves a lesson nor changes who teaches what: without its rooms,
/// the grid is as it was.
pub proof fn lemma_rooms_assigned_keeps_lessons(
    data: ProblemView,
    rules: RulesView,
    grid: Seq<Seq<Slot>>,
    periods: int,
)
    requires
        forall|c: int| 0 <= c < grid.len() ==> (#[trigger] grid[c]).len() == periods,
    ensures
        grid_without_rooms(rooms_assigned(data, rules, grid, periods)) == grid_without_rooms(grid),
{
    let done = rooms_assigned(data, rules, grid, periods);
    assert forall|c: int| 0 <= c < grid.len() implies cells_without_rooms(done[c])
        == cells_without_rooms(grid[c]) by {
        assert forall|p: int| 0 <= p < periods implies (#[trigger] done[c][p]).without_rooms()
            == grid[c][p].without_rooms() by {
            let col = column_at(grid, p);
            lemma_filled_column_keeps_lessons(data, rules, col);
            assert(cells_without_rooms(filled_column(data, rules, col))[c] == cells_without_rooms(
                col,
            )[c]);
        }
        assert(cells_without_rooms(done[c]) =~= cells_without_rooms(grid[c]));
    }
    assert(grid_without_rooms(done) =~= grid_without_rooms(grid));
}

/// Gives every lesson of a table its room.
fn fill_table(data: &TimetableData, rules: &Rules, table: &mut Vec<ClassSlots>, periods: usize)
    requires
        grid_wf(grid_of(old(table)@), data@, periods as int),
    ensures
        final(table).len() == old(table).len(),
        forall|c: int|
            0 <= c < old(table).len() ==> (#[trigger] final(table)@[c]).class_index == old(
                table,
            )@[c].class_index,
        grid_of(final(table)@) == rooms_assigned(
            data@,
            rules@,
            grid_of(old(table)@),
            periods as int,
        ),
{
    let n = table.len();
    let ghost start = grid_of(table@);
    proof {
        assert forall|c: int| 0 <= c < n implies (#[trigger] table@[c])@.len() == periods by {
            assert(start[c].len() == periods);
        }
    }
    let mut p: usize = 0;
    while p < periods
        invariant
            p <= periods,
            n == table.len(),
            n == old(table).len(),
            start == grid_of(old(table)@),
            grid_wf(start, data@, periods as int),
            forall|c: int| 0 <= c < n ==> (#[trigger] table@[c])@.len() == periods,
            forall|c: int|
                0 <= c < n ==> (#[trigger] table@[c]).class_index == old(table)@[c].class_index,
            forall|c: int, q: int|
                0 <= c < n && 0 <= q < p ==> #[trigger] table@[c]@[q] == filled_column(
                    data@,
                    rules@,
                    column_at(start, q),
                )[c],
            forall|c: int, q: int|
                0 <= c < n && p <= q < periods ==> #[trigger] table@[c]@[q] == start[c][q],
        decreases periods - p,
    {
        let mut column: Vec<Slot> = Vec::new();
        let mut c: usize = 0;
        while c < n
            invariant
                c <= n,
                p < periods,
                n == table.len(),
                column.len() == c,
                forall|j: int| 0 <= j < n ==> (#[trigger] table@[j])@.len() == periods,
                forall|j: int| 0 <= j < c ==> column@[j] == table@[j]@[p as int],
            decreases n - c,
        {
            column.push(table[c].slots[p]);
            c += 1;
        }
        proof {
            assert(column@ =~= column_at(start, p as int)) by {
                assert forall|j: int| 0 <= j < n implies column@[j] == column_at(start, p as int)[j] by {
                    assert(table@[j]@[p as int] == start[j][p as int]);
                }
            }
            assert forall|j: int| 0 <= j < column.len() implies (#[trigger] column@[j]).refers_within(
                data@.teachers.len(),
                data@.subjects.len(),
            ) by {
                assert(start[j][p as int].refers_within(data@.teachers.len(), data@.subjects.len()));
            }
            lemma_filled_column_keeps_lessons(data@, rules@, column@);
        }
        fill_column(data, rules, &mut column);
        let ghost filled = column@;
        let ghost mid = table@;
        c = 0;
        while c < n
            invariant
                c <= n,
                p < periods,
                n == table.len(),
                n == mid.len(),
                column.len() == n,
                column@ == filled,
                forall|j: int| 0 <= j < n ==> (#[trigger] table@[j])@.len() == periods,
                forall|j: int| 0 <= j < n ==> (#[trigger] table@[j]).class_index == mid[j].class_index,
                forall|j: int| 0 <= j < c ==> (#[trigger] table@[j])@ == mid[j]@.update(
                    p as int,
                    filled[j],
                ),
                forall|j: int| c <= j < n ==> (#[trigger] table@[j])@ == mid[j]@,
            decreases n - c,
        {
            table[c].slots[p] = column[c];
            c += 1;
        }
        p += 1;
    }
    proof {
        let done = rooms_assigned(data@, rules@, start, periods as int);
        assert forall|c: int| 0 <= c < n implies grid_of(table@)[c] == done[c] by {
            assert(grid_of(table@)[c] =~= done[c]);
        }
        assert(grid_of(table@) =~= done);
    }
}

impl Timetable {
    /// Gives every lesson of `shift` its room. The rooms that the lessons had are
    /// dropped first, so the outcome depends on who teaches what and when, and on
    /// nothing else. A room that the pass gives is of the lesson's kind, and no other
    /// lesson of the period is in it; a lesson stays without a room only where its kind
    /// is not served or every room of its kind is taken. The table of the other shift
    /// is left as it is.
    pub fn fill_rooms(&mut self, shift: Shift, rules: &Rules)
        requires
            old(self).shift_wf(shift),
        ensures
            final(self).shift_wf(shift),
            final(self).spec_table(shift.other()) == old(self).spec_table(shift.other()),
            old(self).wf() ==> final(self).wf(),
            final(self)@ == old(self)@.with_grid(
                shift,
                rooms_assigned(
                    old(self)@.data,
                    rules@,
                    old(self)@.grid(shift),
                    old(self)@.periods(),
                ),
            ),
            grid_without_rooms(final(self)@.grid(shift)) == grid_without_rooms(old(self)@.grid(shift)),
            grid_housed(
                old(self)@.data,
                rules@,
                old(self)@.grid(shift),
                final(self)@.grid(shift),
                old(self)@.periods(),
            ),
            grid_legal(old(self)@.grid(shift), old(self)@.data.relations, shift) ==> grid_legal(
                final(self)@.grid(shift),
                old(self)@.data.relations,
                shift,
            ),
    {
        let periods: usize = 5 * (self.max_periods_per_day as usize);
        let rooms = self.data.rooms.len();
        proof {
            assert(self@.data.rooms.len() == rooms);
            lemma_rooms_assigned_housed(self@.data, rules@, self@.grid(shift), periods as int);
            lemma_rooms_assigned_keeps_lessons(
                self@.data,
                rules@,
                self@.grid(shift),
                periods as int,
            );
            lemma_same_lessons(
                rooms_assigned(self@.data, rules@, self@.grid(shift), periods as int),
                self@.grid(shift),
                self@.data,
                periods as int,
                shift,
            );
            lemma_same_lessons(
                self@.grid(shift),
                rooms_assigned(self@.data, rules@, self@.grid(shift), periods as int),
                self@.data,
                periods as int,
                shift,
            );
        }
        match shift {
            Shift::First => fill_table(&self.data, rules, &mut self.table1, periods),
            Shift::Second => fill_table(&self.data, rules, &mut self.table2, periods),
        }
    }
}


/// How many lessons of a cell have no room.
pub open spec fn cell_unhoused(slot: Slot) -> int {
    match slot {
        Slot::Single(d) => one_if(d.occupied() && d.rooms().len() == 0),
        Slot::Double { first, second, .. } => one_if(first.occupied() && first.rooms().len() == 0)
            + one_if(second.occupied() && second.rooms().len() == 0),
    }
}

/// For each period, the lessons of a row that have no room.
pub open spec fn row_unhoused(row: Seq<Slot>) -> spec_fn(int) -> int {
    |p: int| cell_unhoused(row[p])
}

/// For each class, the lessons of its row that have no room.
pub open spec fn grid_unhoused(grid: Seq<Seq<Slot>>, periods: int) -> spec_fn(int) -> int {
    |c: int| sum(periods, row_unhoused(grid[c]))
}

/// The lessons of a grid that have no room.
pub open spec fn lessons_unhoused(grid: Seq<Seq<Slot>>, periods: int) -> int {
    sum(grid.len() as int, grid_unhoused(grid, periods))
}

fn is_unhoused(d: SlotData) -> (r: bool)
    ensures
        r == (d.occupied() && d.rooms().len() == 0),
{
    match d {
        SlotData::PartiallyFilled { room: None, .. } => true,
        _ => false,
    }
}

impl Timetable {
    /// How many lessons of `shift` have no room: after the room pass, those for which
    /// none was left.
    pub fn rooms_missing(&self, shift: Shift) -> (count: i32)
        requires
            self.shift_wf(shift),
        ensures
            count == lessons_unhoused(self@.grid(shift), self@.periods()),
            0 <= count <= MAX_COST,
    {
        let periods: usize = 5 * (self.max_periods_per_day as usize);
        let table = self.table(shift);
        let ghost grid = grid_of(table@);
        let ghost f = grid_unhoused(grid, periods as int);
        let mut count: i32 = 0;
        let mut c: usize = 0;
        while c < table.len()
            invariant
                c <= table.len(),
                grid == grid_of(table@),
                countable(grid, periods as int),
                f == grid_unhoused(grid, periods as int),
                count == sum(c as int, f),
                0 <= count <= c * 1_000,
            decreases table.len() - c,
        {
            let row = &table[c].slots;
            assert(row@ == grid[c as int]);
            assert(grid[c as int].len() == periods);
            let ghost g = row_unhoused(row@);
            let mut here: i32 = 0;
            let mut p: usize = 0;
            while p < periods
                invariant
                    p <= periods,
                    periods <= 5 * MAX_PERIODS_PER_DAY,
                    row.len() == periods,
                    g == row_unhoused(row@),
                    here == sum(p as int, g),
                    0 <= here <= 2 * p,
                decreases periods - p,
            {
                let extra: i32 = match row[p] {
                    Slot::Single(d) => if is_unhoused(d) {
                        1
                    } else {
                        0
                    },
                    Slot::Double { first, second, .. } => {
                        let a: i32 = if is_unhoused(first) {
                            1
                        } else {
                            0
                        };
                        let b: i32 = if is_unhoused(second) {
                            1
                        } else {
                            0
                        };
                        a + b
                    },
                };
                assert(extra == g(p as int));
                here = here + extra;
                p += 1;
            }
            assert(here == f(c as int));
            count = count + here;
            c += 1;
        }
        count
    }
}

} // verus!
