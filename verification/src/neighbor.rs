//! Local moves: a neighbour of a timetable differs from it in one class, by two single
//! cells that changed places or by a paired block that changed places with a span of
//! the same length.

use rand::Rng;
use vstd::prelude::*;

use crate::logic::{
    blocks_intact, grid_legal, grid_of, grid_wf, row_legal, Shift, Slot, Timetable, TimetableView,
};
use crate::rules::{has_kind, texts};
use crate::text::{pieces, split};

verus! {

/// Draws a number below `bound` from `rand`'s generator of the current thread
/// (`Rng::gen_range` on `0..bound`, which panics on an empty range). All that is
/// claimed of the draw is that it lies in the range.
#[verifier::external_body]
fn random_below(bound: usize) -> (r: usize)
    requires
        bound > 0,
    ensures
        r < bound,
{
    rand::thread_rng().gen_range(0..bound)
}

/// A row in which the cells `i` and `j` changed places.
pub open spec fn swap_cells(row: Seq<Slot>, i: int, j: int) -> Seq<Slot> {
    row.update(i, row[j]).update(j, row[i])
}

/// A row in which the `len` cells from `a` and the `len` cells from `b` changed places,
/// cell for cell.
pub open spec fn swap_spans(row: Seq<Slot>, a: int, b: int, len: int) -> Seq<Slot> {
    Seq::new(
        row.len(),
        |i: int|
            if a <= i < a + len {
                row[b + (i - a)]
            } else if b <= i < b + len {
                row[a + (i - b)]
            } else {
                row[i]
            },
    )
}

/// Whether the `len` cells from `from` are all single.
pub open spec fn all_single(row: Seq<Slot>, from: int, len: int) -> bool {
    forall|i: int| from <= i < from + len ==> (#[trigger] row[i]) is Single
}

/// Whether the `len` cells from `from` are one whole block.
pub open spec fn whole_block(row: Seq<Slot>, from: int, len: int) -> bool {
    &&& 0 <= from
    &&& from + len <= row.len()
    &&& forall|i: int|
        from <= i < from + len ==> (#[trigger] row[i]) is Double && row[i]->before == i - from
            && row[i]->after == from + len - 1 - i
}

/// Where a block of `len` cells may go when the cell `t` is drawn: to `t`, if `len`
/// single cells lie there within one day; to the start of the block that `t` is in, if
/// that block has `len` cells; nowhere else.
pub open spec fn landing(row: Seq<Slot>, per_day: int, len: int, t: int) -> Option<int> {
    match row[t] {
        Slot::Single(_) => if t % per_day + len <= per_day && t + len <= row.len() && all_single(
            row,
            t,
            len,
        ) {
            Some(t)
        } else {
            None
        },
        Slot::Double { before, after, .. } => if before + after + 1 == len {
            Some(t - before)
        } else {
            None
        },
    }
}

/// The row after the move that the cells `start` and `t` name. From a single cell
/// `start`, the move swaps it with `t` if that is single too. From a cell of a block,
/// it swaps the whole block with the span on which it lands. Any other pair leaves the
/// row as it is.
pub open spec fn moved_row(row: Seq<Slot>, per_day: int, start: int, t: int) -> Seq<Slot> {
    if !(0 <= start < row.len() && 0 <= t < row.len()) {
        row
    } else {
        match row[start] {
            Slot::Single(_) => if row[t] is Single {
                swap_cells(row, start, t)
            } else {
                row
            },
            Slot::Double { before, after, .. } => match landing(row, per_day, before + after + 1, t) {
                Some(to) => swap_spans(row, start - before, to, before + after + 1),
                None => row,
            },
        }
    }
}

/// Whether the cells `start` and `t` name a move: both are cells of the row, and they
/// are two single cells, or a cell of a block and a cell on which the block can land.
pub open spec fn can_move(row: Seq<Slot>, per_day: int, start: int, t: int) -> bool {
    &&& 0 <= start < row.len()
    &&& 0 <= t < row.len()
    &&& match row[start] {
        Slot::Single(_) => row[t] is Single,
        Slot::Double { before, after, .. } => landing(row, per_day, before + after + 1, t) is Some,
    }
}

/// The grid after the move `(start, t)` in the row of `class`.
pub open spec fn moved_grid(
    grid: Seq<Seq<Slot>>,
    per_day: int,
    class: int,
    start: int,
    t: int,
) -> Seq<Seq<Slot>> {
    if 0 <= class < grid.len() {
        grid.update(class, moved_row(grid[class], per_day, start, t))
    } else {
        grid
    }
}

/// Whether every cell of `b` is a cell of `a`, and the rows are equally long.
pub open spec fn rearranged(a: Seq<Slot>, b: Seq<Slot>) -> bool {
    &&& a.len() == b.len()
    &&& forall|p: int| 0 <= p < b.len() ==> a.contains(#[trigger] b[p])
}

proof fn lemma_block_around(row: Seq<Slot>, i: int)
    requires
        blocks_intact(row),
        0 <= i < row.len(),
        row[i] is Double,
    ensures
        whole_block(row, i - row[i]->before, row[i]->before + row[i]->after + 1),
{
    let from = i - row[i]->before;
    let len = row[i]->before + row[i]->after + 1;
    assert(0 <= from && row[from] is Double) by {
        assert(row[i] is Double && i - row[i]->before <= from <= i + row[i]->after);
    }
    assert(from + len <= row.len()) by {
        let last = i + row[i]->after;
        assert(row[i] is Double && i - row[i]->before <= last <= i + row[i]->after);
        assert(0 <= last < row.len() && row[last] is Double);
    }
    assert forall|j: int| from <= j < from + len implies (#[trigger] row[j]) is Double
        && row[j]->before == j - from && row[j]->after == from + len - 1 - j by {
        assert(row[i] is Double && i - row[i]->before <= j <= i + row[i]->after);
    }
}

/// Two whole blocks of one row are the same block or lie apart.
proof fn lemma_blocks_apart(row: Seq<Slot>, a: int, b: int, len: int)
    requires
        len >= 1,
        whole_block(row, a, len),
        whole_block(row, b, len),
    ensures
        a == b || a + len <= b || b + len <= a,
{
    if a < b && b < a + len {
        assert(row[b]->before == b - a);
        assert(row[b]->before == b - b);
    }
    if b < a && a < b + len {
        assert(row[a]->before == a - b);
        assert(row[a]->before == a - a);
    }
}

proof fn lemma_swap_spans_keeps_blocks(row: Seq<Slot>, a: int, b: int, len: int)
    requires
        blocks_intact(row),
        len >= 1,
        whole_block(row, a, len),
        whole_block(row, b, len) || (0 <= b && b + len <= row.len() && all_single(row, b, len)),
    ensures
        blocks_intact(swap_spans(row, a, b, len)),
        rearranged(row, swap_spans(row, a, b, len)),
{
    let after = swap_spans(row, a, b, len);
    if whole_block(row, b, len) {
        lemma_blocks_apart(row, a, b, len);
    } else {
        if a <= b && b < a + len {
            assert(row[b] is Single);
            assert(row[b] is Double);
        }
        if b < a && a < b + len {
            assert(row[a] is Single);
            assert(row[a] is Double);
        }
    }
    assert forall|p: int| 0 <= p < after.len() implies row.contains(#[trigger] after[p]) by {
        if a <= p < a + len {
            assert(row[b + (p - a)] == after[p]);
        } else if b <= p < b + len {
            assert(row[a + (p - b)] == after[p]);
        } else {
            assert(row[p] == after[p]);
        }
    }
    if a == b {
        assert(after =~= row);
    } else {
        assert forall|i: int, j: int|
            0 <= i < after.len() && after[i] is Double && i - after[i]->before <= j <= i
                + after[i]->after implies 0 <= j < after.len() && after[j] is Double && j
            - after[j]->before == i - after[i]->before && j + after[j]->after == i
            + after[i]->after by {
            if a <= i < a + len {
                // a cell that came from the span at `b`, which was then a block
                let src = b + (i - a);
                assert(after[i] == row[src]);
                assert(whole_block(row, b, len));
                assert(a <= j < a + len);
                assert(after[j] == row[b + (j - a)]);
            } else if b <= i < b + len {
                let src = a + (i - b);
                assert(after[i] == row[src]);
                assert(b <= j < b + len);
                assert(after[j] == row[a + (j - b)]);
            } else {
                assert(after[i] == row[i]);
                assert(0 <= j < row.len() && row[j] is Double && j - row[j]->before == i
                    - row[i]->before && j + row[j]->after == i + row[i]->after);
                if a <= j < a + len {
                    assert(row[j]->before == j - a);
                    assert(row[j]->after == a + len - 1 - j);
                    assert(false);
                }
                if b <= j < b + len {
                    if whole_block(row, b, len) {
                        assert(row[j]->before == j - b);
                        assert(row[j]->after == b + len - 1 - j);
                    } else {
                        assert(row[j] is Single);
                    }
                    assert(false);
                }
                assert(after[j] == row[j]);
            }
        }
    }
}

/// Block integrity and the stock of lessons survive every move: each cell of a block
/// still knows the whole block, and the cells of the row are those it had.
pub proof fn lemma_move_keeps_blocks(row: Seq<Slot>, per_day: int, start: int, t: int)
    requires
        blocks_intact(row),
    ensures
        blocks_intact(moved_row(row, per_day, start, t)),
        rearranged(row, moved_row(row, per_day, start, t)),
{
    let after = moved_row(row, per_day, start, t);
    assert forall|p: int| 0 <= p < row.len() implies row.contains(#[trigger] row[p]) by {
        assert(row[p] == row[p]);
    }
    if 0 <= start < row.len() && 0 <= t < row.len() {
        match row[start] {
            Slot::Single(_) => {
                if row[t] is Single {
                    assert forall|p: int| 0 <= p < after.len() implies row.contains(
                        #[trigger] after[p],
                    ) by {
                        if p == start {
                            assert(row[t] == after[p]);
                        } else if p == t {
                            assert(row[start] == after[p]);
                        } else {
                            assert(row[p] == after[p]);
                        }
                    }
                    assert forall|i: int, j: int|
                        0 <= i < after.len() && after[i] is Double && i - after[i]->before <= j <= i
                            + after[i]->after implies 0 <= j < after.len() && after[j] is Double
                        && j - after[j]->before == i - after[i]->before && j + after[j]->after == i
                        + after[i]->after by {
                        assert(after[i] == row[i]);
                        assert(0 <= j < row.len() && row[j] is Double && j - row[j]->before == i
                            - row[i]->before && j + row[j]->after == i + row[i]->after);
                        assert(after[j] == row[j]);
                    }
                }
            },
            Slot::Double { before, after: behind, .. } => {
                let len = before + behind + 1;
                lemma_block_around(row, start);
                match landing(row, per_day, len, t) {
                    Some(to) => {
                        if row[t] is Double {
                            lemma_block_around(row, t);
                        }
                        lemma_swap_spans_keeps_blocks(row, start - before, to, len);
                    },
                    None => {},
                }
            },
        }
    }
}

/// Swapping the same two single cells twice gives the row back.
pub proof fn lemma_single_swap_reverses(row: Seq<Slot>, per_day: int, start: int, t: int)
    requires
        0 <= start < row.len(),
        0 <= t < row.len(),
        row[start] is Single,
        row[t] is Single,
    ensures
        moved_row(moved_row(row, per_day, start, t), per_day, start, t) == row,
{
    let once = moved_row(row, per_day, start, t);
    assert(once == swap_cells(row, start, t));
    assert(once[start] is Single && once[t] is Single);
    assert(moved_row(once, per_day, start, t) =~= row);
}

/// Whether the `len` cells from `from` are all single.
fn is_single_run(row: &Vec<Slot>, from: usize, len: usize) -> (r: bool)
    requires
        from + len <= row.len(),
    ensures
        r == all_single(row@, from as int, len as int),
{
    let mut j: usize = 0;
    while j < len
        invariant
            j <= len,
            from + len <= row.len(),
            all_single(row@, from as int, j as int),
        decreases len - j,
    {
        match row[from + j] {
            Slot::Single(_) => {},
            Slot::Double { .. } => {
                return false;
            },
        }
        j += 1;
    }
    true
}

/// Where a block of `len` cells may go when the cell `t` is drawn.
fn landing_of(row: &Vec<Slot>, per_day: usize, len: usize, t: usize) -> (r: Option<usize>)
    requires
        blocks_intact(row@),
        t < row.len(),
        per_day > 0,
    ensures
        match r {
            Some(to) => landing(row@, per_day as int, len as int, t as int) == Some(to as int),
            None => landing(row@, per_day as int, len as int, t as int) is None,
        },
{
    match row[t] {
        Slot::Single(_) => {
            if len <= per_day && t % per_day <= per_day - len && len <= row.len() - t
                && is_single_run(row, t, len) {
                Some(t)
            } else {
                None
            }
        },
        Slot::Double { before, after, .. } => {
            proof {
                lemma_block_around(row@, t as int);
            }
            if (before as usize) + (after as usize) + 1 == len {
                Some(t - before as usize)
            } else {
                None
            }
        },
    }
}

/// Swaps the `len` cells from `from` with the `len` cells from `to`, one by one.
fn swap_run(row: &mut Vec<Slot>, from: usize, to: usize, len: usize)
    requires
        from + len <= old(row).len(),
        to + len <= old(row).len(),
        from + len <= to || to + len <= from,
    ensures
        final(row)@ == swap_spans(old(row)@, from as int, to as int, len as int),
{
    let mut j: usize = 0;
    while j < len
        invariant
            j <= len,
            row.len() == old(row).len(),
            from + len <= row.len(),
            to + len <= row.len(),
            from + len <= to || to + len <= from,
            row@ == swap_spans(old(row)@, from as int, to as int, j as int),
        decreases len - j,
    {
        let a = row[from + j];
        let b = row[to + j];
        row[from + j] = b;
        row[to + j] = a;
        assert(row@ =~= swap_spans(old(row)@, from as int, to as int, j + 1));
        j += 1;
    }
}

/// Makes the move that the cells `start` and `t` name.
pub(crate) fn move_row(row: &mut Vec<Slot>, per_day: usize, start: usize, t: usize)
    requires
        blocks_intact(old(row)@),
        per_day > 0 || old(row).len() == 0,
    ensures
        final(row)@ == moved_row(old(row)@, per_day as int, start as int, t as int),
        blocks_intact(final(row)@),
        rearranged(old(row)@, final(row)@),
{
    proof {
        lemma_move_keeps_blocks(row@, per_day as int, start as int, t as int);
    }
    if start >= row.len() || t >= row.len() {
        return ;
    }
    match row[start] {
        Slot::Single(_) => {
            let other = row[t];
            match other {
                Slot::Single(_) => {
                    let mine = row[start];
                    row[start] = other;
                    row[t] = mine;
                    assert(row@ =~= swap_cells(old(row)@, start as int, t as int));
                },
                Slot::Double { .. } => {},
            }
        },
        Slot::Double { before, after, .. } => {
            proof {
                lemma_block_around(row@, start as int);
            }
            let from = start - before as usize;
            let len = (before as usize) + (after as usize) + 1;
            match landing_of(row, per_day, len, t) {
                Some(to) => {
                    proof {
                        if row@[t as int] is Double {
                            lemma_block_around(row@, t as int);
                            lemma_blocks_apart(row@, from as int, to as int, len as int);
                        } else {
                            if from <= to && to < from + len {
                                assert(row@[to as int] is Single);
                            }
                            if to < from && from < to + len {
                                assert(row@[from as int] is Double);
                            }
                        }
                    }
                    if to != from {
                        swap_run(row, from, to, len);
                    } else {
                        assert(row@ =~= swap_spans(old(row)@, from as int, to as int, len as int));
                    }
                },
                None => {},
            }
        },
    }
}

/// Moves within one row leave the grid fit for the reference data.
proof fn lemma_moved_grid_wf(
    v: TimetableView,
    shift: Shift,
    class: int,
    row: Seq<Slot>,
)
    requires
        v.shift_wf(shift),
        0 <= class < v.grid(shift).len(),
        blocks_intact(row),
        rearranged(v.grid(shift)[class], row),
    ensures
        v.with_grid(shift, v.grid(shift).update(class, row)).shift_wf(shift),
        v.wf() ==> v.with_grid(shift, v.grid(shift).update(class, row)).wf(),
        grid_legal(v.grid(shift), v.data.relations, shift) ==> grid_legal(
            v.grid(shift).update(class, row),
            v.data.relations,
            shift,
        ),
{
    let old_grid = v.grid(shift);
    let new_grid = old_grid.update(class, row);
    assert(grid_wf(old_grid, v.data, v.periods()));
    assert forall|c: int, p: int| 0 <= c < new_grid.len() && 0 <= p < new_grid[c].len() implies (
    #[trigger] new_grid[c][p]).refers_within(v.data.teachers.len(), v.data.subjects.len()) by {
        if c == class {
            let q = choose|q: int| 0 <= q < old_grid[class].len() && old_grid[class][q] == row[p];
            assert(old_grid[class][q].refers_within(v.data.teachers.len(), v.data.subjects.len()));
        } else {
            assert(new_grid[c] == old_grid[c]);
            assert(old_grid[c][p].refers_within(v.data.teachers.len(), v.data.subjects.len()));
        }
    }
    assert forall|c: int| 0 <= c < new_grid.len() implies blocks_intact(#[trigger] new_grid[c]) by {
        if c != class {
            assert(new_grid[c] == old_grid[c]);
        }
    }
    assert forall|c: int| 0 <= c < new_grid.len() implies (#[trigger] new_grid[c]).len()
        == v.periods() by {
        assert(old_grid[c].len() == v.periods());
    }
    assert(grid_wf(new_grid, v.data, v.periods()));
    if grid_legal(old_grid, v.data.relations, shift) {
        assert forall|c: int| 0 <= c < new_grid.len() implies row_legal(
            #[trigger] new_grid[c],
            v.data.relations,
            shift,
            c,
        ) by {
            assert(row_legal(old_grid[c], v.data.relations, shift, c));
            if c == class {
                assert forall|p: int| 0 <= p < row.len() implies (#[trigger] row[p]).backed_by(
                    v.data.relations,
                    shift,
                    c,
                ) by {
                    let q = choose|q: int|
                        0 <= q < old_grid[class].len() && old_grid[class][q] == row[p];
                    assert(old_grid[class][q].backed_by(v.data.relations, shift, c));
                }
            }
        }
    }
}

impl TimetableView {
    /// The timetable after the move `(start, t)` in the row of `class` in `shift`.
    pub open spec fn moved(self, shift: Shift, class: int, start: int, t: int) -> TimetableView {
        self.with_grid(
            shift,
            moved_grid(self.grid(shift), self.max_periods_per_day as int, class, start, t),
        )
    }

    /// Whether the row of `class` in `shift` may move: it has cells, and the class is
    /// not among `pinned`.
    pub open spec fn movable(self, shift: Shift, pinned: Seq<Seq<char>>, class: int) -> bool {
        0 <= class < self.grid(shift).len() && self.grid(shift)[class].len() > 0
            && !pinned.contains(self.data.classes[class])
    }

    /// Whether `other` is a neighbour of this timetable in `shift`: this timetable
    /// after a move in a row that may move, from a cell of that row to a cell on which
    /// the move can land. Where no row may move, the only neighbour is the timetable
    /// itself.
    pub open spec fn neighbor(
        self,
        other: TimetableView,
        shift: Shift,
        pinned: Seq<Seq<char>>,
    ) -> bool {
        if exists|class: int| self.movable(shift, pinned, class) {
            exists|class: int, start: int, t: int|
                self.movable(shift, pinned, class) && can_move(
                    self.grid(shift)[class],
                    self.max_periods_per_day as int,
                    start,
                    t,
                ) && other == #[trigger] self.moved(shift, class, start, t)
        } else {
            other == self
        }
    }
}

/// Every neighbour of a timetable that is well-formed in the shift of the move is
/// well-formed in it too: its blocks are whole, each cell of a block knowing the block's
/// length and its own place in it. The other shift is as it was, so a neighbour of a
/// well-formed timetable is well-formed. And where all lessons were asked for by a
/// requirement of their class, they still are.
pub proof fn lemma_neighbor_well_formed(
    v: TimetableView,
    other: TimetableView,
    shift: Shift,
    pinned: Seq<Seq<char>>,
)
    requires
        v.shift_wf(shift),
        v.neighbor(other, shift, pinned),
    ensures
        other.shift_wf(shift),
        v.wf() ==> other.wf(),
        grid_legal(v.grid(shift), v.data.relations, shift) ==> grid_legal(
            other.grid(shift),
            other.data.relations,
            shift,
        ),
{
    if other != v {
        let (class, start, t) = choose|class: int, start: int, t: int|
            v.movable(shift, pinned, class) && can_move(
                v.grid(shift)[class],
                v.max_periods_per_day as int,
                start,
                t,
            ) && other == #[trigger] v.moved(shift, class, start, t);
        let row = v.grid(shift)[class];
        assert(grid_wf(v.grid(shift), v.data, v.periods()));
        assert(blocks_intact(row));
        lemma_move_keeps_blocks(row, v.max_periods_per_day as int, start, t);
        lemma_moved_grid_wf(
            v,
            shift,
            class,
            moved_row(row, v.max_periods_per_day as int, start, t),
        );
    }
}

impl Timetable {
    /// The timetable after the move that `start_index` and `target_index` name in the
    /// row of `class_index`; see [`moved_row`]. An index out of range names no move.
    pub fn neighbor_by(
        &self,
        shift: Shift,
        class_index: usize,
        start_index: usize,
        target_index: usize,
    ) -> (r: Self)
        requires
            self.shift_wf(shift),
        ensures
            r.shift_wf(shift),
            self.wf() ==> r.wf(),
            r@ == self@.moved(shift, class_index as int, start_index as int, target_index as int),
            grid_legal(self@.grid(shift), self@.data.relations, shift) ==> grid_legal(
                r@.grid(shift),
                r@.data.relations,
                shift,
            ),
    {
        let mut r = self.clone();
        let per_day = self.max_periods_per_day as usize;
        let ghost grid = self@.grid(shift);
        proof {
            if class_index < grid.len() {
                assert(blocks_intact(grid[class_index as int]));
                assert(grid[class_index as int].len() == 5 * per_day);
                lemma_move_keeps_blocks(
                    grid[class_index as int],
                    per_day as int,
                    start_index as int,
                    target_index as int,
                );
                lemma_moved_grid_wf(
                    self@,
                    shift,
                    class_index as int,
                    moved_row(
                        grid[class_index as int],
                        per_day as int,
                        start_index as int,
                        target_index as int,
                    ),
                );
            }
        }
        match shift {
            Shift::First => {
                if class_index < r.table1.len() {
                    assert(r.table1@[class_index as int]@ == grid[class_index as int]);
                    let ghost before = r.table1@;
                    move_row(&mut r.table1[class_index].slots, per_day, start_index, target_index);
                    assert(grid_of(r.table1@) =~= grid_of(before).update(
                        class_index as int,
                        r.table1@[class_index as int]@,
                    ));
                }
            },
            Shift::Second => {
                if class_index < r.table2.len() {
                    assert(r.table2@[class_index as int]@ == grid[class_index as int]);
                    let ghost before = r.table2@;
                    move_row(&mut r.table2[class_index].slots, per_day, start_index, target_index);
                    assert(grid_of(r.table2@) =~= grid_of(before).update(
                        class_index as int,
                        r.table2@[class_index as int]@,
                    ));
                }
            },
        }
        r
    }

    /// A neighbour of this timetable: one move in a class of `shift` drawn at random
    /// among those whose name is not in `static_classes`, a list parted by commas. The
    /// cell to move is drawn among the cells of that class, and its partner among the
    /// cells on which the move can land; the cell itself is always one of them, so the
    /// draw ends. Where no class can move, the timetable comes back as it is.
    pub fn generate_neighbor(&self, shift: Shift, static_classes: &String) -> (r: Self)
        requires
            self.shift_wf(shift),
        ensures
            r.shift_wf(shift),
            self.wf() ==> r.wf(),
            self@.neighbor(r@, shift, pieces(static_classes@, ',')),
            grid_legal(self@.grid(shift), self@.data.relations, shift) ==> grid_legal(
                r@.grid(shift),
                r@.data.relations,
                shift,
            ),
    {
        let pinned = split(static_classes.as_str(), ',');
        let table = self.table(shift);
        let per_day = self.max_periods_per_day as usize;
        let ghost grid = self@.grid(shift);
        assert(grid == grid_of(table@));
        let mut free: Vec<usize> = Vec::new();
        let mut c: usize = 0;
        while c < table.len()
            invariant
                c <= table.len(),
                table.len() <= self.data.classes.len(),
                grid == grid_of(table@),
                grid == self@.grid(shift),
                texts(pinned@) == pieces(static_classes@, ','),
                forall|k: int|
                    0 <= k < free.len() ==> self@.movable(
                        shift,
                        pieces(static_classes@, ','),
                        #[trigger] free@[k] as int,
                    ),
                forall|k: int|
                    0 <= k < c && self@.movable(shift, pieces(static_classes@, ','), k)
                        ==> free.len() > 0,
            decreases table.len() - c,
        {
            assert(table@[c as int]@ == grid[c as int]);
            assert(self@.data.classes[c as int] == self.data.classes@[c as int].name@);
            if !has_kind(&pinned, &self.data.classes[c].name) && table[c].slots.len() > 0 {
                free.push(c);
            }
            c += 1;
        }
        if free.len() == 0 {
            return self.clone();
        }
        let class = free[random_below(free.len())];
        assert(self@.movable(shift, pieces(static_classes@, ','), class as int));
        let row = &table[class].slots;
        assert(row@ == grid[class as int]);
        assert(blocks_intact(row@));
        let start = random_below(row.len());
        let mut targets: Vec<usize> = Vec::new();
        let mut t: usize = 0;
        match row[start] {
            Slot::Single(_) => {
                while t < row.len()
                    invariant
                        t <= row.len(),
                        start < row.len(),
                        row@[start as int] is Single,
                        t > start ==> targets.len() > 0,
                        forall|k: int|
                            0 <= k < targets.len() ==> can_move(
                                row@,
                                per_day as int,
                                start as int,
                                #[trigger] targets@[k] as int,
                            ),
                    decreases row.len() - t,
                {
                    match row[t] {
                        Slot::Single(_) => {
                            targets.push(t);
                        },
                        Slot::Double { .. } => {},
                    }
                    t += 1;
                }
            },
            Slot::Double { before, after, .. } => {
                proof {
                    lemma_block_around(row@, start as int);
                }
                let len = (before as usize) + (after as usize) + 1;
                while t < row.len()
                    invariant
                        t <= row.len(),
                        start < row.len(),
                        per_day > 0,
                        blocks_intact(row@),
                        row@[start as int] == (Slot::Double {
                            first: row@[start as int]->first,
                            second: row@[start as int]->second,
                            before,
                            after,
                        }),
                        len == before + after + 1,
                        t > start ==> targets.len() > 0,
                        forall|k: int|
                            0 <= k < targets.len() ==> can_move(
                                row@,
                                per_day as int,
                                start as int,
                                #[trigger] targets@[k] as int,
                            ),
                    decreases row.len() - t,
                {
                    if landing_of(row, per_day, len, t).is_some() {
                        targets.push(t);
                    }
                    t += 1;
                }
            },
        }
        let target = targets[random_below(targets.len())];
        assert(can_move(row@, per_day as int, start as int, target as int));
        let r = self.neighbor_by(shift, class, start, target);
        assert(r@ == self@.moved(shift, class as int, start as int, target as int));
        r
    }
}

} // verus!
