//! The decisions of simulated annealing. The search keeps one chain per shift. In every
//! round each chain is offered a neighbour; a neighbour that costs no more is taken, a
//! worse one only if the caller's draw against the temperature says so. Both chains
//! are weighed under all rules at once, hard and soft, each with its weight: there is
//! one phase, and a search for the hard rules alone is one with soft weights of 0.
//! The best timetable that the two chains formed together is kept aside.
//!
//! Temperature, cooling and the signal to stop are the caller's: this module draws no
//! chances but those of the neighbour moves.

use vstd::prelude::*;

use crate::bounds::lemma_costless_is_feasible;
use crate::cost::{shift_overlap, teacher_shifts};
use crate::logic::{Shift, Timetable, TimetableView};
use crate::points::{hard_total, soft_total, weighted};
use crate::rules::{Rules, RulesView};
use crate::text::pieces;

verus! {

/// The weights of a search: of the hard and of the soft rules in either shift, and of
/// the teachers who work both shifts of a day.
#[derive(Clone, Copy, Debug, PartialEq, Eq, Structural)]
pub struct Weights {
    pub hard_1: i32,
    pub soft_1: i32,
    pub hard_2: i32,
    pub soft_2: i32,
    pub overlap: i32,
}

impl Weights {
    /// The weight of the hard rules in `shift`.
    pub open spec fn hard(self, shift: Shift) -> i32 {
        match shift {
            Shift::First => self.hard_1,
            Shift::Second => self.hard_2,
        }
    }

    /// The weight of the soft rules in `shift`.
    pub open spec fn soft(self, shift: Shift) -> i32 {
        match shift {
            Shift::First => self.soft_1,
            Shift::Second => self.soft_2,
        }
    }
}

/// What the table of `shift` costs on its own.
pub open spec fn chain_cost(v: TimetableView, shift: Shift, rules: RulesView, w: Weights) -> int {
    w.hard(shift) * hard_total(v, shift, rules) + w.soft(shift) * soft_total(v, shift, rules)
}

/// What the two tables cost together: the teachers who work both shifts of a day,
/// times their weight.
pub open spec fn overlap_cost(v: TimetableView, w: Weights) -> int {
    w.overlap * shift_overlap(
        v.first,
        v.second,
        v.max_periods_per_day as int,
        v.data.teachers.len() as int,
    )
}

/// What a timetable costs.
pub open spec fn total_cost(v: TimetableView, rules: RulesView, w: Weights) -> int {
    chain_cost(v, Shift::First, rules, w) + chain_cost(v, Shift::Second, rules, w) + overlap_cost(v, w)
}

/// The timetable with the first table of `first` and the second table of `second`.
pub open spec fn joined(first: TimetableView, second: TimetableView) -> TimetableView {
    first.with_grid(Shift::Second, second.second)
}

/// The range in which the cost of a chain lies, whatever the weights.
pub open spec fn chain_range(points: i64) -> bool {
    -600_000_000_000_000_000 <= points <= 600_000_000_000_000_000
}

/// What the table of `shift` costs on its own.
pub fn chain_points(timetable: &Timetable, shift: Shift, rules: &Rules, w: Weights) -> (points: i64)
    requires
        timetable.shift_wf(shift),
        rules@.wf(),
    ensures
        points == chain_cost(timetable@, shift, rules@, w),
        chain_range(points),
{
    let (hard, soft) = match shift {
        Shift::First => (w.hard_1, w.soft_1),
        Shift::Second => (w.hard_2, w.soft_2),
    };
    timetable.hard_points(shift, hard, rules) + timetable.soft_points(shift, soft, rules)
}

/// What the first table of `first` and the second table of `second` cost together.
pub fn overlap_points(first: &Timetable, second: &Timetable, w: Weights) -> (points: i64)
    requires
        first.shift_wf(Shift::First),
        second.shift_wf(Shift::Second),
        first@.data == second@.data,
        first@.max_periods_per_day == second@.max_periods_per_day,
    ensures
        points == overlap_cost(joined(first@, second@), w),
        chain_range(points),
{
    weighted(
        w.overlap,
        teacher_shifts(&first.table1, &second.table2, first.max_periods_per_day, &first.data),
    )
}

/// What a timetable costs.
pub fn total_points(timetable: &Timetable, rules: &Rules, w: Weights) -> (points: i64)
    requires
        timetable.wf(),
        rules@.wf(),
    ensures
        points == total_cost(timetable@, rules@, w),
{
    assert(joined(timetable@, timetable@) == timetable@);
    chain_points(timetable, Shift::First, rules, w) + chain_points(
        timetable,
        Shift::Second,
        rules,
        w,
    ) + overlap_points(timetable, timetable, w)
}

/// Whether a chain takes a neighbour that changes its cost by `delta`: always if it
/// costs no more, and if it costs more, when the caller's draw was lucky.
pub fn accepts(delta: i64, lucky: bool) -> (taken: bool)
    ensures
        taken == (delta <= 0 || lucky),
{
    delta <= 0 || lucky
}

/// What a round offers: a neighbour for each chain, and what each costs alone and both
/// cost together.
#[derive(Debug)]
pub struct Proposal {
    pub first: Timetable,
    pub second: Timetable,
    pub cost_first: i64,
    pub cost_second: i64,
    pub cost_overlap: i64,
    pub delta_first: i64,
    pub delta_second: i64,
}

/// What a round did.
#[derive(Clone, Copy, Debug, PartialEq, Eq, Structural)]
pub struct Outcome {
    pub took_first: bool,
    pub took_second: bool,
    /// The cost of the current timetable after the round.
    pub cost: i64,
    /// Whether the round found a timetable better than all before.
    pub improved: bool,
}

/// The state of a search.
#[derive(Debug)]
pub struct Search {
    pub rules: Rules,
    pub weights: Weights,
    /// The current tables of the two chains.
    pub current: Timetable,
    pub cost_first: i64,
    pub cost_second: i64,
    pub cost_overlap: i64,
    /// The cheapest timetable seen, and its cost.
    pub best: Timetable,
    pub best_cost: i64,
}

impl Proposal {
    /// Whether the proposal is one for a search in the state `current`: each of its
    /// timetables is well-formed in its own shift and is of the same school and shape
    /// of day as the current one, and its numbers are their costs; the deltas compare
    /// each neighbour, together with the other, to the current state of its chain.
    pub open spec fn fits(&self, search: &Search) -> bool {
        let rules = search.rules@;
        let w = search.weights;
        &&& self.first.shift_wf(Shift::First)
        &&& self.second.shift_wf(Shift::Second)
        &&& self.first@.data == search.current@.data
        &&& self.second@.data == search.current@.data
        &&& self.first@.max_periods_per_day == search.current@.max_periods_per_day
        &&& self.second@.max_periods_per_day == search.current@.max_periods_per_day
        &&& self.cost_first == chain_cost(self.first@, Shift::First, rules, w)
        &&& self.cost_second == chain_cost(self.second@, Shift::Second, rules, w)
        &&& self.cost_overlap == overlap_cost(joined(self.first@, self.second@), w)
        &&& chain_range(self.cost_first)
        &&& chain_range(self.cost_second)
        &&& chain_range(self.cost_overlap)
        &&& self.delta_first == self.cost_first + self.cost_overlap - search.cost_first
            - search.cost_overlap
        &&& self.delta_second == self.cost_second + self.cost_overlap - search.cost_second
            - search.cost_overlap
    }
}

impl Search {
    /// Well-formedness: the timetables are well-formed, the costs are those of the
    /// current timetable, and the best timetable is the cheapest so far: it costs what
    /// is recorded, and no more than the current one.
    pub open spec fn wf(&self) -> bool {
        &&& self.current.wf()
        &&& self.best.wf()
        &&& self.rules@.wf()
        &&& self.cost_first == chain_cost(self.current@, Shift::First, self.rules@, self.weights)
        &&& self.cost_second == chain_cost(self.current@, Shift::Second, self.rules@, self.weights)
        &&& self.cost_overlap == overlap_cost(self.current@, self.weights)
        &&& chain_range(self.cost_first)
        &&& chain_range(self.cost_second)
        &&& chain_range(self.cost_overlap)
        &&& self.best_cost == total_cost(self.best@, self.rules@, self.weights)
        &&& self.best_cost <= total_cost(self.current@, self.rules@, self.weights)
    }

    /// A search that starts from `start`.
    pub fn new(start: Timetable, rules: Rules, weights: Weights) -> (search: Search)
        requires
            start.wf(),
            rules@.wf(),
        ensures
            search.wf(),
            search.rules == rules,
            search.weights == weights,
            search.current@ == start@,
            search.best@ == start@,
            search.best_cost == total_cost(start@, rules@, weights),
    {
        let cost_first = chain_points(&start, Shift::First, &rules, weights);
        let cost_second = chain_points(&start, Shift::Second, &rules, weights);
        let cost_overlap = overlap_points(&start, &start, weights);
        assert(joined(start@, start@) == start@);
        let best = start.clone();
        Search {
            rules,
            weights,
            current: start,
            cost_first,
            cost_second,
            cost_overlap,
            best,
            best_cost: cost_first + cost_second + cost_overlap,
        }
    }

    /// The cost of the current timetable.
    pub fn cost(&self) -> (points: i64)
        requires
            self.wf(),
        ensures
            points == total_cost(self.current@, self.rules@, self.weights),
    {
        self.cost_first + self.cost_second + self.cost_overlap
    }

    /// Whether the current timetable costs nothing: the search may end. Under weights
    /// that are positive for the hard rules and not negative for the others, such a
    /// timetable breaks no hard rule: see [`lemma_costless_is_feasible`].
    pub fn converged(&self) -> (done: bool)
        requires
            self.wf(),
        ensures
            done == (total_cost(self.current@, self.rules@, self.weights) == 0),
            done && self.weights.hard_1 > 0 && self.weights.hard_2 > 0 && self.weights.soft_1 >= 0
                && self.weights.soft_2 >= 0 && self.weights.overlap >= 0 ==> hard_total(
                self.current@,
                Shift::First,
                self.rules@,
            ) == 0 && hard_total(self.current@, Shift::Second, self.rules@) == 0,
    {
        let done = self.cost() == 0;
        proof {
            let w = self.weights;
            if done && w.hard_1 > 0 && w.hard_2 > 0 && w.soft_1 >= 0 && w.soft_2 >= 0 && w.overlap
                >= 0 {
                lemma_costless_is_feasible(self.current@, self.rules@, w);
            }
        }
        done
    }

    /// Weighs a neighbour for each chain: `first` for the first shift, `second` for
    /// the second. Of `first` only the first table is read, of `second` the second.
    pub fn weigh(&self, first: Timetable, second: Timetable) -> (offer: Proposal)
        requires
            self.wf(),
            first.shift_wf(Shift::First),
            second.shift_wf(Shift::Second),
            first@.data == self.current@.data,
            second@.data == self.current@.data,
            first@.max_periods_per_day == self.current@.max_periods_per_day,
            second@.max_periods_per_day == self.current@.max_periods_per_day,
        ensures
            offer.fits(self),
            offer.first@ == first@,
            offer.second@ == second@,
    {
        let cost_first = chain_points(&first, Shift::First, &self.rules, self.weights);
        let cost_second = chain_points(&second, Shift::Second, &self.rules, self.weights);
        let cost_overlap = overlap_points(&first, &second, self.weights);
        Proposal {
            first,
            second,
            cost_first,
            cost_second,
            cost_overlap,
            delta_first: cost_first + cost_overlap - self.cost_first - self.cost_overlap,
            delta_second: cost_second + cost_overlap - self.cost_second - self.cost_overlap,
        }
    }

    /// Offers each chain a neighbour of its current table, drawn at random among the
    /// classes that `static_classes` does not name.
    pub fn propose(&self, static_classes: &String) -> (offer: Proposal)
        requires
            self.wf(),
        ensures
            offer.fits(self),
            self.current@.neighbor(offer.first@, Shift::First, pieces(static_classes@, ',')),
            self.current@.neighbor(offer.second@, Shift::Second, pieces(static_classes@, ',')),
    {
        let first = self.current.generate_neighbor(Shift::First, static_classes);
        let second = self.current.generate_neighbor(Shift::Second, static_classes);
        proof {
            lemma_neighbor_keeps_frame(
                self.current@,
                first@,
                Shift::First,
                pieces(static_classes@, ','),
            );
            lemma_neighbor_keeps_frame(
                self.current@,
                second@,
                Shift::Second,
                pieces(static_classes@, ','),
            );
        }
        self.weigh(first, second)
    }

    /// Ends a round: the first chain moves to its neighbour if `take_first`, the
    /// second if `take_second`, and the timetable they form is recorded as the best if
    /// it is cheaper than all before. The recorded best never gets more expensive.
    pub fn advance(
        &mut self,
        offer: Proposal,
        take_first: bool,
        take_second: bool,
    ) -> (outcome: Outcome)
        requires
            old(self).wf(),
            offer.fits(old(self)),
        ensures
            final(self).wf(),
            final(self).rules == old(self).rules,
            final(self).weights == old(self).weights,
            final(self).current@ == (TimetableView {
                first: if take_first {
                    offer.first@.first
                } else {
                    old(self).current@.first
                },
                second: if take_second {
                    offer.second@.second
                } else {
                    old(self).current@.second
                },
                ..old(self).current@
            }),
            outcome.took_first == take_first,
            outcome.took_second == take_second,
            outcome.cost == total_cost(final(self).current@, final(self).rules@, final(self).weights),
            outcome.improved == (outcome.cost < old(self).best_cost),
            final(self).best_cost == if outcome.improved {
                outcome.cost
            } else {
                old(self).best_cost
            },
            final(self).best@ == if outcome.improved {
                final(self).current@
            } else {
                old(self).best@
            },
            final(self).best_cost <= old(self).best_cost,
    {
        let ghost before = self.current@;
        let ghost rules = self.rules@;
        let w = self.weights;
        let Proposal { first, second, cost_first, cost_second, cost_overlap, .. } = offer;
        if take_first && take_second {
            self.current.table1 = first.table1;
            self.current.table2 = second.table2;
            self.cost_first = cost_first;
            self.cost_second = cost_second;
            self.cost_overlap = cost_overlap;
            proof {
                assert(self.current@ == joined(first@, second@));
                lemma_chain_depends(first@, self.current@, Shift::First, rules, w);
                lemma_chain_depends(second@, self.current@, Shift::Second, rules, w);
            }
        } else if take_first {
            self.cost_overlap = overlap_points(&first, &self.current, w);
            proof {
                assert(joined(first@, before) == before.with_grid(Shift::First, first@.first));
            }
            self.current.table1 = first.table1;
            self.cost_first = cost_first;
            proof {
                lemma_chain_depends(first@, self.current@, Shift::First, rules, w);
                lemma_chain_depends(before, self.current@, Shift::Second, rules, w);
            }
        } else if take_second {
            self.cost_overlap = overlap_points(&self.current, &second, w);
            self.current.table2 = second.table2;
            self.cost_second = cost_second;
            proof {
                assert(self.current@ == joined(before, second@));
                lemma_chain_depends(second@, self.current@, Shift::Second, rules, w);
                lemma_chain_depends(before, self.current@, Shift::First, rules, w);
            }
        }
        let cost = self.cost_first + self.cost_second + self.cost_overlap;
        let improved = cost < self.best_cost;
        if improved {
            self.best = self.current.clone();
            self.best_cost = cost;
        }
        Outcome { took_first: take_first, took_second: take_second, cost, improved }
    }

    /// Ends the search: the best timetable seen.
    pub fn into_best(self) -> (best: Timetable)
        ensures
            best == self.best,
    {
        self.best
    }
}

/// A neighbour is a timetable of the same school and the same shape of day.
proof fn lemma_neighbor_keeps_frame(
    v: TimetableView,
    other: TimetableView,
    shift: Shift,
    pinned: Seq<Seq<char>>,
)
    requires
        v.neighbor(other, shift, pinned),
    ensures
        other.data == v.data,
        other.max_periods_per_day == v.max_periods_per_day,
        shift == Shift::First ==> other.second == v.second,
        shift == Shift::Second ==> other.first == v.first,
{
}

/// The cost of a chain depends on its own table only, besides the reference data and
/// the shape of the day.
proof fn lemma_chain_depends(
    a: TimetableView,
    b: TimetableView,
    shift: Shift,
    rules: RulesView,
    w: Weights,
)
    requires
        a.data == b.data,
        a.max_periods_per_day == b.max_periods_per_day,
        a.grid(shift) == b.grid(shift),
    ensures
        chain_cost(a, shift, rules, w) == chain_cost(b, shift, rules, w),
{
}

} // verus!
