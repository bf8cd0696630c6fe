//! The tables that a school sets for itself: which kinds of room are served first,
//! which lessons have a room of their own, and the limits that the cost functions hold a
//! timetable to.

use vstd::prelude::*;

verus! {

/// Most entries that a list of [`Rules`] may have, of those lists that a count runs
/// over. The limit behind it is that of `i32`: a rule that counts once for each entry of
/// a list, in each class and on each day, stays under 10 000 000 with a hundred entries
/// and ten thousand classes.
pub const MAX_RULES: usize = 100;

/// A lesson with a room of its own: it applies to the lessons of `teacher` (by name;
/// of every teacher where `None`), in `class` (by name; in every class where `None`),
/// of a subject whose kind is one of `kinds` (of every kind where `kinds` is empty).
#[derive(Debug)]
pub struct RoomOverride {
    pub teacher: Option<String>,
    pub class: Option<String>,
    pub kinds: Vec<String>,
    pub room: usize,
}

/// `subject` is to be taught to a class at most `max_per_day` times a day.
#[derive(Clone, Copy, Debug, PartialEq, Eq, Structural)]
pub struct DayLimit {
    pub subject: usize,
    pub max_per_day: u32,
}

/// `teacher` is not to teach in any of `periods`, numbered through the week from 0.
#[derive(Debug)]
pub struct Blacklist {
    pub teacher: usize,
    pub periods: Vec<u32>,
}

/// `subject` is to be over before the period `not_from` of each day, numbered from 0.
#[derive(Clone, Copy, Debug, PartialEq, Eq, Structural)]
pub struct TimePreference {
    pub subject: usize,
    pub not_from: u32,
}

/// The shift in which `teacher` works on each day of the week, Monday first: 1, 2, or
/// 3 for both. A day without an entry is a day without a plan.
#[derive(Debug)]
pub struct ShiftPlan {
    pub teacher: usize,
    pub days: Vec<i32>,
}

/// How the ideal number of lessons a day is rounded.
#[derive(Clone, Copy, Debug, PartialEq, Eq, Structural)]
pub enum Rounding {
    Floor,
    Ceil,
}

/// Which days count as uneven: those with more lessons than the ideal, or those with
/// more or fewer.
#[derive(Clone, Copy, Debug, PartialEq, Eq, Structural)]
pub enum Deviation {
    Above,
    Either,
}

/// The policy of the class-spread rule.
#[derive(Clone, Copy, Debug, PartialEq, Eq, Structural)]
pub struct SpreadPolicy {
    pub rounding: Rounding,
    pub deviation: Deviation,
}

/// Everything a school configures.
#[derive(Debug)]
pub struct Rules {
    /// The kinds of room that claim rooms first under the capacity rule, in their order;
    /// the kinds of subjects that are not listed follow, in the order of the subjects.
    pub capacity_kinds: Vec<String>,
    /// The kinds of room, in the order in which the room pass serves them.
    pub room_kinds: Vec<String>,
    /// Lessons with a room of their own; where several apply, the last one counts.
    pub room_overrides: Vec<RoomOverride>,
    /// Subjects that want two periods in a row at least once a week.
    pub block_subjects: Vec<usize>,
    pub day_limits: Vec<DayLimit>,
    pub blacklists: Vec<Blacklist>,
    pub shift_plans: Vec<ShiftPlan>,
    /// Classes that want a day a week without any of `day_off_subjects`.
    pub day_off_classes: Vec<usize>,
    pub day_off_subjects: Vec<usize>,
    pub time_preferences: Vec<TimePreference>,
    /// The class-spread rule; `None` switches it off.
    pub class_spread: Option<SpreadPolicy>,
    /// From how many lessons on a teacher's day is full; `None` switches the
    /// teacher-spread rule off.
    pub teacher_day_max: Option<u32>,
    /// How many free periods a teacher may have between two lessons of a day.
    pub teacher_gap_tolerance: u32,
}

/// A rule on rooms as the room pass reads it.
pub struct RoomOverrideView {
    pub teacher: Option<Seq<char>>,
    pub class: Option<Seq<char>>,
    pub kinds: Seq<Seq<char>>,
    pub room: usize,
}

/// The barred periods of a teacher as the cost functions read them.
pub struct BlacklistView {
    pub teacher: usize,
    pub periods: Seq<u32>,
}

/// The plan of a teacher as the cost functions read it.
pub struct ShiftPlanView {
    pub teacher: usize,
    pub days: Seq<i32>,
}

/// The rules as the contracts read them: texts as sequences of characters, lists as
/// sequences.
pub struct RulesView {
    pub capacity_kinds: Seq<Seq<char>>,
    pub room_kinds: Seq<Seq<char>>,
    pub room_overrides: Seq<RoomOverrideView>,
    pub block_subjects: Seq<usize>,
    pub day_limits: Seq<DayLimit>,
    pub blacklists: Seq<BlacklistView>,
    pub shift_plans: Seq<ShiftPlanView>,
    pub day_off_classes: Seq<usize>,
    pub day_off_subjects: Seq<usize>,
    pub time_preferences: Seq<TimePreference>,
    pub class_spread: Option<SpreadPolicy>,
    pub teacher_day_max: Option<u32>,
    pub teacher_gap_tolerance: u32,
}

/// The strings of a list, as sequences of characters.
pub open spec fn texts(list: Seq<String>) -> Seq<Seq<char>> {
    Seq::new(list.len(), |i: int| list[i]@)
}

/// A name, where there is one.
pub open spec fn text_of(name: Option<String>) -> Option<Seq<char>> {
    match name {
        Some(s) => Some(s@),
        None => None,
    }
}

impl View for RoomOverride {
    type V = RoomOverrideView;

    open spec fn view(&self) -> RoomOverrideView {
        RoomOverrideView {
            teacher: text_of(self.teacher),
            class: text_of(self.class),
            kinds: texts(self.kinds@),
            room: self.room,
        }
    }
}

impl View for Blacklist {
    type V = BlacklistView;

    open spec fn view(&self) -> BlacklistView {
        BlacklistView { teacher: self.teacher, periods: self.periods@ }
    }
}

impl View for ShiftPlan {
    type V = ShiftPlanView;

    open spec fn view(&self) -> ShiftPlanView {
        ShiftPlanView { teacher: self.teacher, days: self.days@ }
    }
}

impl View for Rules {
    type V = RulesView;

    open spec fn view(&self) -> RulesView {
        RulesView {
            capacity_kinds: texts(self.capacity_kinds@),
            room_kinds: texts(self.room_kinds@),
            room_overrides: Seq::new(
                self.room_overrides@.len(),
                |i: int| self.room_overrides@[i]@,
            ),
            block_subjects: self.block_subjects@,
            day_limits: self.day_limits@,
            blacklists: Seq::new(self.blacklists@.len(), |i: int| self.blacklists@[i]@),
            shift_plans: Seq::new(self.shift_plans@.len(), |i: int| self.shift_plans@[i]@),
            day_off_classes: self.day_off_classes@,
            day_off_subjects: self.day_off_subjects@,
            time_preferences: self.time_preferences@,
            class_spread: self.class_spread,
            teacher_day_max: self.teacher_day_max,
            teacher_gap_tolerance: self.teacher_gap_tolerance,
        }
    }
}

impl RulesView {
    /// The rules of a school that has set none: no kinds, no lists, both spread rules
    /// switched off, and no free period allowed to a teacher.
    pub open spec fn none() -> RulesView {
        RulesView {
            capacity_kinds: Seq::empty(),
            room_kinds: Seq::empty(),
            room_overrides: Seq::empty(),
            block_subjects: Seq::empty(),
            day_limits: Seq::empty(),
            blacklists: Seq::empty(),
            shift_plans: Seq::empty(),
            day_off_classes: Seq::empty(),
            day_off_subjects: Seq::empty(),
            time_preferences: Seq::empty(),
            class_spread: None,
            teacher_day_max: None,
            teacher_gap_tolerance: 0,
        }
    }

    /// The lists are short enough to count over.
    pub open spec fn wf(self) -> bool {
        &&& self.capacity_kinds.len() <= MAX_RULES
        &&& self.block_subjects.len() <= MAX_RULES
        &&& self.day_limits.len() <= MAX_RULES
        &&& self.day_off_classes.len() <= MAX_RULES
        &&& self.time_preferences.len() <= MAX_RULES
    }
}

impl Rules {
    /// Whether the rules are well-formed: see [`RulesView::wf`].
    pub fn is_well_formed(&self) -> (ok: bool)
        ensures
            ok == self@.wf(),
    {
        self.capacity_kinds.len() <= MAX_RULES && self.block_subjects.len() <= MAX_RULES
            && self.day_limits.len() <= MAX_RULES && self.day_off_classes.len() <= MAX_RULES
            && self.time_preferences.len() <= MAX_RULES
    }

    /// The rules of a school that has set none.
    pub fn none() -> (rules: Rules)
        ensures
            rules@ == RulesView::none(),
            rules@.wf(),
    {
        let rules = Rules {
            capacity_kinds: Vec::new(),
            room_kinds: Vec::new(),
            room_overrides: Vec::new(),
            block_subjects: Vec::new(),
            day_limits: Vec::new(),
            blacklists: Vec::new(),
            shift_plans: Vec::new(),
            day_off_classes: Vec::new(),
            day_off_subjects: Vec::new(),
            time_preferences: Vec::new(),
            class_spread: None,
            teacher_day_max: None,
            teacher_gap_tolerance: 0,
        };
        proof {
            assert(rules@.capacity_kinds =~= Seq::empty());
            assert(rules@.room_kinds =~= Seq::empty());
            assert(rules@.room_overrides =~= Seq::empty());
            assert(rules@.blacklists =~= Seq::empty());
            assert(rules@.shift_plans =~= Seq::empty());
        }
        rules
    }
}

/// Whether `kind` is one of `kinds`.
pub(crate) fn has_kind(kinds: &Vec<String>, kind: &String) -> (found: bool)
    ensures
        found == texts(kinds@).contains(kind@),
{
    let mut i: usize = 0;
    while i < kinds.len()
        invariant
            i <= kinds.len(),
            forall|j: int| 0 <= j < i ==> texts(kinds@)[j] != kind@,
        decreases kinds.len() - i,
    {
        if kinds[i] == *kind {
            assert(texts(kinds@)[i as int] == kind@);
            return true;
        }
        i += 1;
    }
    false
}

/// Whether `x` is one of `list`.
pub(crate) fn has_index(list: &Vec<usize>, x: usize) -> (found: bool)
    ensures
        found == list@.contains(x),
{
    let mut i: usize = 0;
    while i < list.len()
        invariant
            i <= list.len(),
            forall|j: int| 0 <= j < i ==> list@[j] != x,
        decreases list.len() - i,
    {
        if list[i] == x {
            return true;
        }
        i += 1;
    }
    false
}

} // verus!
