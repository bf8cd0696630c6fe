//! Weekly school timetables: the grid of period cells per class, the rules that score
//! it, the local moves that change it and the passes that build it and give it rooms.
//!
//! Every executable function here carries a contract over the mathematical model of
//! the grid (`Seq<Seq<Slot>>`, one row per class) and of the reference data
//! ([`logic::ProblemView`]).

use vstd::prelude::*;

pub mod bounds;
pub mod cost;
pub mod days;
pub mod logic;
pub mod neighbor;
pub mod placement;
pub mod plans;
pub mod points;
pub mod rooms;
pub mod rules;
pub mod search;
pub mod sums;
pub mod text;
pub mod util;

verus! {

/// A school class, known by its position in the list of classes.
#[derive(Debug)]
pub struct Class {
    pub name: String,
}

/// A room and the kinds of subject it can host.
#[derive(Debug)]
pub struct Room {
    pub name: String,
    pub kinds: Vec<String>,
}

/// A subject and the one kind of room it needs.
#[derive(Debug)]
pub struct Subject {
    pub name: String,
    pub kind: String,
}

/// A teacher, known by their position in the list of teachers.
#[derive(Debug)]
pub struct Teacher {
    pub name: String,
}

/// A teaching requirement: `teacher` gives `subject` to `class` in `shift`,
/// `per_week_first` periods a week to the first group and, where the class is split,
/// `per_week_second` periods to the second.
#[derive(Clone, Copy, Debug, PartialEq, Eq, Structural)]
pub struct Relation {
    pub shift: i32,
    pub teacher: usize,
    pub subject: usize,
    pub class: usize,
    pub per_week_first: u32,
    pub per_week_second: Option<u32>,
}

/// What the rules read of a room.
pub struct RoomView {
    pub name: Seq<char>,
    pub kinds: Seq<Seq<char>>,
}

/// What the rules read of a subject.
pub struct SubjectView {
    pub name: Seq<char>,
    pub kind: Seq<char>,
}

impl View for Class {
    type V = Seq<char>;

    open spec fn view(&self) -> Seq<char> {
        self.name@
    }
}

impl View for Teacher {
    type V = Seq<char>;

    open spec fn view(&self) -> Seq<char> {
        self.name@
    }
}

impl View for Subject {
    type V = SubjectView;

    open spec fn view(&self) -> SubjectView {
        SubjectView { name: self.name@, kind: self.kind@ }
    }
}

impl View for Room {
    type V = RoomView;

    open spec fn view(&self) -> RoomView {
        RoomView { name: self.name@, kinds: Seq::new(self.kinds@.len(), |i: int| self.kinds@[i]@) }
    }
}

impl Clone for Class {
    fn clone(&self) -> (r: Self)
        ensures
            r@ == self@,
    {
        Class { name: self.name.clone() }
    }
}

impl Clone for Teacher {
    fn clone(&self) -> (r: Self)
        ensures
            r@ == self@,
    {
        Teacher { name: self.name.clone() }
    }
}

impl Clone for Subject {
    fn clone(&self) -> (r: Self)
        ensures
            r@ == self@,
    {
        Subject { name: self.name.clone(), kind: self.kind.clone() }
    }
}

impl Clone for Room {
    fn clone(&self) -> (r: Self)
        ensures
            r@ == self@,
    {
        let mut kinds: Vec<String> = Vec::new();
        let mut i: usize = 0;
        while i < self.kinds.len()
            invariant
                i <= self.kinds.len(),
                kinds.len() == i,
                forall|j: int| 0 <= j < i ==> kinds@[j]@ == self.kinds@[j]@,
            decreases self.kinds.len() - i,
        {
            kinds.push(self.kinds[i].clone());
            i += 1;
        }
        let r = Room { name: self.name.clone(), kinds };
        assert(r@.kinds =~= self@.kinds);
        r
    }
}

} // verus!
