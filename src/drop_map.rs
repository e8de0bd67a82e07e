//! A sequence of clues produced on demand, which resets its counter map once
//! when it ends.
use vstd::prelude::*;
use crate::Clue;
use crate::counts::{credit, ResettableMap};

verus! {

/// The clue for one position and the credits left after it. An exact match
/// takes no credit; otherwise a credit of the variable character, if one is
/// left, is taken.
pub open spec fn step(fixed: char, variable: char, m: Map<char, int>) -> (Clue, Map<char, int>) {
    if fixed == variable {
        (Clue::Exact, m)
    } else if credit(m, variable) > 0 {
        (Clue::Present, m.insert(variable, credit(m, variable) - 1))
    } else {
        (Clue::Absent, m)
    }
}

/// The clues for a list of (fixed, variable) pairs taken left to right from
/// the credits `m`, and the credits left at the end.
pub open spec fn run(pairs: Seq<(char, char)>, m: Map<char, int>) -> (Seq<Clue>, Map<char, int>)
    decreases pairs.len(),
{
    if pairs.len() == 0 {
        (Seq::empty(), m)
    } else {
        let before = run(pairs.drop_last(), m);
        let s = step(pairs.last().0, pairs.last().1, before.1);
        (before.0.push(s.0), s.1)
    }
}

/// Clues drawn one at a time from pairs of characters. The counter map is
/// lent to each call; when the pairs run out, or when the caller stops early
/// with `finish`, the map is reset, and never more than once.
pub struct DropMap {
    pairs: Vec<(char, char)>,
    pos: usize,
    finished: bool,
}

impl DropMap {
    pub closed spec fn pairs(&self) -> Seq<(char, char)> {
        self.pairs@
    }

    /// How many clues have been produced.
    pub closed spec fn pos(&self) -> nat {
        self.pos as nat
    }

    /// Whether the map has been reset.
    pub closed spec fn is_finished(&self) -> bool {
        self.finished
    }

    pub open spec fn wf(&self) -> bool {
        self.pos() <= self.pairs().len()
    }

    pub fn new(pairs: Vec<(char, char)>) -> (r: DropMap)
        ensures
            r.wf(),
            r.pairs() == pairs@,
            r.pos() == 0,
            !r.is_finished(),
    {
        DropMap { pairs, pos: 0, finished: false }
    }

    /// Whether every pair has been used.
    pub fn is_exhausted(&self) -> (r: bool)
        requires
            self.wf(),
        ensures
            r == (self.pos() == self.pairs().len()),
    {
        self.pos == self.pairs.len()
    }

    /// Produces the clue of the next pair. When none is left, or the
    /// sequence was finished, returns `None`, resetting the map if that was
    /// not done yet.
    pub fn next<R: ResettableMap>(&mut self, context: &mut R) -> (r: Option<Clue>)
        requires
            old(self).wf(),
            old(context).wf(),
        ensures
            final(self).wf(),
            final(context).wf(),
            final(self).pairs() == old(self).pairs(),
            final(context).baseline() == old(context).baseline(),
            !old(self).is_finished() && old(self).pos() < old(self).pairs().len() ==> {
                let p = old(self).pairs()[old(self).pos() as int];
                let s = step(p.0, p.1, old(context).counts());
                &&& r == Some(s.0)
                &&& final(context).counts() == s.1
                &&& final(self).pos() == old(self).pos() + 1
                &&& !final(self).is_finished()
            },
            old(self).is_finished() || old(self).pos() == old(self).pairs().len() ==> {
                &&& r is None
                &&& final(self).is_finished()
                &&& final(self).pos() == old(self).pos()
                &&& final(context).counts() == if old(self).is_finished() {
                    old(context).counts()
                } else {
                    old(context).baseline()
                }
            },
    {
        if self.finished || self.pos == self.pairs.len() {
            self.finish(context);
            return None;
        }
        let (fixed, variable) = self.pairs[self.pos];
        let clue = if fixed == variable {
            Clue::Exact
        } else if context.take_credit(variable) {
            Clue::Present
        } else {
            Clue::Absent
        };
        self.pos = self.pos + 1;
        Some(clue)
    }

    /// Ends the sequence: resets the map unless that was done already.
    pub fn finish<R: ResettableMap>(&mut self, context: &mut R)
        requires
            old(self).wf(),
            old(context).wf(),
        ensures
            final(self).wf(),
            final(context).wf(),
            final(self).pairs() == old(self).pairs(),
            final(self).pos() == old(self).pos(),
            final(self).is_finished(),
            final(context).baseline() == old(context).baseline(),
            final(context).counts() == if old(self).is_finished() {
                old(context).counts()
            } else {
                old(context).baseline()
            },
    {
        if !self.finished {
            context.reset();
            self.finished = true;
        }
    }
}

/// Sources of (fixed, variable) pairs that can be turned into a `DropMap`.
pub trait HasDropMap: Sized {
    /// The pairs, in order.
    spec fn items(&self) -> Seq<(char, char)>;

    fn drop_map(self) -> (r: DropMap)
        ensures
            r.wf(),
            r.pairs() == self.items(),
            r.pos() == 0,
            !r.is_finished(),
    ;
}

impl HasDropMap for Vec<(char, char)> {
    open spec fn items(&self) -> Seq<(char, char)> {
        self@
    }

    fn drop_map(self) -> (r: DropMap) {
        DropMap::new(self)
    }
}

} // verus!
