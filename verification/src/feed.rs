//! Feeding codes to the state machine.
//!
//! The tokenizer knows how to keep books; what the states do is up to the
//! constructs that are plugged in.  The driver alternates between the two
//! until the codes run out, the machine comes to rest, or the budget of
//! steps is spent.

use crate::attempt::Step;
use crate::event::{well_nested, Point};
use crate::parser::Code;
use crate::state::{State, StateName};
use crate::tokenizer::{advanced, Tokenizer};
use vstd::prelude::*;

verus! {

/// The states and resolvers that the tokenizer is to run.
///
/// An implementation recognises constructs: each state looks at the current
/// code of the tokenizer, may consume it, enter and exit spans and register
/// attempts, and says how to go on.
pub trait Constructs {
    /// Run the state `name` on the current code of `tokenizer`.
    ///
    /// The state leaves a valid tokenizer that follows the one it was given:
    /// it takes no attempt away, and leaves alone what the attempts under
    /// way would go back to.  When it asks for the next code, it has
    /// consumed the current one; when it asks for a retry, it has not.
    fn call(&self, tokenizer: &mut Tokenizer, name: StateName) -> (next: State)
        requires
            old(tokenizer).wf(),
            !old(tokenizer).consumed,
            old(tokenizer).ready(name),
        ensures
            final(tokenizer).follows(old(tokenizer)),
            final(tokenizer).admits(next),
    ;

    /// Run the resolver registered under `id`, which may rewrite the events
    /// of `tokenizer`, and tell whether it could: a resolver that would
    /// leave malformed events behind leaves the events alone and says no.
    ///
    /// The resolver leaves a valid tokenizer on the same stream, without
    /// attempts; a tokenizer that drives no document keeps its events nested
    /// and ordered.  Which resolvers are attached and which have run is kept
    /// from it: while it runs, the tokenizer shows neither.
    fn resolve(&self, tokenizer: &mut Tokenizer, id: &String) -> (fine: bool)
        requires
            old(tokenizer).wf(),
            old(tokenizer).attempts.len() == 0,
        ensures
            final(tokenizer).wf(),
            final(tokenizer).parse_state == old(tokenizer).parse_state,
            final(tokenizer).attempts.len() == 0,
            old(tokenizer).child is Some ==> final(tokenizer).child is Some,
            final(tokenizer).child is None && old(tokenizer).orderly() ==> final(tokenizer).orderly(),
    ;
}

/// Place reached from a place by passing code after code until `target`.
/// From a place at or after `target` that is the place itself.
pub open spec fn moved_to(
    codes: Seq<Code>,
    point: Point,
    index: usize,
    target: usize,
    column_start: Map<usize, usize>,
) -> (Point, usize)
    decreases codes.len() - index,
{
    if index >= target || index >= codes.len() {
        (point, index)
    } else {
        let next = advanced(codes, point, index, codes[index as int], column_start);
        if index < next.1 <= codes.len() {
            moved_to(codes, next.0, next.1, target, column_start)
        } else {
            (point, index)
        }
    }
}

impl<'a> Tokenizer<'a> {
    /// Whether no state has to run when the machine is to go on from `state`
    /// with codes fed up to `to`: the budget is spent, or the machine has
    /// ended with no attempt under way, or it waits for a code at or after
    /// `to` that it is not to be given, with no pause due.
    pub open spec fn idles(&self, state: State, to: usize, flush: bool) -> bool {
        ||| self.budget == 0
        ||| (state is Okay || state is Nok) && self.attempts.len() == 0
        ||| state is Next && !self.pauses() && !flush && self.index >= to
    }

    /// The tokenizer after the machine was started in `state` and no state
    /// had to run: finding that out costs one step of the budget, and a
    /// machine that is not in the middle of a retry waits for a code.
    pub open spec fn after_idle(&self, state: State) -> Tokenizer<'a> {
        Tokenizer {
            budget: if self.budget > 0 {
                (self.budget - 1) as usize
            } else {
                0
            },
            consumed: if state is Retry {
                self.consumed
            } else {
                true
            },
            ..*self
        }
    }

    /// Whether `self` is `old` after the machine was started in `state` and
    /// no state had to run.
    pub open spec fn idled(&self, old: &Tokenizer<'a>, state: State) -> bool {
        *self == old.after_idle(state)
    }

    /// Whether the events are complete: sound, with no span left open.  So
    /// every exit closes the most recent open enter of its name, nothing
    /// stays open, and offsets never go back.
    pub open spec fn complete(&self) -> bool {
        &&& self.sound()
        &&& self.stack.len() == 0
    }

    /// Whether `self` can be what became of `old` when its resolvers ran,
    /// where `fine` tells whether every resolver that ran could do its work.
    ///
    /// What the resolvers made of the tokenizer is theirs to say, but not
    /// which of them ran: they ran in the order in which they were attached,
    /// each at the cost of one step of the budget, and each went on record.
    /// None ran while an attempt was under way.  They ran until one could
    /// not do its work, the budget was spent, or none was left.
    pub open spec fn resolvers_run(&self, fine: bool, old: &Tokenizer<'a>) -> bool {
        &&& self.wf()
        &&& self.parse_state == old.parse_state
        &&& self.drained == old.drained
        &&& self.consumed == old.consumed
        &&& old.child is Some ==> self.child is Some
        &&& self.child is None && old.orderly() ==> self.orderly()
        &&& old.attempts.len() == 0 ==> self.attempts.len() == 0
        &&& old.attempts.len() > 0 || old.budget == 0 || old.resolvers.len() == 0 ==> fine && *self
            == *old
        &&& self.resolved@ + self.resolvers@ == old.resolved@ + old.resolvers@
        &&& self.resolved.len() >= old.resolved.len()
        &&& self.budget == old.budget - (self.resolved.len() - old.resolved.len())
        &&& fine ==> self.resolvers.len() == 0 || self.budget == 0 || self.attempts.len() > 0
        &&& !fine ==> self.resolved.len() > old.resolved.len()
    }

    /// Whether `self`, ended in `next`, can be what became of `ended`, whose
    /// machine had come to rest in `last`, once the feeding of the end was
    /// finished, for good if `eof` is set.
    ///
    /// Unless this is the end for good, nothing is left to do.  Otherwise
    /// the tokenizer is drained.  If the machine ended in `Okay`, the
    /// resolvers ran, and the outcome is `Okay` if each of them could do its
    /// work and the events are complete at last, and `Nok` if not.
    pub open spec fn finished(&self, next: State, ended: &Tokenizer<'a>, last: State, eof: bool) -> bool {
        let marked = Tokenizer { drained: true, ..*ended };
        if !eof {
            next == last && *self == *ended
        } else if !(last is Okay) {
            next == last && *self == marked
        } else {
            &&& next is Okay || next is Nok
            &&& next is Okay ==> self.resolvers_run(true, &marked) && self.complete()
            &&& next is Nok ==> self.resolvers_run(false, &marked) || (self.resolvers_run(
                true,
                &marked,
            ) && !self.complete())
        }
    }

    /// Whether `self`, suspended in `next`, can be what became of `old` when
    /// it was fed the codes from `from` up to `to`, starting in `state`.
    ///
    /// What the states did is theirs to say.  The tokenizer is valid, on the
    /// same stream, and not drained; it has given up no child, and if it
    /// drives no document its events have stayed nested and ordered.  No
    /// resolver ran.  The machine rests at or after `to`, unless the budget
    /// is spent.  Where no state had to run once the tokenizer had moved
    /// forward to `from`, the machine is still in `state`, and the tokenizer
    /// is as it was but for the step that it took to find that out.
    pub open spec fn pushed(
        &self,
        next: State,
        old: &Tokenizer<'a>,
        state: State,
        from: usize,
        to: usize,
    ) -> bool {
        let moved = old.moved_for(from);
        &&& self.wf()
        &&& self.admits(next)
        &&& self.parse_state == old.parse_state
        &&& old.child is Some ==> self.child is Some
        &&& self.child is None && old.orderly() ==> self.orderly()
        &&& self.budget <= old.budget
        &&& !self.drained
        &&& self.resolved == old.resolved
        &&& !(next is Retry) ==> self.consumed
        &&& self.rests(next, to, false) || self.budget == 0
        &&& moved.idles(state, to, false) ==> next == state && self.idled(&moved, state)
    }

    /// Whether `self`, ended in `next`, can be what became of `old` when it
    /// was fed the end of the input, starting in `state`, for good if `eof`
    /// is set.
    ///
    /// What the states and the resolvers did is theirs to say.  The
    /// tokenizer is valid and on the same stream; it has given up no child,
    /// and if it drives no document its events have stayed nested and
    /// ordered.  The machine has ended with no attempt under way, unless the
    /// budget is spent.  Resolvers ran only at the end for good, and those
    /// that had run before are still on record.  With `eof` set the tokenizer
    /// is drained, and where the outcome is `Okay` every resolver has run,
    /// unless the budget is spent, and the events are complete.  Where no
    /// state had to run, the feeding was finished from the tokenizer as it
    /// was but for the step that it took to find that out.
    pub open spec fn flushed(&self, next: State, old: &Tokenizer<'a>, state: State, eof: bool) -> bool {
        &&& self.wf()
        &&& self.admits(next)
        &&& self.parse_state == old.parse_state
        &&& old.child is Some ==> self.child is Some
        &&& self.child is None && old.orderly() ==> self.orderly()
        &&& self.budget <= old.budget
        &&& self.rests(next, old.index, true) || self.budget == 0
        &&& !(next is Retry) ==> self.consumed
        &&& self.drained == eof
        &&& self.resolved.len() >= old.resolved.len()
        &&& self.resolved@.take(old.resolved.len() as int) == old.resolved@
        &&& !eof ==> self.resolved@ == old.resolved@
        &&& eof && next is Okay ==> self.complete() && (self.resolvers.len() == 0 || self.budget
            == 0)
        &&& old.idles(state, old.index, true) ==> self.finished(
            next,
            &old.after_idle(state),
            state,
            eof,
        )
    }

    /// Whether the machine has come to rest in `state`, with codes fed up to
    /// `to`: it ended with no attempt under way, or it waits for a code at
    /// or after `to` that it is not to be given.
    pub open spec fn rests(&self, state: State, to: usize, flush: bool) -> bool {
        match state {
            State::Okay | State::Nok => self.attempts.len() == 0,
            State::Next(_) => !flush && self.index >= to,
            State::Retry(_) => false,
        }
    }

    /// Move forward to `index` without feeding the codes on the way to any
    /// state.  A tokenizer at or after `index` stays where it is.
    pub fn move_to(&mut self, index: usize)
        requires
            old(self).wf(),
            old(self).consumed,
            index <= old(self).parse_state.codes.len(),
        ensures
            (final(self).point, final(self).index) == moved_to(
                old(self).parse_state.codes@,
                old(self).point,
                old(self).index,
                index,
                old(self).column_start@,
            ),
            final(self).index >= index,
            *final(self) == (Tokenizer {
                point: final(self).point,
                index: final(self).index,
                ..*old(self)
            }),
            final(self).follows(old(self)),
    {
        while self.index < index
            invariant
                old(self).wf(),
                index <= self.parse_state.codes.len(),
                self.parse_state.locates(self.point, self.index),
                self.point.offset >= old(self).point.offset,
                moved_to(
                    self.parse_state.codes@,
                    self.point,
                    self.index,
                    index,
                    self.column_start@,
                ) == moved_to(
                    old(self).parse_state.codes@,
                    old(self).point,
                    old(self).index,
                    index,
                    old(self).column_start@,
                ),
                *self == (Tokenizer { point: self.point, index: self.index, ..*old(self) }),
            decreases self.parse_state.codes.len() - self.index,
        {
            self.move_one();
        }
        proof {
            self.lemma_moved_follows(old(self));
        }
    }

    /// Run the machine from `state` until it rests or the budget is spent.
    fn run<C: Constructs>(&mut self, constructs: &C, state: State, to: usize, flush: bool) -> (next:
        State)
        requires
            old(self).wf(),
            old(self).admits(state),
            to <= old(self).parse_state.codes.len(),
        ensures
            final(self).wf(),
            final(self).admits(next),
            final(self).parse_state == old(self).parse_state,
            old(self).child is Some ==> final(self).child is Some,
            final(self).child is None && old(self).orderly() ==> final(self).orderly(),
            final(self).budget <= old(self).budget,
            final(self).drained == old(self).drained,
            final(self).resolved == old(self).resolved,
            !(next is Retry) ==> final(self).consumed,
            final(self).rests(next, to, flush) || final(self).budget == 0,
            old(self).idles(state, to, flush) ==> next == state && final(self).idled(
                old(self),
                state,
            ),
    {
        let ghost start = state;
        let mut state = state;
        let mut budget = self.budget;
        let drained = self.drained;
        let mut halted = false;
        // The record of the resolvers that ran is kept from the states.
        let mut resolved: Vec<String> = Vec::new();
        std::mem::swap(&mut self.resolved, &mut resolved);
        let ghost kept = *self;
        proof {
            self.lemma_moved_follows(old(self));
        }
        while !halted && budget > 0
            invariant
                self.wf(),
                self.admits(state),
                kept == (Tokenizer { resolved: kept.resolved, ..*old(self) }),
                old(self).idles(start, to, flush) ==> {
                    &&& *self == kept
                    &&& state == start
                    &&& budget == if halted {
                        old(self).budget - 1
                    } else {
                        old(self).budget as int
                    }
                },
                self.parse_state == old(self).parse_state,
                to <= self.parse_state.codes.len(),
                old(self).child is Some ==> self.child is Some,
                self.child is None && old(self).orderly() ==> self.orderly(),
                budget <= old(self).budget,
                halted ==> self.rests(state, to, flush),
            decreases budget,
        {
            budget -= 1;
            match self.step(state, to, flush) {
                Step::Call(name) => {
                    state = constructs.call(self, name);
                },
                Step::Goto(next) => {
                    state = next;
                },
                Step::Halt(_) => {
                    halted = true;
                },
            }
        }
        let ghost ran = *self;
        self.budget = budget;
        self.drained = drained;
        self.resolved = resolved;
        match state {
            State::Retry(_) => {},
            _ => {
                self.consumed = true;
            },
        }
        proof {
            self.lemma_moved_follows(&ran);
        }
        state
    }
}


impl<'a> Tokenizer<'a> {
    /// Feed the codes from `from` up to `to` into the machine, starting in
    /// `state`, and return the state in which the machine is suspended.
    ///
    /// A tokenizer that waits for a code first moves forward to `from`.
    /// The machine then runs until it waits for a code at or after `to`, or
    /// ends with no attempt under way, or has spent its budget.  This can be
    /// called again and again to stream codes into the machine.
    pub fn push<C: Constructs>(&mut self, constructs: &C, from: usize, to: usize, state: State) -> (next:
        State)
        requires
            old(self).wf(),
            old(self).admits(state),
            !old(self).drained,
            from <= old(self).parse_state.codes.len(),
            to <= old(self).parse_state.codes.len(),
        ensures
            final(self).pushed(next, old(self), state, from, to),
    {
        if self.consumed {
            self.move_to(from);
        }
        self.run(constructs, state, to, false)
    }

    /// The tokenizer as it stands when it is to be fed from `from` on: one
    /// that waits for a code has moved forward to `from`.
    pub open spec fn moved_for(&self, from: usize) -> Tokenizer<'a> {
        if self.consumed {
            let place = moved_to(
                self.parse_state.codes@,
                self.point,
                self.index,
                from,
                self.column_start@,
            );
            Tokenizer { point: place.0, index: place.1, ..*self }
        } else {
            *self
        }
    }

    /// Feed the end of the input into the machine, starting in `state`,
    /// until it ends, and return the state in which it ended.
    ///
    /// With `eof` set this is the end for good: the tokenizer is drained,
    /// and, if the machine ended in `Okay`, the registered resolvers run, in
    /// their order, each at the cost of one step of the budget.  A resolver
    /// that could not do its work ends the run of the resolvers, and the
    /// outcome is `Nok`.  So it is if the events are not complete at last:
    /// well nested, with no span left open, and ordered.
    pub fn flush<C: Constructs>(&mut self, constructs: &C, state: State, eof: bool) -> (next: State)
        requires
            old(self).wf(),
            old(self).admits(state),
            !old(self).drained,
        ensures
            final(self).flushed(next, old(self), state, eof),
    {
        let to = self.index;
        let last = self.run(constructs, state, to, true);
        if eof {
            self.finish(constructs, last)
        } else {
            proof {
                assert(self.resolved@.take(self.resolved.len() as int) =~= self.resolved@);
            }
            last
        }
    }

    /// Finish the feeding of the end for good, where the machine has come
    /// to rest in `last`: the tokenizer is drained, and if the machine ended
    /// in `Okay` the resolvers run and the events are looked over.
    fn finish<C: Constructs>(&mut self, constructs: &C, last: State) -> (next: State)
        requires
            old(self).wf(),
            old(self).admits(last),
            !(last is Retry) ==> old(self).consumed,
        ensures
            final(self).finished(next, old(self), last, true),
            final(self).wf(),
            final(self).admits(next),
            final(self).parse_state == old(self).parse_state,
            old(self).child is Some ==> final(self).child is Some,
            final(self).child is None && old(self).orderly() ==> final(self).orderly(),
            final(self).budget <= old(self).budget,
            final(self).consumed == old(self).consumed,
            final(self).drained,
            old(self).attempts.len() == 0 ==> final(self).attempts.len() == 0,
            final(self).resolved.len() >= old(self).resolved.len(),
            final(self).resolved@.take(old(self).resolved.len() as int) == old(self).resolved@,
            next is Okay ==> final(self).complete(),
            next is Okay ==> final(self).resolvers.len() == 0 || final(self).budget == 0
                || final(self).attempts.len() > 0,
            last is Okay ==> next is Okay || next is Nok,
            !(last is Okay) ==> next == last && final(self).attempts == old(self).attempts
                && final(self).budget == old(self).budget,
    {
        self.drained = true;
        proof {
            self.lemma_moved_follows(old(self));
        }
        let ghost marked = *self;
        match last {
            State::Okay => {
                let fine = self.run_resolvers(constructs);
                proof {
                    let before = marked.resolved@;
                    assert((self.resolved@ + self.resolvers@).take(before.len() as int) =~= before);
                    assert((self.resolved@ + self.resolvers@).take(before.len() as int)
                        =~= self.resolved@.take(before.len() as int));
                }
                if fine && self.stack.len() == 0 && self.is_sound() {
                    State::Okay
                } else {
                    State::Nok
                }
            },
            _ => last,
        }
    }

    /// Well-nested events at the end: once a tokenizer, with or without a
    /// document to drive, was fed the end for good with `Okay` as the
    /// outcome, every exit in its events closes the most recent open enter of
    /// its name, and nothing stays open.
    pub proof fn lemma_flushed_is_well_nested(&self, next: State, old: &Tokenizer<'a>, state: State)
        requires
            self.flushed(next, old, state, true),
            next is Okay,
        ensures
            well_nested(self.events@),
    {
        assert(self.stack@ =~= Seq::<crate::token::TokenType>::empty());
    }

    /// Monotonic position at the end: once a tokenizer, with or without a
    /// document to drive, was fed the end for good with `Okay` as the
    /// outcome, no event lies before the one that precedes it, and the same
    /// holds among the enters and among the exits.
    pub proof fn lemma_flushed_is_monotonic(&self, next: State, old: &Tokenizer<'a>, state: State)
        requires
            self.flushed(next, old, state, true),
            next is Okay,
        ensures
            forall|i: int|
                0 <= i && i + 1 < self.events.len() ==> self.events[i].point.offset <= (
                #[trigger] self.events[i + 1]).point.offset,
            forall|i: int, j: int|
                0 <= i <= j < self.events.len() && self.events[i].event_type == self.events[j].event_type
                    ==> self.events[i].point.offset <= self.events[j].point.offset,
    {
    }

    /// Run the resolvers that are attached, first to last, while the budget
    /// lasts and each of them can do its work, and tell whether all that ran
    /// could.  None runs while an attempt is under way.
    pub fn run_resolvers<C: Constructs>(&mut self, constructs: &C) -> (fine: bool)
        requires
            old(self).wf(),
            old(self).consumed,
        ensures
            final(self).resolvers_run(fine, old(self)),
    {
        let mut fine = true;
        while fine && self.attempts.len() == 0 && self.budget > 0 && self.resolvers.len() > 0
            invariant
                self.wf(),
                self.consumed,
                self.parse_state == old(self).parse_state,
                self.drained == old(self).drained,
                old(self).child is Some ==> self.child is Some,
                self.child is None && old(self).orderly() ==> self.orderly(),
                old(self).attempts.len() == 0 ==> self.attempts.len() == 0,
                old(self).attempts.len() > 0 || old(self).budget == 0 || old(self).resolvers.len()
                    == 0 ==> fine && *self == *old(self),
                self.resolved@ + self.resolvers@ == old(self).resolved@ + old(self).resolvers@,
                self.resolved.len() >= old(self).resolved.len(),
                self.budget == old(self).budget - (self.resolved.len() - old(self).resolved.len()),
                !fine ==> self.resolved.len() > old(self).resolved.len(),
            decreases self.budget,
        {
            let ghost before = *self;
            match self.next_resolver() {
                Some(id) => {
                    proof {
                        assert(self.resolved@ + self.resolvers@ =~= before.resolved@
                            + before.resolvers@);
                    }
                    fine = self.run_resolver(constructs, &id);
                },
                None => {},
            }
        }
        fine
    }

    /// Run the resolver `id`, at the cost of one step of the budget, and
    /// tell whether it could do its work.
    ///
    /// The resolver is handed the tokenizer without its lists of resolvers,
    /// which are not its to change, and cannot end the feeding.
    fn run_resolver<C: Constructs>(&mut self, constructs: &C, id: &String) -> (fine: bool)
        requires
            old(self).wf(),
            old(self).consumed,
            old(self).attempts.len() == 0,
            old(self).budget > 0,
        ensures
            final(self).wf(),
            final(self).consumed,
            final(self).parse_state == old(self).parse_state,
            final(self).drained == old(self).drained,
            final(self).resolvers == old(self).resolvers,
            final(self).resolved == old(self).resolved,
            final(self).budget == old(self).budget - 1,
            final(self).attempts.len() == 0,
            old(self).child is Some ==> final(self).child is Some,
            final(self).child is None && old(self).orderly() ==> final(self).orderly(),
    {
        let budget = self.budget - 1;
        let drained = self.drained;
        let mut resolvers: Vec<String> = Vec::new();
        let mut resolved: Vec<String> = Vec::new();
        std::mem::swap(&mut self.resolvers, &mut resolvers);
        std::mem::swap(&mut self.resolved, &mut resolved);
        proof {
            self.lemma_moved_follows(old(self));
        }
        let fine = constructs.resolve(self, id);
        let ghost ran = *self;
        self.resolvers = resolvers;
        self.resolved = resolved;
        self.budget = budget;
        self.drained = drained;
        self.consumed = true;
        proof {
            self.lemma_moved_follows(&ran);
        }
        fine
    }
}

} // verus!
