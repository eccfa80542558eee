//! Attempts: speculative parsing with rollback.
//!
//! A state registers an attempt and then hands over to the state that is to
//! be tried.  When that state and its successors end, the driver takes one
//! step for the attempt: it undoes what was done where the attempt asks for
//! that, and goes on with the state that the attempt names for the outcome.

use crate::parser::Code;
use crate::state::{State, StateName};
use crate::tokenizer::{Attempt, AttemptKind, Progress, Tokenizer};
use vstd::prelude::*;

verus! {

/// What the driver has to do after one step of bookkeeping.
#[derive(Debug, Clone, Copy, PartialEq, Eq, Structural)]
pub enum Step {
    /// Run the named state on the current code.
    Call(StateName),
    /// Go on with this state, without running anything.
    Goto(State),
    /// Stop: this state is where the machine stands.
    Halt(State),
}

impl<'a> Tokenizer<'a> {
    /// What an attempt that begins here would go back to.
    pub open spec fn captured(&self) -> Progress {
        Progress {
            events_len: self.events.len(),
            stack_len: self.stack.len(),
            definitions_len: self.definitions.len(),
            previous: self.previous,
            current: self.current,
            index: self.index,
            point: self.point,
        }
    }

    /// Whether `self` is `old` gone back to `progress`: events, stack and
    /// definitions are cut back to their lengths of then, and place and codes
    /// are those of then.
    pub open spec fn restored(&self, old: &Tokenizer, progress: Progress) -> bool {
        &&& self.events@ == old.events@.take(progress.events_len as int)
        &&& self.stack@ == old.stack@.take(progress.stack_len as int)
        &&& self.definitions@ == old.definitions@.take(progress.definitions_len as int)
        &&& self.index == progress.index
        &&& self.point == progress.point
        &&& self.previous == progress.previous
        &&& self.current == progress.current
    }

    /// Whether `self` is `old` with one more attempt, begun where `old`
    /// stands.
    pub open spec fn attempting(
        &self,
        old: &Tokenizer,
        ok: State,
        nok: State,
        kind: AttemptKind,
        rest: Seq<StateName>,
    ) -> bool {
        &&& *self == (Tokenizer { attempts: self.attempts, ..*old })
        &&& self.attempts.len() == old.attempts.len() + 1
        &&& self.attempts@.drop_last() == old.attempts@
        &&& self.attempts@.last().ok == ok
        &&& self.attempts@.last().nok == nok
        &&& self.attempts@.last().kind == kind
        &&& self.attempts@.last().progress == old.captured()
        &&& self.attempts@.last().rest@ == rest
        &&& self.attempts@.last().until@ == Seq::<Code>::empty()
    }

    /// Capture the internal state.
    pub fn capture(&self) -> (progress: Progress)
        ensures
            progress == self.captured(),
    {
        Progress {
            index: self.index,
            previous: self.previous,
            current: self.current,
            point: self.point,
            events_len: self.events.len(),
            stack_len: self.stack.len(),
            definitions_len: self.definitions.len(),
        }
    }

    /// Apply the internal state.
    ///
    /// Nothing that was there when the state was captured may be missing.
    pub fn free(&mut self, previous: Progress)
        requires
            previous.events_len <= old(self).events.len(),
            previous.stack_len <= old(self).stack.len(),
            previous.definitions_len <= old(self).definitions.len(),
        ensures
            final(self).restored(old(self), previous),
            *final(self) == (Tokenizer {
                events: final(self).events,
                stack: final(self).stack,
                definitions: final(self).definitions,
                index: final(self).index,
                point: final(self).point,
                previous: final(self).previous,
                current: final(self).current,
                ..*old(self)
            }),
    {
        self.index = previous.index;
        self.previous = previous.previous;
        self.current = previous.current;
        self.point = previous.point;
        self.events.truncate(previous.events_len);
        self.stack.truncate(previous.stack_len);
        self.definitions.truncate(previous.definitions_len);
    }

    /// Register an attempt of the given kind that begins here.
    fn begin(&mut self, ok: State, nok: State, kind: AttemptKind, rest: Vec<StateName>)
        requires
            old(self).wf(),
            old(self).resumable(ok, old(self).attempts.len() as int),
            old(self).resumable(nok, old(self).attempts.len() as int),
            forall|k: int| 0 <= k < rest.len() ==> !(#[trigger] rest[k]).is_document(),
        ensures
            final(self).attempting(old(self), ok, nok, kind, rest@),
            final(self).follows(old(self)),
    {
        let progress = self.capture();
        self.attempts.push(Attempt { ok, nok, kind, progress, rest, until: Vec::new() });
        proof {
            assert(self.attempts@.drop_last() =~= old(self).attempts@);
            self.lemma_begun_follows(old(self));
        }
    }

    /// A tokenizer with one more attempt, begun where it stands and fit to
    /// be gone on from, follows what it was.
    pub proof fn lemma_begun_follows(&self, old: &Tokenizer)
        requires
            old.wf(),
            *self == (Tokenizer { attempts: self.attempts, ..*old }),
            self.attempts.len() == old.attempts.len() + 1,
            self.attempts@.drop_last() == old.attempts@,
            self.attempts@.last().progress.events_len == old.events.len(),
            self.attempts@.last().progress.stack_len == old.stack.len(),
            self.attempts@.last().progress.definitions_len == old.definitions.len(),
            self.attempts@.last().progress.point == old.point,
            self.attempts@.last().progress.index == old.index,
            old.resumable(self.attempts@.last().ok, old.attempts.len() as int),
            old.resumable(self.attempts@.last().nok, old.attempts.len() as int),
            forall|k: int|
                0 <= k < self.attempts@.last().rest.len() ==> !(
                #[trigger] self.attempts@.last().rest[k]).is_document(),
        ensures
            self.follows(old),
    {
        let depth = old.attempts.len() as int;
        assert(self.attempts@.take(depth) =~= old.attempts@);
        assert forall|i: int| 0 <= i < self.attempts.len() implies self.attempt_wf(i) by {
            if i < depth {
                assert(old.attempt_wf(i));
            }
        }
        assert forall|i: int, j: int| 0 <= i <= j < self.attempts.len() implies (
        #[trigger] self.attempts[i]).progress.below(&(#[trigger] self.attempts[j]).progress) by {
            if j < depth {
                assert(old.attempts[i].progress.below(&old.attempts[j].progress));
            } else if i < depth {
                assert(old.attempt_wf(i));
            }
        }
        if old.orderly() {
            assert(self.events@.take(old.events.len() as int) =~= old.events@);
            assert(self.stack@.take(old.stack.len() as int) =~= old.stack@);
            assert forall|i: int| 0 <= i < self.attempts.len() implies (
            #[trigger] self.attempts[i]).progress.orderly_in(self) by {
                if i < depth {
                    assert(old.attempts[i].progress.orderly_in(old));
                }
            }
        }
    }

    /// Parse with the state that the caller hands over to next, to check if
    /// it results in success or failure, revert on failure, and go on with
    /// `ok` or `nok`.
    ///
    /// This captures the current state of the tokenizer.  When the states
    /// that follow end in `Okay`, the driver goes on with `ok`.  When they
    /// end in `Nok`, the captured state is applied and the driver goes on
    /// with `nok`, at the place where the attempt began.
    pub fn attempt(&mut self, ok: State, nok: State)
        requires
            old(self).wf(),
            old(self).resumable(ok, old(self).attempts.len() as int),
            old(self).resumable(nok, old(self).attempts.len() as int),
        ensures
            final(self).attempting(
                old(self),
                ok,
                nok,
                AttemptKind::Attempt,
                Seq::<StateName>::empty(),
            ),
            final(self).follows(old(self)),
    {
        self.begin(ok, nok, AttemptKind::Attempt, Vec::new());
    }

    /// Parse with the state that the caller hands over to next, to check if
    /// it results in success or failure, revert in both cases, and go on
    /// with `ok` or `nok`.
    pub fn check(&mut self, ok: State, nok: State)
        requires
            old(self).wf(),
            old(self).resumable(ok, old(self).attempts.len() as int),
            old(self).resumable(nok, old(self).attempts.len() as int),
        ensures
            final(self).attempting(
                old(self),
                ok,
                nok,
                AttemptKind::Check,
                Seq::<StateName>::empty(),
            ),
            final(self).follows(old(self)),
    {
        self.begin(ok, nok, AttemptKind::Check, Vec::new());
    }

    /// Just like an attempt, but for when you don't care about the outcome:
    /// the driver goes on with `after` either way.
    pub fn attempt_opt(&mut self, after: State)
        requires
            old(self).wf(),
            old(self).resumable(after, old(self).attempts.len() as int),
        ensures
            final(self).attempting(
                old(self),
                after,
                after,
                AttemptKind::Attempt,
                Seq::<StateName>::empty(),
            ),
            final(self).follows(old(self)),
    {
        self.attempt(after, after);
    }

    /// Parse with the state that the caller hands over to next, go on with
    /// `after` when it is successful, and pass a failure back up.
    ///
    /// Nothing is undone on failure, as it is assumed that this is itself
    /// wrapped in another attempt.
    pub fn go(&mut self, after: State)
        requires
            old(self).wf(),
            old(self).resumable(after, old(self).attempts.len() as int),
        ensures
            final(self).attempting(
                old(self),
                after,
                State::Nok,
                AttemptKind::Go,
                Seq::<StateName>::empty(),
            ),
            final(self).follows(old(self)),
    {
        self.begin(after, State::Nok, AttemptKind::Go, Vec::new());
    }

    /// Parse with the state that the caller hands over to next until that
    /// state and its successors end, or until they ask for the next code
    /// right after one of the codes `until`, and go on with `done` either
    /// way.
    ///
    /// Nothing is undone.  What became of the states is left in `paused`:
    /// the state that waits for the next code, or the state in which they
    /// ended.
    pub fn go_until(&mut self, until: Vec<Code>, done: State)
        requires
            old(self).wf(),
            old(self).resumable(done, old(self).attempts.len() as int),
        ensures
            *final(self) == (Tokenizer { attempts: final(self).attempts, ..*old(self) }),
            final(self).attempts.len() == old(self).attempts.len() + 1,
            final(self).attempts@.drop_last() == old(self).attempts@,
            final(self).attempts@.last().ok == done,
            final(self).attempts@.last().nok == done,
            final(self).attempts@.last().kind == AttemptKind::Until,
            final(self).attempts@.last().progress == old(self).captured(),
            final(self).attempts@.last().rest@ == Seq::<StateName>::empty(),
            final(self).attempts@.last().until@ == until@,
            final(self).follows(old(self)),
    {
        let progress = self.capture();
        self.attempts.push(
            Attempt {
                ok: done,
                nok: done,
                kind: AttemptKind::Until,
                progress,
                rest: Vec::new(),
                until,
            },
        );
        proof {
            assert(self.attempts@.drop_last() =~= old(self).attempts@);
            self.lemma_begun_follows(old(self));
        }
    }

    /// Just like an attempt, but many: the states are tried in turn, each
    /// from the place where the first began, and the first that succeeds
    /// wins.
    ///
    /// Returns the state to hand over to: a retry of the first of
    /// `state_names`.  With no state to try, nothing is registered and the
    /// result is `nok`, turned into a retry as the current code still stands.
    pub fn attempt_n(&mut self, state_names: Vec<StateName>, ok: State, nok: State) -> (next: State)
        requires
            old(self).wf(),
            !old(self).consumed,
            old(self).resumable(ok, old(self).attempts.len() as int),
            old(self).resumable(nok, old(self).attempts.len() as int),
            forall|k: int| 0 <= k < state_names.len() ==> !(#[trigger] state_names[k]).is_document(),
        ensures
            state_names.len() == 0 ==> *final(self) == *old(self) && next == match nok {
                State::Next(name) => State::Retry(name),
                _ => nok,
            },
            state_names.len() > 0 ==> {
                &&& next == State::Retry(state_names[0])
                &&& final(self).attempting(
                    old(self),
                    ok,
                    nok,
                    AttemptKind::Attempt,
                    state_names@.skip(1),
                )
            },
            final(self).follows(old(self)),
            final(self).admits(next),
    {
        let mut state_names = state_names;
        if state_names.len() == 0 {
            proof {
                self.lemma_moved_follows(old(self));
            }
            match nok {
                State::Next(name) => State::Retry(name),
                _ => nok,
            }
        } else {
            let first = state_names.remove(0);
            self.begin(ok, nok, AttemptKind::Attempt, state_names);
            State::Retry(first)
        }
    }
}


impl<'a> Tokenizer<'a> {
    /// Whether a run until some code is to be paused before the next code is
    /// fed: the innermost attempt is such a run, codes were passed since it
    /// began, and the previous code is one of those it waits for.
    pub open spec fn pauses(&self) -> bool {
        &&& self.attempts.len() > 0
        &&& self.attempts@.last().kind == AttemptKind::Until
        &&& self.index > self.attempts@.last().progress.index
        &&& self.attempts@.last().until@.contains(self.previous)
    }

    /// Whether a run until some code is to be paused before the next code is
    /// fed.
    pub fn is_pausing(&self) -> (r: bool)
        ensures
            r == self.pauses(),
    {
        if self.attempts.len() == 0 {
            return false;
        }
        let attempt = &self.attempts[self.attempts.len() - 1];
        match attempt.kind {
            AttemptKind::Until => {},
            _ => {
                return false;
            },
        }
        if self.index <= attempt.progress.index {
            return false;
        }
        let mut index: usize = 0;
        while index < attempt.until.len()
            invariant
                self.attempts.len() > 0,
                *attempt == self.attempts@.last(),
                attempt.kind == AttemptKind::Until,
                self.index > attempt.progress.index,
                index <= attempt.until.len(),
                forall|i: int| 0 <= i < index ==> attempt.until[i] != self.previous,
            decreases attempt.until.len() - index,
        {
            if attempt.until[index] == self.previous {
                assert(attempt.until@[index as int] == self.previous);
                return true;
            }
            index += 1;
        }
        false
    }

    /// Prepare for a next code to get consumed.
    ///
    /// The code is the one at the current index, or the end of the input.
    pub fn expect(&mut self, code: Code)
        requires
            old(self).wf(),
            old(self).consumed,
            code == Code::End || (old(self).index < old(self).parse_state.codes.len() && code
                == old(self).parse_state.codes[old(self).index as int]),
        ensures
            *final(self) == (Tokenizer { consumed: false, current: code, ..*old(self) }),
            final(self).follows(old(self)),
    {
        self.consumed = false;
        self.current = code;
        proof {
            self.lemma_moved_follows(old(self));
        }
    }

    /// Whether `self` and `step` are what one step of bookkeeping makes of
    /// `old` and `state`, with codes fed up to `to` and, when `flush` is
    /// set, the end of the input fed from there on.
    ///
    /// - `Okay` or `Nok` with no attempt under way halts the machine.
    /// - `Okay` or `Nok` with attempts under way ends the innermost: a check
    ///   is always undone, an attempt is undone on `Nok`, a go and a run
    ///   until some code never.  The tokenizer then waits for a code.  An
    ///   attempt that fails and has states left to try begins again with the
    ///   first of them; otherwise the machine goes on with what the attempt
    ///   names for the outcome.  A run until some code leaves the outcome in
    ///   `paused`.
    /// - `Next`, when the innermost attempt is a run until some code, codes
    ///   were passed since it began and the previous code is one of those it
    ///   waits for, pauses the run: the attempt ends, the state is left in
    ///   `paused`, and the machine goes on with what the attempt names.
    /// - `Next` otherwise feeds the code at the current index, or the end of
    ///   the input, to the named state; with neither to feed, the machine
    ///   halts.
    /// - `Retry` hands the current code to the named state.
    pub open spec fn stepped(
        &self,
        old: &Tokenizer,
        state: State,
        to: usize,
        flush: bool,
        step: Step,
    ) -> bool {
        match state {
            State::Okay | State::Nok => if old.attempts.len() == 0 {
                *self == *old && step == Step::Halt(state)
            } else {
                let attempt = old.attempts@.last();
                let failed = state == State::Nok && attempt.kind == AttemptKind::Attempt;
                let undo = attempt.kind == AttemptKind::Check || failed;
                &&& self.consumed
                &&& if undo {
                    self.restored(old, attempt.progress)
                } else {
                    self.restored(old, old.captured())
                }
                &&& self.paused == if attempt.kind == AttemptKind::Until {
                    Some(state)
                } else {
                    old.paused
                }
                &&& *self == (Tokenizer {
                    attempts: self.attempts,
                    consumed: true,
                    paused: self.paused,
                    events: self.events,
                    stack: self.stack,
                    definitions: self.definitions,
                    index: self.index,
                    point: self.point,
                    previous: self.previous,
                    current: self.current,
                    ..*old
                })
                &&& if failed && attempt.rest.len() > 0 {
                    &&& step == Step::Goto(State::Next(attempt.rest[0]))
                    &&& self.attempts.len() == old.attempts.len()
                    &&& self.attempts@.drop_last() == old.attempts@.drop_last()
                    &&& self.attempts@.last().ok == attempt.ok
                    &&& self.attempts@.last().nok == attempt.nok
                    &&& self.attempts@.last().kind == attempt.kind
                    &&& self.attempts@.last().progress == attempt.progress
                    &&& self.attempts@.last().rest@ == attempt.rest@.skip(1)
                    &&& self.attempts@.last().until@ == attempt.until@
                } else {
                    &&& step == Step::Goto(
                        if state == State::Okay {
                            attempt.ok
                        } else {
                            attempt.nok
                        },
                    )
                    &&& self.attempts@ == old.attempts@.drop_last()
                }
            },
            State::Next(name) => if old.pauses() {
                &&& step == Step::Goto(old.attempts@.last().ok)
                &&& self.attempts@ == old.attempts@.drop_last()
                &&& *self == (Tokenizer { attempts: self.attempts, paused: Some(state), ..*old })
            } else if old.index < to {
                &&& step == Step::Call(name)
                &&& *self == (Tokenizer {
                    consumed: false,
                    current: old.parse_state.codes[old.index as int],
                    ..*old
                })
            } else if flush {
                &&& step == Step::Call(name)
                &&& *self == (Tokenizer { consumed: false, current: Code::End, ..*old })
            } else {
                *self == *old && step == Step::Halt(state)
            },
            State::Retry(name) => *self == *old && step == Step::Call(name),
        }
    }

    /// Take one step of bookkeeping for `state`, the outcome of the state
    /// that ran last, and tell the driver what to do next.
    pub fn step(&mut self, state: State, to: usize, flush: bool) -> (step: Step)
        requires
            old(self).wf(),
            old(self).admits(state),
            to <= old(self).parse_state.codes.len(),
        ensures
            final(self).stepped(old(self), state, to, flush, step),
            final(self).wf(),
            final(self).parse_state == old(self).parse_state,
            final(self).child is None && old(self).orderly() ==> final(self).orderly(),
            match step {
                Step::Call(name) => !final(self).consumed && final(self).ready(name),
                Step::Goto(next) => final(self).admits(next),
                Step::Halt(last) => last == state,
            },
    {
        match state {
            State::Okay | State::Nok => {
                if self.attempts.len() == 0 {
                    return Step::Halt(state);
                }
                match self.attempts.pop() {
                    None => Step::Halt(state),
                    Some(attempt) => {
                        let failed = match (state, attempt.kind) {
                            (State::Nok, AttemptKind::Attempt) => true,
                            _ => false,
                        };
                        let undo = match attempt.kind {
                            AttemptKind::Check => true,
                            _ => failed,
                        };
                        proof {
                            let depth = old(self).attempts.len() - 1;
                            assert(old(self).attempt_wf(depth));
                            assert(self.attempts@ =~= old(self).attempts@.take(depth));
                            assert(self.attempts@ =~= old(self).attempts@.drop_last());
                        }
                        if undo {
                            self.free(attempt.progress);
                        }
                        self.consumed = true;
                        match attempt.kind {
                            AttemptKind::Until => {
                                self.paused = Some(state);
                            },
                            _ => {},
                        }
                        proof {
                            assert(self.events@ =~= old(self).events@.take(
                                self.events.len() as int,
                            ));
                            assert(self.stack@ =~= old(self).stack@.take(self.stack.len() as int));
                            assert(self.definitions@ =~= old(self).definitions@.take(
                                self.definitions.len() as int,
                            ));
                            self.lemma_ended_wf(old(self), undo);
                        }
                        let Attempt { ok, nok, kind, progress, rest, until } = attempt;
                        let mut rest = rest;
                        if failed && rest.len() > 0 {
                            let ghost ended = *self;
                            let first = rest.remove(0);
                            self.attempts.push(Attempt { ok, nok, kind, progress, rest, until });
                            proof {
                                assert(self.attempts@.drop_last() =~= old(
                                    self,
                                ).attempts@.drop_last());
                                assert(old(self).attempts@.last().rest[0] == first);
                                assert(rest@ =~= old(self).attempts@.last().rest@.skip(1));
                                self.lemma_begun_follows(&ended);
                            }
                            Step::Goto(State::Next(first))
                        } else {
                            match state {
                                State::Okay => Step::Goto(ok),
                                _ => Step::Goto(nok),
                            }
                        }
                    },
                }
            },
            State::Next(name) => {
                if self.is_pausing() {
                    match self.attempts.pop() {
                        Some(attempt) => {
                            self.paused = Some(state);
                            proof {
                                let depth = old(self).attempts.len() - 1;
                                assert(old(self).attempt_wf(depth));
                                assert(self.attempts@ =~= old(self).attempts@.drop_last());
                                assert(self.events@ =~= old(self).events@.take(
                                    self.events.len() as int,
                                ));
                                assert(self.stack@ =~= old(self).stack@.take(
                                    self.stack.len() as int,
                                ));
                                assert(self.definitions@ =~= old(self).definitions@.take(
                                    self.definitions.len() as int,
                                ));
                                self.lemma_ended_wf(old(self), false);
                            }
                            Step::Goto(attempt.ok)
                        },
                        None => Step::Halt(state),
                    }
                } else if self.index < to {
                    self.expect(self.parse_state.codes[self.index]);
                    Step::Call(name)
                } else if flush {
                    self.expect(Code::End);
                    Step::Call(name)
                } else {
                    Step::Halt(state)
                }
            },
            State::Retry(name) => Step::Call(name),
        }
    }

    /// A tokenizer whose innermost attempt ended, undone or not, is valid,
    /// and is orderly if it was.
    proof fn lemma_ended_wf(&self, old: &Tokenizer, undo: bool)
        requires
            old.wf(),
            old.attempts.len() > 0,
            self.attempts@ == old.attempts@.drop_last(),
            self.consumed,
            if undo {
                self.restored(old, old.attempts@.last().progress)
            } else {
                self.restored(old, old.captured())
            },
            *self == (Tokenizer {
                attempts: self.attempts,
                consumed: true,
                paused: self.paused,
                events: self.events,
                stack: self.stack,
                definitions: self.definitions,
                index: self.index,
                point: self.point,
                previous: self.previous,
                current: self.current,
                ..*old
            }),
        ensures
            self.wf(),
            self.child is None && old.orderly() ==> self.orderly(),
    {
        let depth = old.attempts.len() - 1;
        let top = old.attempts@.last().progress;
        assert(old.attempt_wf(depth));
        assert(self.attempts@ =~= old.attempts@.take(depth));
        match old.data_index {
            Some(i) => {
                crate::tokenizer::lemma_chained_prefix(old.events@, self.events@, i as int, None);
            },
            None => {},
        }
        if depth > 0 {
            assert(old.attempt_wf(depth - 1));
            assert(old.attempts[depth - 1].progress.below(&old.attempts[depth].progress));
        }
        self.lemma_attempts_kept(old, depth);
        if self.child is None && old.orderly() {
            assert(old.attempts[depth].progress.orderly_in(old));
            if !undo {
                assert(self.events@ =~= old.events@);
                assert(self.stack@ =~= old.stack@);
            }
            assert forall|i: int| 0 <= i < self.attempts.len() implies (
            #[trigger] self.attempts[i]).progress.orderly_in(self) by {
                let progress = old.attempts[i].progress;
                assert(old.attempts[i].progress.orderly_in(old));
                assert(old.attempt_wf(i));
                assert(old.attempts[i].progress.below(&old.attempts[depth].progress));
                assert(self.events@.take(progress.events_len as int) =~= old.events@.take(
                    progress.events_len as int,
                ));
                assert(self.stack@.take(progress.stack_len as int) =~= old.stack@.take(
                    progress.stack_len as int,
                ));
            }
        }
    }
}

/// Rollback purity: a failed attempt leaves no trace.
///
/// Let an attempt or a check begin at `before`, giving `begun`.  Let states
/// run, consume codes, enter and exit spans and make attempts of their own
/// that have all ended, giving `ran`.  Let the attempt be undone, giving
/// `after`.  Then events, stack, definitions, place and codes of `after` are
/// those of `before`.
pub proof fn lemma_failed_attempt_leaves_no_trace(
    before: &Tokenizer,
    begun: &Tokenizer,
    ran: &Tokenizer,
    after: &Tokenizer,
    ok: State,
    nok: State,
    kind: AttemptKind,
    rest: Seq<StateName>,
)
    requires
        before.wf(),
        begun.attempting(before, ok, nok, kind, rest),
        ran.follows(begun),
        ran.attempts.len() == begun.attempts.len(),
        after.restored(ran, ran.attempts@.last().progress),
    ensures
        after.events@ == before.events@,
        after.stack@ == before.stack@,
        after.definitions@ == before.definitions@,
        after.point == before.point,
        after.index == before.index,
        after.previous == before.previous,
        after.current == before.current,
{
    let progress = before.captured();
    assert(ran.attempts@.take(begun.attempts.len() as int) =~= ran.attempts@);
    assert(ran.attempts@.last().progress == progress);
    assert(before.events@.take(progress.events_len as int) =~= before.events@);
    assert(before.stack@.take(progress.stack_len as int) =~= before.stack@);
    assert(before.definitions@.take(progress.definitions_len as int) =~= before.definitions@);
}

} // verus!
