//! The tokenizer glues states from the state machine together.
//!
//! It holds everything needed to turn codes into events: the place in the
//! code stream, the events so far, the spans that are open, and the attempts
//! that may still be undone.  An attempt parses speculatively: when the state
//! it runs fails, events and position go back to where the attempt began.  A
//! check does the same but goes back even when the state succeeds.

use crate::event::{
    frontier, has_frontier, is_ordered, ordered, ContentType, Event, EventType, Point,
};
use crate::parser::{byte_offset, skip_to, Code, ParseState};
use crate::state::{State, StateName};
use crate::token::TokenType;
use std::collections::HashMap;
use vstd::prelude::*;

verus! {

/// Loose label starts we found.
#[derive(Debug, Clone, Copy)]
pub struct LabelStart {
    /// Indices of where the label starts and ends in `events`.
    pub start: (usize, usize),
    /// Whether the label start can no longer be used, because links in links
    /// are incorrect.
    pub inactive: bool,
    /// Whether the label is balanced: not media, just balanced brackets.
    pub balanced: bool,
}

/// Media we found.
#[derive(Debug)]
pub struct Media {
    /// Indices of where the media's label start starts and ends in `events`.
    pub start: (usize, usize),
    /// Indices of where the media's label end starts and ends in `events`.
    pub end: (usize, usize),
    /// Identifier.
    pub id: String,
}

/// Kinds of containers.
#[derive(Debug, Clone, Copy, PartialEq, Eq, Structural)]
pub enum Container {
    /// A block quote.
    BlockQuote,
    /// A list item.
    ListItem,
}

/// An open container.
#[derive(Debug, Clone, Copy, PartialEq, Eq, Structural)]
pub struct ContainerState {
    /// What it is.
    pub kind: Container,
    /// Whether it opened on a blank line.
    pub blank_initial: bool,
    /// Column width of its prefix.
    pub size: usize,
}

/// What an attempt puts back when it is undone.
#[derive(Debug, Clone, Copy, PartialEq, Eq, Structural)]
pub struct Progress {
    /// Length of `events`.  Events are only ever added, so undoing cuts the
    /// list back to this length.
    pub events_len: usize,
    /// Length of `stack`.  Inside an attempt the stack may not get shorter
    /// than this.
    pub stack_len: usize,
    /// Length of `definitions`.
    pub definitions_len: usize,
    /// Previous code.
    pub previous: Code,
    /// Current code.
    pub current: Code,
    /// Index of the current code in the stream.
    pub index: usize,
    /// Place in the document.
    pub point: Point,
}

/// How an attempt ends.
#[derive(Debug, Clone, Copy, PartialEq, Eq, Structural)]
pub enum AttemptKind {
    /// Undo on failure, keep on success.
    Attempt,
    /// Undo on failure and on success.
    Check,
    /// Never undo: a failure is passed on to the attempt around this one.
    Go,
    /// Never undo: run until the states end or a certain code was passed,
    /// and go on with the same state either way.
    Until,
}

/// A speculative parse that is under way.
#[derive(Debug)]
pub struct Attempt {
    /// Where to go on when the attempt succeeds.
    pub ok: State,
    /// Where to go on when the attempt fails.
    pub nok: State,
    /// How the attempt ends.
    pub kind: AttemptKind,
    /// Where the attempt began.
    pub progress: Progress,
    /// States to try next, from the same place, when this one fails.
    pub rest: Vec<StateName>,
    /// Codes after which a run that goes until then is paused.
    pub until: Vec<Code>,
}

/// A tokenizer itself.
pub struct Tokenizer<'a> {
    /// For each line with a jump: the column at which it starts.
    pub column_start: HashMap<usize, usize>,
    /// Whether the current code was consumed, that is, whether the tokenizer
    /// waits for the next code.
    pub consumed: bool,
    /// Whether this tokenizer is done.
    pub drained: bool,
    /// Semantic labels of one or more codes in the stream.
    pub events: Vec<Event>,
    /// Hierarchy of semantic labels: the spans that are open.
    pub stack: Vec<TokenType>,
    /// Previous character code.
    pub previous: Code,
    /// Current character code.
    pub current: Code,
    /// Index of the current code in the stream.
    pub index: usize,
    /// Current place in the document.
    pub point: Point,
    /// Names of the attached resolvers, in the order in which they will run
    /// when the tokenizer is done.
    pub resolvers: Vec<String>,
    /// Names of all resolvers that were ever attached.
    pub resolver_ids: Vec<String>,
    /// Names of the resolvers that have run, in the order in which they ran.
    pub resolved: Vec<String>,
    /// Shared parsing state across tokenizers.
    pub parse_state: &'a ParseState,
    /// Identifiers of the definitions found so far.
    pub definitions: Vec<String>,
    /// Stack of label starts that could form images and links.
    pub label_start_stack: Vec<LabelStart>,
    /// Stack of label starts that cannot form images and links.
    pub label_start_list_loose: Vec<LabelStart>,
    /// Stack of images and links.
    pub media_list: Vec<Media>,
    /// Whether we would be interrupting something.
    pub interrupt: bool,
    /// Whether the line is a lazy continuation.
    pub lazy: bool,
    /// Whether we are inside a construct that new containers cannot pierce.
    pub concrete: bool,
    /// Attempts under way, outermost first.
    pub attempts: Vec<Attempt>,
    /// Number of steps that the state machine may still take.
    pub budget: usize,
    /// Where the states stood that were last run until a certain code: the
    /// state in which they were paused, or the state in which they ended.
    pub paused: Option<State>,
    /// Document: the open containers, outermost first.
    pub container_stack: Vec<ContainerState>,
    /// Document: how many containers matched so far on this line.
    pub continued: usize,
    /// Document: the tokenizer that is fed the flow.
    pub child: Option<Box<Tokenizer<'a>>>,
    /// Document: where the state machine of the child stands.
    pub child_state: Option<State>,
    /// Document: index in `events` of the most recent `Data` enter.
    pub data_index: Option<usize>,
    /// Document: for each line, the container exits that were put off.
    pub exits: Vec<Option<Vec<Event>>>,
    /// Document: whether the line before ended inside a paragraph.
    pub paragraph_before: bool,
}

/// Whether the event at `index` opens a span of flow data that is linked on
/// to `next`, and that, through its `previous`, ends a chain of such spans
/// in which every link is matched by the link back.
///
/// Each link back points to an earlier event, so the chain has no cycle.
pub open spec fn chained(events: Seq<Event>, index: int, next: Option<usize>) -> bool
    decreases index + 1,
{
    &&& 0 <= index < events.len()
    &&& events[index].event_type == EventType::Enter
    &&& events[index].token_type == TokenType::Data
    &&& events[index].content_type == Some(ContentType::Flow)
    &&& events[index].next == next
    &&& match events[index].previous {
        Some(previous) => previous < index && chained(
            events,
            previous as int,
            Some(index as usize),
        ),
        None => true,
    }
}

/// A chain lives on in events that agree on everything up to its end.
pub proof fn lemma_chained_prefix(
    events: Seq<Event>,
    others: Seq<Event>,
    index: int,
    next: Option<usize>,
)
    requires
        chained(events, index, next),
        index < others.len(),
        forall|k: int| 0 <= k <= index ==> others[k] == events[k],
    ensures
        chained(others, index, next),
    decreases index + 1,
{
    match events[index].previous {
        Some(previous) => {
            lemma_chained_prefix(events, others, previous as int, Some(index as usize));
        },
        None => {},
    }
}

/// A chain that is linked on stays a chain: the link at its end is all
/// that changes.
pub proof fn lemma_chained_linked_on(
    events: Seq<Event>,
    others: Seq<Event>,
    index: int,
    next: Option<usize>,
)
    requires
        chained(events, index, None),
        index < others.len(),
        forall|k: int| 0 <= k < index ==> others[k] == events[k],
        others[index] == (Event { next, ..events[index] }),
    ensures
        chained(others, index, next),
{
    match events[index].previous {
        Some(previous) => {
            lemma_chained_prefix(events, others, previous as int, Some(index as usize));
        },
        None => {},
    }
}

/// Place reached from the start of a line when the jump registered for that
/// line is taken: up to `column - 1` bytes further on.  Elsewhere, and where
/// no jump is registered, the place itself.
pub open spec fn skipped(
    codes: Seq<Code>,
    point: Point,
    index: usize,
    column_start: Map<usize, usize>,
) -> (Point, usize) {
    if point.column == 1 && column_start.contains_key(point.line) {
        let to = skip_to(codes, index as int, column_start[point.line] - 1);
        let bytes = byte_offset(codes, to) - byte_offset(codes, index as int);
        (
            Point {
                line: point.line,
                column: (1 + bytes) as usize,
                offset: (point.offset + bytes) as usize,
            },
            to as usize,
        )
    } else {
        (point, index)
    }
}

/// Place reached by consuming `code`.
///
/// A line ending starts a new line and takes the jump registered for it; a
/// virtual space moves on in the stream only; the end of the input moves
/// nothing; any other character moves on by one column and one byte.
pub open spec fn advanced(
    codes: Seq<Code>,
    point: Point,
    index: usize,
    code: Code,
    column_start: Map<usize, usize>,
) -> (Point, usize) {
    if code == Code::End {
        (point, index)
    } else if code == Code::VirtualSpace {
        (point, (index + 1) as usize)
    } else if code.is_eol() {
        skipped(
            codes,
            Point {
                line: (point.line + 1) as usize,
                column: 1,
                offset: (point.offset + code.width()) as usize,
            },
            (index + 1) as usize,
            column_start,
        )
    } else {
        (
            Point {
                line: point.line,
                column: (point.column + 1) as usize,
                offset: (point.offset + 1) as usize,
            },
            (index + 1) as usize,
        )
    }
}

impl Progress {
    /// Whether going back to this progress is possible in `tokenizer`.
    pub open spec fn within(&self, tokenizer: &Tokenizer) -> bool {
        &&& self.events_len <= tokenizer.events.len()
        &&& self.stack_len <= tokenizer.stack.len()
        &&& self.definitions_len <= tokenizer.definitions.len()
        &&& tokenizer.parse_state.locates(self.point, self.index)
        &&& tokenizer.data_index matches Some(i) ==> i < self.events_len
    }

    /// Whether this progress was taken no later than `other`.
    pub open spec fn below(&self, other: &Progress) -> bool {
        &&& self.events_len <= other.events_len
        &&& self.stack_len <= other.stack_len
        &&& self.definitions_len <= other.definitions_len
    }

    /// Whether going back to this progress leaves nested and ordered events.
    pub open spec fn orderly_in(&self, tokenizer: &Tokenizer) -> bool {
        &&& frontier(tokenizer.events@.take(self.events_len as int)) == Some(
            tokenizer.stack@.take(self.stack_len as int),
        )
        &&& self.events_len > 0 ==> tokenizer.events[self.events_len - 1].point.offset
            <= self.point.offset
    }
}

impl<'a> Tokenizer<'a> {
    /// What the document driver needs of its own bookkeeping in state `name`.
    pub open spec fn document_ready(&self, name: StateName) -> bool {
        &&& !(name is DocumentStart) ==> self.child is Some
        &&& name.has_tentative() || name is DocumentContainerExistingAfter ==> self.continued
            < self.container_stack.len()
        &&& self.exits.len() == 0 ==> self.container_stack.len() <= self.continued + if name.has_tentative() {
            1int
        } else {
            0int
        }
    }

    /// Whether the open `Data` span can be closed or carried on.
    pub open spec fn in_data(&self) -> bool {
        &&& self.stack.len() > 0
        &&& self.stack@.last() == TokenType::Data
        &&& self.events.len() > 0
        &&& self.events@.last().index <= self.index
    }

    /// Whether state `name` may be run on the current code.
    pub open spec fn ready(&self, name: StateName) -> bool {
        name.is_document() ==> {
            &&& self.attempts.len() == 0
            &&& self.document_ready(name)
            &&& name is DocumentFlowInside ==> {
                &&& self.in_data()
                &&& self.current == Code::End ==> self.events@.last().index < self.index
            }
        }
    }

    /// Whether state `name` may be run on whatever code is fed next.
    pub open spec fn ready_fed(&self, name: StateName) -> bool {
        name.is_document() ==> {
            &&& self.attempts.len() == 0
            &&& self.document_ready(name)
            &&& name is DocumentFlowInside ==> {
                &&& self.in_data()
                &&& self.events@.last().index < self.index
            }
        }
    }

    /// Whether `state` may be handed to the driver as the outcome of a state.
    ///
    /// A state that asks for the next code has consumed the current one, and
    /// a state that retries has not.
    pub open spec fn admits(&self, state: State) -> bool {
        match state {
            State::Next(name) => self.consumed && self.ready_fed(name),
            State::Retry(name) => !self.consumed && self.ready(name),
            State::Okay | State::Nok => true,
        }
    }

    /// Whether an attempt at depth `depth` may go on in `state` when it ends.
    ///
    /// An attempt never goes on with a retry, as its end leaves no code
    /// standing.  States of the document driver wait only at the bottom.
    pub open spec fn resumable(&self, state: State, depth: int) -> bool {
        match state {
            State::Next(name) => name.is_document() ==> {
                &&& depth == 0
                &&& self.document_ready(name)
                &&& !(name is DocumentFlowInside)
            },
            State::Retry(_) => false,
            State::Okay | State::Nok => true,
        }
    }

    /// Validity of the attempt at depth `depth`.
    pub open spec fn attempt_wf(&self, depth: int) -> bool {
        let attempt = self.attempts[depth];
        &&& attempt.progress.within(self)
        &&& self.resumable(attempt.ok, depth)
        &&& self.resumable(attempt.nok, depth)
        &&& forall|k: int| 0 <= k < attempt.rest.len() ==> !(#[trigger] attempt.rest[k]).is_document()
    }

    /// Validity of a tokenizer by itself, its child left aside.
    pub open spec fn core_wf(&self) -> bool {
        &&& self.parse_state.wf()
        &&& self.parse_state.locates(self.point, self.index)
        &&& !self.consumed ==> self.current == Code::End || (self.index
            < self.parse_state.codes.len() && self.current
            == self.parse_state.codes[self.index as int])
        &&& forall|line: usize| #[trigger]
            self.column_start@.contains_key(line) ==> self.column_start@[line] >= 1
        &&& self.data_index matches Some(i) ==> chained(self.events@, i as int, None)
        &&& self.continued <= self.container_stack.len()
        &&& self.attempts_wf()
    }

    /// Every attempt can be undone and gone on from, and an inner attempt
    /// began no earlier than the attempts around it.
    pub open spec fn attempts_wf(&self) -> bool {
        &&& forall|i: int| 0 <= i < self.attempts.len() ==> self.attempt_wf(i)
        &&& forall|i: int, j: int|
            0 <= i <= j < self.attempts.len() ==> (#[trigger] self.attempts[i]).progress.below(
                &(#[trigger] self.attempts[j]).progress,
            )
    }

    /// Validity of a tokenizer: place and stream agree, every attempt can
    /// be undone, and a child, where there is one, is valid, reads the same
    /// stream and can be fed from the state in which it was suspended.
    pub open spec fn wf(&self) -> bool
        decreases self,
    {
        &&& self.core_wf()
        &&& match self.child {
            Some(child) => {
                &&& child.wf()
                &&& child.parse_state == self.parse_state
                &&& !child.drained
                &&& match self.child_state {
                    Some(state) => child.admits(state),
                    None => child.consumed,
                }
            },
            None => true,
        }
    }

    /// The events are nested with the stack as their open frontier and
    /// ordered by offset up to the current place, and the same holds of what
    /// every attempt would go back to.
    pub open spec fn orderly(&self) -> bool {
        &&& frontier(self.events@) == Some(self.stack@)
        &&& ordered(self.events@)
        &&& self.events.len() > 0 ==> self.events@.last().point.offset <= self.point.offset
        &&& forall|i: int|
            0 <= i < self.attempts.len() ==> (#[trigger] self.attempts[i]).progress.orderly_in(self)
    }

    /// Length below which the stack may not shrink: what the innermost
    /// attempt would go back to.
    pub open spec fn stack_floor(&self) -> int {
        if self.attempts.len() > 0 {
            self.attempts@.last().progress.stack_len as int
        } else {
            0
        }
    }

    /// Whether `self` can be what became of `old` while states ran.
    ///
    /// The tokenizer stays valid and reads the same stream; attempts were
    /// added only; a child is not given up; what the innermost attempt of
    /// `old` would go back to is untouched; and a tokenizer that drives no
    /// document keeps its events nested and ordered.
    pub open spec fn follows(&self, old: &Tokenizer) -> bool {
        &&& self.wf()
        &&& self.parse_state == old.parse_state
        &&& old.attempts.len() <= self.attempts.len()
        &&& self.attempts@.take(old.attempts.len() as int) == old.attempts@
        &&& old.child is Some ==> self.child is Some
        &&& old.attempts.len() > 0 ==> {
            let floor = old.attempts@.last().progress;
            &&& self.events@.take(floor.events_len as int) == old.events@.take(
                floor.events_len as int,
            )
            &&& self.stack@.take(floor.stack_len as int) == old.stack@.take(floor.stack_len as int)
            &&& self.definitions@.take(floor.definitions_len as int) == old.definitions@.take(
                floor.definitions_len as int,
            )
        }
        &&& self.child is None && old.orderly() ==> self.orderly()
    }

    /// Whether the tokenizer is as new: it stands at the given place of the
    /// stream, waits for its first code, and holds nothing else.
    pub open spec fn fresh(&self, point: Point, index: usize, parse_state: &ParseState) -> bool {
        &&& self.parse_state == parse_state
        &&& self.point == point
        &&& self.index == index
        &&& self.previous == Code::End
        &&& self.current == Code::End
        &&& self.consumed
        &&& !self.drained
        &&& self.events.len() == 0
        &&& self.stack.len() == 0
        &&& self.attempts.len() == 0
        &&& self.column_start@ == Map::<usize, usize>::empty()
        &&& self.resolvers.len() == 0
        &&& self.resolver_ids.len() == 0
        &&& self.resolved.len() == 0
        &&& self.definitions.len() == 0
        &&& self.label_start_stack.len() == 0
        &&& self.label_start_list_loose.len() == 0
        &&& self.media_list.len() == 0
        &&& self.container_stack.len() == 0
        &&& self.exits.len() == 0
        &&& self.continued == 0
        &&& self.child is None
        &&& self.child_state is None
        &&& self.data_index is None
        &&& !self.paragraph_before
        &&& !self.interrupt
        &&& !self.lazy
        &&& !self.concrete
        &&& self.budget == usize::MAX
        &&& self.paused is None
    }

    /// Create a new tokenizer.
    pub fn new(point: Point, index: usize, parse_state: &'a ParseState) -> (tokenizer: Tokenizer<
        'a,
    >)
        requires
            parse_state.wf(),
            parse_state.locates(point, index),
        ensures
            tokenizer.fresh(point, index, parse_state),
            tokenizer.wf(),
            tokenizer.orderly(),
    {
        let tokenizer = Tokenizer {
            previous: Code::End,
            current: Code::End,
            column_start: HashMap::new(),
            index,
            consumed: true,
            drained: false,
            point,
            stack: Vec::new(),
            events: Vec::new(),
            parse_state,
            definitions: Vec::new(),
            label_start_stack: Vec::new(),
            label_start_list_loose: Vec::new(),
            media_list: Vec::new(),
            interrupt: false,
            lazy: false,
            concrete: false,
            resolvers: Vec::new(),
            resolver_ids: Vec::new(),
            resolved: Vec::new(),
            attempts: Vec::new(),
            budget: usize::MAX,
            paused: None,
            container_stack: Vec::new(),
            continued: 0,
            child: None,
            child_state: None,
            data_index: None,
            exits: Vec::new(),
            paragraph_before: false,
        };
        proof {
            assert(tokenizer.stack@ =~= Seq::<TokenType>::empty());
        }
        tokenizer
    }
}


impl<'a> Tokenizer<'a> {
    /// Take the jump registered for the current line, if the tokenizer
    /// stands at the start of that line.
    fn account_for_potential_skip(&mut self)
        requires
            old(self).parse_state.wf(),
            old(self).parse_state.locates(old(self).point, old(self).index),
            forall|line: usize| #[trigger]
                old(self).column_start@.contains_key(line) ==> old(self).column_start@[line] >= 1,
        ensures
            (final(self).point, final(self).index) == skipped(
                old(self).parse_state.codes@,
                old(self).point,
                old(self).index,
                old(self).column_start@,
            ),
            *final(self) == (Tokenizer {
                point: final(self).point,
                index: final(self).index,
                ..*old(self)
            }),
            final(self).parse_state.locates(final(self).point, final(self).index),
            final(self).point.line == old(self).point.line,
            final(self).point.offset >= old(self).point.offset,
            final(self).index >= old(self).index,
    {
        if self.point.column == 1 {
            let column = match self.column_start.get(&self.point.line) {
                Some(next_column) => Some(*next_column),
                None => None,
            };
            match column {
                None => {},
                Some(next_column) => {
                    let mut left: usize = next_column - 1;
                    let ghost codes = self.parse_state.codes@;
                    let ghost target = skip_to(codes, self.index as int, left as int);
                    proof {
                        crate::parser::lemma_byte_offset_bounds(codes, self.index as int);
                    }
                    while left > 0 && self.index < self.parse_state.codes.len()
                        && !self.parse_state.codes[self.index].ends_line()
                        invariant
                            codes == self.parse_state.codes@,
                            self.parse_state.wf(),
                            old(self).index <= self.index <= codes.len(),
                            skip_to(codes, self.index as int, left as int) == target,
                            self.point.offset == byte_offset(codes, self.index as int),
                            self.point.offset - old(self).point.offset == self.point.column - 1,
                            self.point.offset >= old(self).point.offset,
                            self.point.line == old(self).point.line,
                            *self == (Tokenizer { point: self.point, index: self.index, ..*old(self) }),
                        decreases codes.len() - self.index,
                    {
                        let size = self.parse_state.codes[self.index].size();
                        proof {
                            crate::parser::lemma_byte_offset_bounds(codes, self.index + 1);
                        }
                        self.point.column += size;
                        self.point.offset += size;
                        self.index += 1;
                        left -= size;
                    }
                },
            }
        }
    }

    /// Move past the code at the current index.
    pub fn move_one(&mut self)
        requires
            old(self).parse_state.wf(),
            old(self).parse_state.locates(old(self).point, old(self).index),
            forall|line: usize| #[trigger]
                old(self).column_start@.contains_key(line) ==> old(self).column_start@[line] >= 1,
            old(self).index < old(self).parse_state.codes.len(),
        ensures
            (final(self).point, final(self).index) == advanced(
                old(self).parse_state.codes@,
                old(self).point,
                old(self).index,
                old(self).parse_state.codes[old(self).index as int],
                old(self).column_start@,
            ),
            *final(self) == (Tokenizer {
                point: final(self).point,
                index: final(self).index,
                ..*old(self)
            }),
            final(self).parse_state.locates(final(self).point, final(self).index),
            final(self).point.offset >= old(self).point.offset,
            final(self).index > old(self).index,
    {
        proof {
            crate::parser::lemma_byte_offset_bounds(
                self.parse_state.codes@,
                self.index as int,
            );
            crate::parser::lemma_byte_offset_bounds(self.parse_state.codes@, self.index + 1);
        }
        match self.parse_state.codes[self.index] {
            Code::End => {},
            Code::VirtualSpace => {
                self.index += 1;
            },
            Code::CarriageReturnLineFeed => {
                self.point.line += 1;
                self.point.column = 1;
                self.point.offset += 2;
                self.index += 1;
                self.account_for_potential_skip();
            },
            Code::Char(char) => {
                if char == '\n' || char == '\r' {
                    self.point.line += 1;
                    self.point.column = 1;
                    self.point.offset += 1;
                    self.index += 1;
                    self.account_for_potential_skip();
                } else {
                    self.point.column += 1;
                    self.point.offset += 1;
                    self.index += 1;
                }
            },
        }
    }

    /// Whether `self` is `old` after a jump was defined at `point`: the jump
    /// is on record, and was taken at once if `old` stood at the start of
    /// that line, waiting for its next code.
    pub open spec fn skip_defined(&self, old: &Tokenizer, point: Point) -> bool {
        &&& self.column_start@ == old.column_start@.insert(point.line, point.column)
        &&& (self.point, self.index) == if old.consumed {
            skipped(old.parse_state.codes@, old.point, old.index, self.column_start@)
        } else {
            (old.point, old.index)
        }
        &&& *self == (Tokenizer {
            column_start: self.column_start,
            point: self.point,
            index: self.index,
            ..*old
        })
    }

    /// Define a jump between two places.
    ///
    /// This records that the line of `point` starts at the column of `point`.
    /// When a line ending is consumed, the jump registered for the new line
    /// is taken at once.  A tokenizer that already stands at the start of
    /// that line, waiting for its next code, takes the jump now.
    pub fn define_skip(&mut self, point: &Point)
        requires
            old(self).wf(),
            point.column >= 1,
        ensures
            final(self).skip_defined(old(self), *point),
            final(self).index >= old(self).index,
            final(self).follows(old(self)),
    {
        self.column_start.insert(point.line, point.column);
        if self.consumed {
            self.account_for_potential_skip();
        }
        proof {
            self.lemma_moved_follows(old(self));
        }
    }

    /// Consume the current character.
    ///
    /// Each state is expected to call this to signal that the code is used,
    /// or to hand the code on to another state.
    pub fn consume(&mut self, code: Code)
        requires
            old(self).wf(),
            code == old(self).current,
            !old(self).consumed,
        ensures
            (final(self).point, final(self).index) == advanced(
                old(self).parse_state.codes@,
                old(self).point,
                old(self).index,
                code,
                old(self).column_start@,
            ),
            final(self).previous == code,
            final(self).consumed,
            *final(self) == (Tokenizer {
                point: final(self).point,
                index: final(self).index,
                previous: code,
                consumed: true,
                ..*old(self)
            }),
            final(self).index >= old(self).index,
            code != Code::End ==> final(self).index > old(self).index,
            final(self).point.offset >= old(self).point.offset,
            final(self).follows(old(self)),
    {
        match code {
            Code::End => {},
            _ => {
                self.move_one();
            },
        }
        self.previous = code;
        // Mark as consumed.
        self.consumed = true;
        proof {
            self.lemma_moved_follows(old(self));
        }
    }

    /// The outermost `kept` attempts of `old` stay valid in a tokenizer that
    /// holds no other attempts, can still go back to the innermost of them,
    /// and has the same stream and document bookkeeping.
    pub proof fn lemma_attempts_kept(&self, old: &Tokenizer, kept: int)
        requires
            old.attempts_wf(),
            0 <= kept <= old.attempts.len(),
            self.attempts@ == old.attempts@.take(kept),
            self.parse_state == old.parse_state,
            self.data_index == old.data_index,
            self.child is Some == old.child is Some,
            self.continued == old.continued,
            self.container_stack.len() == old.container_stack.len(),
            self.exits.len() == old.exits.len(),
            kept > 0 ==> {
                let top = old.attempts[kept - 1].progress;
                &&& top.events_len <= self.events.len()
                &&& top.stack_len <= self.stack.len()
                &&& top.definitions_len <= self.definitions.len()
            },
        ensures
            self.attempts_wf(),
    {
        assert forall|i: int| 0 <= i < self.attempts.len() implies self.attempt_wf(i) by {
            assert(old.attempt_wf(i));
            assert(old.attempts[i].progress.below(&old.attempts[kept - 1].progress));
        }
    }

    /// The stack of a valid tokenizer is no shorter than its floor.
    pub proof fn lemma_floor_within(&self)
        requires
            self.wf(),
        ensures
            self.stack_floor() <= self.stack.len(),
    {
        if self.attempts.len() > 0 {
            assert(self.attempt_wf(self.attempts.len() - 1));
        }
    }

    /// What follows what followed something follows that something.
    pub proof fn lemma_follows_transitive(&self, middle: &Tokenizer, old: &Tokenizer)
        requires
            old.wf(),
            middle.follows(old),
            self.follows(middle),
        ensures
            self.follows(old),
    {
        let depth = old.attempts.len() as int;
        assert(self.attempts@.take(depth) =~= self.attempts@.take(
            middle.attempts.len() as int,
        ).take(depth));
        if depth > 0 {
            let floor = old.attempts@.last().progress;
            let later = middle.attempts@.last().progress;
            assert(middle.attempts[depth - 1] == old.attempts[depth - 1]);
            let top = middle.attempts.len() - 1;
            assert(middle.attempts[depth - 1].progress.below(&middle.attempts[top].progress));
            assert(middle.attempt_wf(top));
            assert(self.attempts@.take(middle.attempts.len() as int)[top] == self.attempts[top]);
            assert(self.attempt_wf(top));
            assert(self.events@.take(floor.events_len as int) =~= self.events@.take(
                later.events_len as int,
            ).take(floor.events_len as int));
            assert(middle.events@.take(floor.events_len as int) =~= middle.events@.take(
                later.events_len as int,
            ).take(floor.events_len as int));
            assert(self.stack@.take(floor.stack_len as int) =~= self.stack@.take(
                later.stack_len as int,
            ).take(floor.stack_len as int));
            assert(middle.stack@.take(floor.stack_len as int) =~= middle.stack@.take(
                later.stack_len as int,
            ).take(floor.stack_len as int));
            assert(self.definitions@.take(floor.definitions_len as int)
                =~= self.definitions@.take(later.definitions_len as int).take(
                floor.definitions_len as int,
            ));
            assert(middle.definitions@.take(floor.definitions_len as int)
                =~= middle.definitions@.take(later.definitions_len as int).take(
                floor.definitions_len as int,
            ));
        }
    }

    /// Well-nested events: in a tokenizer that has kept its events orderly
    /// and has no span open, every exit closes the most recent open enter of
    /// its name, and nothing stays open.
    pub proof fn lemma_orderly_is_well_nested(&self)
        requires
            self.orderly(),
            self.stack.len() == 0,
        ensures
            crate::event::well_nested(self.events@),
    {
        assert(self.stack@ =~= Seq::<TokenType>::empty());
    }

    /// Monotonic position: in a tokenizer that has kept its events orderly,
    /// no event lies before the one that precedes it, and the same holds
    /// among the enters and among the exits.
    pub proof fn lemma_orderly_is_monotonic(&self)
        requires
            self.orderly(),
        ensures
            forall|i: int|
                0 <= i && i + 1 < self.events.len() ==> self.events[i].point.offset <= (
                #[trigger] self.events[i + 1]).point.offset,
            forall|i: int, j: int|
                0 <= i <= j < self.events.len() && self.events[i].event_type == self.events[j].event_type
                    ==> self.events[i].point.offset <= self.events[j].point.offset,
    {
    }

    /// With no attempt under way, any valid tokenizer on the same stream that
    /// gave up no child and kept its events orderly follows what it was.
    pub proof fn lemma_bottom_follows(&self, old: &Tokenizer)
        requires
            old.attempts.len() == 0,
            self.wf(),
            self.parse_state == old.parse_state,
            old.child is Some ==> self.child is Some,
            self.child is None && old.orderly() ==> self.orderly(),
        ensures
            self.follows(old),
    {
        assert(self.attempts@.take(0) =~= old.attempts@);
    }

    /// A tokenizer that only moved forward, or changed what it remembers
    /// beside events, stack, definitions and attempts, follows what it was.
    pub proof fn lemma_moved_follows(&self, old: &Tokenizer)
        requires
            old.wf(),
            self.parse_state.locates(self.point, self.index),
            !self.consumed ==> self.current == Code::End || (self.index
                < self.parse_state.codes.len() && self.current
                == self.parse_state.codes[self.index as int]),
            forall|line: usize| #[trigger]
                self.column_start@.contains_key(line) ==> self.column_start@[line] >= 1,
            self.data_index == old.data_index,
            self.continued == old.continued,
            self.container_stack == old.container_stack,
            self.exits == old.exits,
            self.parse_state == old.parse_state,
            self.events == old.events,
            self.stack == old.stack,
            self.definitions == old.definitions,
            self.attempts == old.attempts,
            self.child == old.child,
            self.child_state == old.child_state,
            self.point.offset >= old.point.offset,
        ensures
            self.follows(old),
    {
        assert(self.attempts@.take(old.attempts.len() as int) =~= old.attempts@);
        if old.attempts.len() > 0 {
            assert(old.attempt_wf(old.attempts.len() - 1));
        }
        self.lemma_attempts_kept(old, old.attempts.len() as int);
        if old.orderly() {
            assert forall|i: int| 0 <= i < self.attempts.len() implies (
            #[trigger] self.attempts[i]).progress.orderly_in(self) by {
                assert(old.attempts[i].progress.orderly_in(old));
            }
        }
    }
}


impl<'a> Tokenizer<'a> {
    /// Whether a resolver was registered under `id` before.
    pub open spec fn has_resolver(&self, id: Seq<char>) -> bool {
        exists|i: int| 0 <= i < self.resolver_ids.len() && (#[trigger] self.resolver_ids[i])@ == id
    }

    /// Whether a resolver was registered under `id` before.
    pub fn knows_resolver(&self, id: &String) -> (r: bool)
        ensures
            r == self.has_resolver(id@),
    {
        let mut index: usize = 0;
        while index < self.resolver_ids.len()
            invariant
                index <= self.resolver_ids.len(),
                forall|i: int| 0 <= i < index ==> (#[trigger] self.resolver_ids[i])@ != id@,
            decreases self.resolver_ids.len() - index,
        {
            if self.resolver_ids[index] == *id {
                return true;
            }
            index += 1;
        }
        false
    }

    /// Register a resolver.
    ///
    /// The first registration under an id wins: later ones change nothing.
    /// The resolver runs after those registered so far.
    pub fn register_resolver(&mut self, id: String)
        requires
            old(self).wf(),
        ensures
            old(self).has_resolver(id@) ==> *final(self) == *old(self),
            !old(self).has_resolver(id@) ==> {
                &&& final(self).resolver_ids@ == old(self).resolver_ids@.push(id)
                &&& final(self).resolvers@ == old(self).resolvers@.push(id)
            },
            *final(self) == (Tokenizer {
                resolvers: final(self).resolvers,
                resolver_ids: final(self).resolver_ids,
                ..*old(self)
            }),
            final(self).follows(old(self)),
    {
        if !self.knows_resolver(&id) {
            self.resolver_ids.push(id.clone());
            self.resolvers.push(id);
        }
        proof {
            self.lemma_moved_follows(old(self));
        }
    }

    /// Register a resolver, before others.
    ///
    /// The first registration under an id wins: later ones change nothing.
    /// The resolver runs before those registered so far.
    pub fn register_resolver_before(&mut self, id: String)
        requires
            old(self).wf(),
        ensures
            old(self).has_resolver(id@) ==> *final(self) == *old(self),
            !old(self).has_resolver(id@) ==> {
                &&& final(self).resolver_ids@ == old(self).resolver_ids@.push(id)
                &&& final(self).resolvers@ == old(self).resolvers@.insert(0, id)
            },
            *final(self) == (Tokenizer {
                resolvers: final(self).resolvers,
                resolver_ids: final(self).resolver_ids,
                ..*old(self)
            }),
            final(self).follows(old(self)),
    {
        if !self.knows_resolver(&id) {
            self.resolver_ids.push(id.clone());
            self.resolvers.insert(0, id);
        }
        proof {
            self.lemma_moved_follows(old(self));
        }
    }

    /// Take the resolver that is to run next: the first of those that are
    /// attached.  It goes on record as the last of those that have run.
    pub fn next_resolver(&mut self) -> (id: Option<String>)
        requires
            old(self).wf(),
        ensures
            old(self).resolvers.len() == 0 ==> id is None && *final(self) == *old(self),
            old(self).resolvers.len() > 0 ==> {
                &&& id matches Some(name) && name@ == old(self).resolvers[0]@
                &&& final(self).resolvers@ == old(self).resolvers@.skip(1)
                &&& final(self).resolved@ == old(self).resolved@.push(old(self).resolvers[0])
            },
            *final(self) == (Tokenizer {
                resolvers: final(self).resolvers,
                resolved: final(self).resolved,
                ..*old(self)
            }),
            final(self).follows(old(self)),
    {
        if self.resolvers.len() == 0 {
            proof {
                self.lemma_moved_follows(old(self));
            }
            return None;
        }
        let id = self.resolvers.remove(0);
        let name = id.clone();
        self.resolved.push(id);
        proof {
            assert(self.resolvers@ =~= old(self).resolvers@.skip(1));
            self.lemma_moved_follows(old(self));
        }
        Some(name)
    }

    /// Mark the start of a semantic label.
    pub fn enter(&mut self, token_type: TokenType)
        requires
            old(self).wf(),
        ensures
            final(self).events@ == old(self).events@.push(
                Event {
                    event_type: EventType::Enter,
                    token_type,
                    point: old(self).point,
                    index: old(self).index,
                    previous: None,
                    next: None,
                    content_type: None,
                },
            ),
            final(self).stack@ == old(self).stack@.push(token_type),
            *final(self) == (Tokenizer {
                events: final(self).events,
                stack: final(self).stack,
                ..*old(self)
            }),
            final(self).follows(old(self)),
    {
        self.enter_with_content(token_type, None);
    }

    /// Mark the start of a semantic label whose content is tokenized again
    /// later, as `content_type`.
    pub fn enter_with_content(&mut self, token_type: TokenType, content_type: Option<ContentType>)
        requires
            old(self).wf(),
        ensures
            final(self).events@ == old(self).events@.push(
                Event {
                    event_type: EventType::Enter,
                    token_type,
                    point: old(self).point,
                    index: old(self).index,
                    previous: None,
                    next: None,
                    content_type,
                },
            ),
            final(self).stack@ == old(self).stack@.push(token_type),
            *final(self) == (Tokenizer {
                events: final(self).events,
                stack: final(self).stack,
                ..*old(self)
            }),
            final(self).follows(old(self)),
    {
        self.events.push(
            Event {
                event_type: EventType::Enter,
                token_type,
                point: self.point,
                index: self.index,
                previous: None,
                next: None,
                content_type,
            },
        );
        self.stack.push(token_type);
        proof {
            assert(self.events@.drop_last() =~= old(self).events@);
            self.lemma_labelled_follows(old(self));
        }
    }

    /// Mark the end of a semantic label.
    ///
    /// The label must be the one that was opened last, the span may not be
    /// empty, and inside an attempt no span may be closed that was open when
    /// the attempt began.
    pub fn exit(&mut self, token_type: TokenType)
        requires
            old(self).wf(),
            old(self).stack.len() > old(self).stack_floor(),
            old(self).stack@.last() == token_type,
            old(self).events.len() > 0,
            old(self).events@.last().token_type != token_type || old(self).events@.last().index
                != old(self).index,
        ensures
            final(self).events@ == old(self).events@.push(
                Event {
                    event_type: EventType::Exit,
                    token_type,
                    point: old(self).point,
                    index: old(self).index,
                    previous: None,
                    next: None,
                    content_type: None,
                },
            ),
            final(self).stack@ == old(self).stack@.drop_last(),
            *final(self) == (Tokenizer {
                events: final(self).events,
                stack: final(self).stack,
                ..*old(self)
            }),
            final(self).follows(old(self)),
    {
        self.stack.pop();
        self.events.push(
            Event {
                event_type: EventType::Exit,
                token_type,
                point: self.point,
                index: self.index,
                previous: None,
                next: None,
                content_type: None,
            },
        );
        proof {
            assert(self.events@.drop_last() =~= old(self).events@);
            self.lemma_labelled_follows(old(self));
        }
    }

    /// A tokenizer that got one more event at its current place, with the
    /// stack changed to match and not below its floor, follows what it was.
    pub proof fn lemma_labelled_follows(&self, old: &Tokenizer)
        requires
            old.wf(),
            *self == (Tokenizer { events: self.events, stack: self.stack, ..*old }),
            self.events.len() > 0,
            self.events@.drop_last() == old.events@,
            self.events@.last().point == old.point,
            match self.events@.last().event_type {
                EventType::Enter => self.stack@ == old.stack@.push(self.events@.last().token_type),
                EventType::Exit => {
                    &&& old.stack.len() > old.stack_floor()
                    &&& old.stack@.last() == self.events@.last().token_type
                    &&& self.stack@ == old.stack@.drop_last()
                },
            },
        ensures
            self.follows(old),
    {
        let depth = old.attempts.len() as int;
        assert(self.attempts@.take(depth) =~= old.attempts@);
        match old.data_index {
            Some(i) => {
                lemma_chained_prefix(old.events@, self.events@, i as int, None);
            },
            None => {},
        }
        if depth > 0 {
            assert(old.attempt_wf(depth - 1));
            let floor = old.attempts@.last().progress;
            assert(self.events@.take(floor.events_len as int) =~= old.events@.take(
                floor.events_len as int,
            ));
            assert(self.stack@.take(floor.stack_len as int) =~= old.stack@.take(
                floor.stack_len as int,
            ));
        }
        self.lemma_attempts_kept(old, depth);
        if old.orderly() {
            assert(self.events@ =~= old.events@.push(self.events@.last()));
            assert forall|i: int, j: int| 0 <= i <= j < self.events.len() implies self.events[i].point.offset
                <= self.events[j].point.offset by {
                if j < old.events.len() {
                    assert(old.events[i].point.offset <= old.events[j].point.offset);
                } else if i < old.events.len() {
                    assert(old.events[i].point.offset <= old.events@.last().point.offset);
                }
            }
            assert forall|i: int| 0 <= i < self.attempts.len() implies (
            #[trigger] self.attempts[i]).progress.orderly_in(self) by {
                let progress = old.attempts[i].progress;
                assert(old.attempts[i].progress.orderly_in(old));
                assert(old.attempt_wf(i));
                assert(old.attempts[i].progress.below(&old.attempts[depth - 1].progress));
                assert(self.events@.take(progress.events_len as int) =~= old.events@.take(
                    progress.events_len as int,
                ));
                assert(self.stack@.take(progress.stack_len as int) =~= old.stack@.take(
                    progress.stack_len as int,
                ));
            }
        }
    }
}


impl<'a> Tokenizer<'a> {
    /// Whether `events` can stand in for the events of the tokenizer: they
    /// are nested with the stack of the tokenizer as their frontier, ordered,
    /// and no event lies beyond the place of the tokenizer; and the tokenizer
    /// keeps no index into its events.
    pub open spec fn accepts(&self, events: Seq<Event>) -> bool {
        &&& self.data_index is None
        &&& frontier(events) == Some(self.stack@)
        &&& ordered(events)
        &&& events.len() > 0 ==> events.last().point.offset <= self.point.offset
    }

    /// Whether the events are sound: nested, with the stack as the spans
    /// that are left open, and ordered by offset.
    pub open spec fn sound(&self) -> bool {
        &&& frontier(self.events@) == Some(self.stack@)
        &&& ordered(self.events@)
    }

    /// Walk the events and tell whether they are sound.
    pub fn is_sound(&self) -> (r: bool)
        ensures
            r == self.sound(),
    {
        has_frontier(&self.events, &self.stack) && is_ordered(&self.events)
    }

    /// Replace the events by `events`, if they can stand in for them, and
    /// tell whether they did.
    ///
    /// This is for resolvers: whatever they make of the events, the events
    /// of a tokenizer stay nested and ordered.
    pub fn replace_events(&mut self, events: Vec<Event>) -> (replaced: bool)
        requires
            old(self).wf(),
            old(self).attempts.len() == 0,
        ensures
            replaced == old(self).accepts(events@),
            final(self).events@ == if replaced {
                events@
            } else {
                old(self).events@
            },
            *final(self) == (Tokenizer { events: final(self).events, ..*old(self) }),
            final(self).wf(),
            old(self).orderly() ==> final(self).orderly(),
            replaced ==> final(self).orderly(),
    {
        let fine = self.data_index.is_none() && has_frontier(&events, &self.stack) && is_ordered(
            &events,
        ) && (events.len() == 0 || events[events.len() - 1].point.offset <= self.point.offset);
        if fine {
            self.events = events;
        }
        proof {
            assert(self.core_wf()) by {
                assert(self.attempts_wf());
            }
        }
        fine
    }
}

} // verus!
