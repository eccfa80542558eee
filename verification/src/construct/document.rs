//! The document content type.
//!
//! **Document** represents the containers, such as block quotes and list
//! items, which structure the document and contain other sections.
//!
//! On every line the driver first tries to continue the containers that are
//! open, then tries to open new ones, and then feeds what is left of the line
//! to a child tokenizer as flow.  Containers that a line did not continue
//! are closed, unless the line lazily carries on a paragraph.  The exits of
//! closed containers are put off and land in the events at the end.

use crate::event::{ordered, ContentType, Event, EventType, Point};
use crate::feed::Constructs;
use crate::parser::Code;
use crate::state::{State, StateName};
use crate::subtokenize::{
    as_ints, chunks_within, divide_events, lemma_merged_bounded, lemma_spliced_ordered, merged,
    relink, relinked, rising, spliced,
};
use crate::token::TokenType;
use crate::tokenizer::{Container, ContainerState, Tokenizer};
use crate::util::skip::first_of;
use vstd::prelude::*;

verus! {

/// Phases where we can exit containers.
#[derive(Debug, Clone, Copy, PartialEq, Eq, Structural)]
pub enum Phase {
    /// After parsing a line of lazy flow which resulted in something that
    /// exits containers before the line.
    ///
    /// ```markdown
    ///   | * a
    /// > | ```js
    ///          ^
    ///   | b
    ///   | ```
    /// ```
    After,
    /// When a new container replaces an existing container.
    ///
    /// ```markdown
    ///   | * a
    /// > | > b
    ///     ^
    /// ```
    Prefix,
    /// After everything.
    ///
    /// ```markdown
    /// > | * a
    ///        ^
    /// ```
    Eof,
}

/// The container stack with `container` as the tentative container: it
/// stands right after the containers that were continued, and the container
/// that stood there, if any, waits at the end.
pub open spec fn with_tentative(
    stack: Seq<ContainerState>,
    continued: int,
    container: ContainerState,
) -> Seq<ContainerState> {
    if continued < stack.len() {
        stack.push(stack[continued]).update(continued, container)
    } else {
        stack.push(container)
    }
}

/// The container stack without its tentative container: what waited at the
/// end is back in its place.
pub open spec fn without_tentative(stack: Seq<ContainerState>, continued: int) -> Seq<
    ContainerState,
> {
    stack.update(continued, stack.last()).drop_last()
}

/// A container of the given kind of which nothing is known yet.
pub open spec fn blank_container(kind: Container) -> ContainerState {
    ContainerState { kind, blank_initial: false, size: 0 }
}

/// Start of document, at an optional byte order mark.
///
/// ```markdown
/// > | a
///     ^
/// ```
///
/// This makes the child that will be fed the flow, at the place where the
/// document stands, and tries a byte order mark; the containers come next
/// either way.
pub fn start<'a>(tokenizer: &mut Tokenizer<'a>) -> (next: State)
    requires
        old(tokenizer).wf(),
        !old(tokenizer).consumed,
        old(tokenizer).ready(StateName::DocumentStart),
    ensures
        next == State::Retry(StateName::BomStart),
        final(tokenizer).child matches Some(child) && child.fresh(
            old(tokenizer).point,
            old(tokenizer).index,
            old(tokenizer).parse_state,
        ),
        final(tokenizer).child_state is None,
        final(tokenizer).attempting(
            &(Tokenizer {
                child: final(tokenizer).child,
                child_state: None,
                ..*old(tokenizer)
            }),
            State::Next(StateName::DocumentContainerExistingBefore),
            State::Next(StateName::DocumentContainerExistingBefore),
            crate::tokenizer::AttemptKind::Attempt,
            Seq::<StateName>::empty(),
        ),
        final(tokenizer).follows(old(tokenizer)),
        final(tokenizer).admits(next),
{
    let child = Tokenizer::new(tokenizer.point, tokenizer.index, tokenizer.parse_state);
    tokenizer.child = Some(Box::new(child));
    tokenizer.child_state = None;
    proof {
        tokenizer.lemma_bottom_follows(old(tokenizer));
    }
    let ghost made = *tokenizer;
    tokenizer.attempt(
        State::Next(StateName::DocumentContainerExistingBefore),
        State::Next(StateName::DocumentContainerExistingBefore),
    );
    proof {
        tokenizer.lemma_bottom_follows(old(tokenizer));
    }
    State::Retry(StateName::BomStart)
}

/// The byte order mark.
pub const BYTE_ORDER_MARK: char = '\u{feff}';

/// At an optional byte order mark.
///
/// A byte order mark is consumed without a trace in the events.  Anything
/// else is left alone.
pub fn bom_start(tokenizer: &mut Tokenizer) -> (next: State)
    requires
        old(tokenizer).wf(),
        !old(tokenizer).consumed,
    ensures
        old(tokenizer).current == Code::Char(BYTE_ORDER_MARK) ==> {
            &&& next == State::Okay
            &&& (final(tokenizer).point, final(tokenizer).index) == crate::tokenizer::advanced(
                old(tokenizer).parse_state.codes@,
                old(tokenizer).point,
                old(tokenizer).index,
                old(tokenizer).current,
                old(tokenizer).column_start@,
            )
            &&& *final(tokenizer) == (Tokenizer {
                point: final(tokenizer).point,
                index: final(tokenizer).index,
                previous: old(tokenizer).current,
                consumed: true,
                ..*old(tokenizer)
            })
        },
        old(tokenizer).current != Code::Char(BYTE_ORDER_MARK) ==> {
            &&& next == State::Nok
            &&& *final(tokenizer) == *old(tokenizer)
        },
        final(tokenizer).follows(old(tokenizer)),
        final(tokenizer).admits(next),
{
    let code = tokenizer.current;
    let marked = match code {
        Code::Char(character) => character == BYTE_ORDER_MARK,
        _ => false,
    };
    if marked {
        tokenizer.consume(code);
        State::Okay
    } else {
        proof {
            tokenizer.lemma_moved_follows(old(tokenizer));
        }
        State::Nok
    }
}

/// At optional existing containers.
///
/// ```markdown
///   | * a
/// > | > b
///     ^
/// ```
///
/// If there are more existing containers, this tries whether the next one
/// continues.  Otherwise it is time for new containers.
pub fn container_existing_before(tokenizer: &mut Tokenizer) -> (next: State)
    requires
        old(tokenizer).wf(),
        !old(tokenizer).consumed,
        old(tokenizer).ready(StateName::DocumentContainerExistingBefore),
    ensures
        old(tokenizer).continued >= old(tokenizer).container_stack.len() ==> {
            &&& next == State::Retry(StateName::DocumentContainerNewBefore)
            &&& *final(tokenizer) == *old(tokenizer)
        },
        old(tokenizer).continued < old(tokenizer).container_stack.len() ==> {
            &&& next == State::Retry(
                match old(tokenizer).container_stack[old(tokenizer).continued as int].kind {
                    Container::BlockQuote => StateName::BlockQuoteContStart,
                    Container::ListItem => StateName::ListItemContStart,
                },
            )
            &&& final(tokenizer).attempting(
                old(tokenizer),
                State::Next(StateName::DocumentContainerExistingAfter),
                State::Next(StateName::DocumentContainerNewBefore),
                crate::tokenizer::AttemptKind::Attempt,
                Seq::<StateName>::empty(),
            )
        },
        final(tokenizer).follows(old(tokenizer)),
        final(tokenizer).admits(next),
{
    // If there are more existing containers, check whether the next one
    // continues.
    if tokenizer.continued < tokenizer.container_stack.len() {
        let container = tokenizer.container_stack[tokenizer.continued];
        let name = match container.kind {
            Container::BlockQuote => StateName::BlockQuoteContStart,
            Container::ListItem => StateName::ListItemContStart,
        };
        tokenizer.attempt(
            State::Next(StateName::DocumentContainerExistingAfter),
            State::Next(StateName::DocumentContainerNewBefore),
        );
        State::Retry(name)
    } else {
        // Otherwise, check new containers.
        proof {
            tokenizer.lemma_moved_follows(old(tokenizer));
        }
        State::Retry(StateName::DocumentContainerNewBefore)
    }
}

/// After continued existing container.
///
/// ```markdown
///   | * a
/// > |   b
///       ^
/// ```
pub fn container_existing_after(tokenizer: &mut Tokenizer) -> (next: State)
    requires
        old(tokenizer).wf(),
        !old(tokenizer).consumed,
        old(tokenizer).ready(StateName::DocumentContainerExistingAfter),
    ensures
        next == State::Retry(StateName::DocumentContainerExistingBefore),
        *final(tokenizer) == (Tokenizer {
            continued: (old(tokenizer).continued + 1) as usize,
            ..*old(tokenizer)
        }),
        final(tokenizer).follows(old(tokenizer)),
        final(tokenizer).admits(next),
{
    tokenizer.continued += 1;
    proof {
        tokenizer.lemma_bottom_follows(old(tokenizer));
    }
    State::Retry(StateName::DocumentContainerExistingBefore)
}

/// At new containers.
///
/// ```markdown
/// > | * a
///     ^
/// > | > b
///     ^
/// ```
///
/// When every existing container was continued, the flow's `interrupt` is
/// taken over, and inside a concrete construct no new container is looked
/// for.  Otherwise a block quote is tried first, in a tentative container.
pub fn container_new_before(tokenizer: &mut Tokenizer) -> (next: State)
    requires
        old(tokenizer).wf(),
        !old(tokenizer).consumed,
        old(tokenizer).ready(StateName::DocumentContainerNewBefore),
    ensures
        ({
            let before = &*old(tokenizer);
            let child = before.child->0;
            let all = before.continued == before.container_stack.len();
            let interrupt = if all {
                child.interrupt
            } else {
                before.interrupt
            };
            if all && child.concrete {
                &&& next == State::Retry(StateName::DocumentContainersAfter)
                &&& *final(tokenizer) == (Tokenizer { interrupt, ..*before })
            } else {
                &&& next == State::Retry(StateName::BlockQuoteStart)
                &&& final(tokenizer).container_stack@ == with_tentative(
                    before.container_stack@,
                    before.continued as int,
                    blank_container(Container::BlockQuote),
                )
                &&& final(tokenizer).attempting(
                    &(Tokenizer {
                        interrupt,
                        container_stack: final(tokenizer).container_stack,
                        ..*before
                    }),
                    State::Next(StateName::DocumentContainerNewAfter),
                    State::Next(StateName::DocumentContainerNewBeforeNotBlockQuote),
                    crate::tokenizer::AttemptKind::Attempt,
                    Seq::<StateName>::empty(),
                )
            }
        }),
        final(tokenizer).follows(old(tokenizer)),
        final(tokenizer).admits(next),
{
    // If we have completely continued, restore the flow's past `interrupt`
    // status.
    if tokenizer.continued == tokenizer.container_stack.len() {
        let (interrupt, concrete) = match &tokenizer.child {
            Some(child) => (child.interrupt, child.concrete),
            None => (tokenizer.interrupt, false),
        };
        tokenizer.interrupt = interrupt;
        // ...and if we're in a concrete construct, new containers can't
        // "pierce" into them.
        if concrete {
            proof {
                tokenizer.lemma_bottom_follows(old(tokenizer));
            }
            return State::Retry(StateName::DocumentContainersAfter);
        }
    }
    // Check for a new container.
    // Block quote?
    // Add a new container at the end of the stack.
    let tail = tokenizer.container_stack.len();
    let container = ContainerState { kind: Container::BlockQuote, blank_initial: false, size: 0 };
    tokenizer.container_stack.push(container);
    // Swap the existing container with the new one.
    if tokenizer.continued < tail {
        let existing = tokenizer.container_stack[tokenizer.continued];
        tokenizer.container_stack[tokenizer.continued] = container;
        tokenizer.container_stack[tail] = existing;
    }
    proof {
        assert(tokenizer.container_stack@ =~= with_tentative(
            old(tokenizer).container_stack@,
            old(tokenizer).continued as int,
            container,
        ));
        tokenizer.lemma_bottom_follows(old(tokenizer));
    }
    tokenizer.attempt(
        State::Next(StateName::DocumentContainerNewAfter),
        State::Next(StateName::DocumentContainerNewBeforeNotBlockQuote),
    );
    proof {
        tokenizer.lemma_bottom_follows(old(tokenizer));
    }
    State::Retry(StateName::BlockQuoteStart)
}

/// At new container, but not a block quote.
///
/// ```markdown
/// > | * a
///     ^
/// ```
///
/// The tentative container becomes a list item, which is tried next.
pub fn container_new_before_not_block_quote(tokenizer: &mut Tokenizer) -> (next: State)
    requires
        old(tokenizer).wf(),
        !old(tokenizer).consumed,
        old(tokenizer).ready(StateName::DocumentContainerNewBeforeNotBlockQuote),
    ensures
        next == State::Retry(StateName::ListItemStart),
        final(tokenizer).container_stack@ == old(tokenizer).container_stack@.update(
            old(tokenizer).continued as int,
            blank_container(Container::ListItem),
        ),
        final(tokenizer).attempting(
            &(Tokenizer {
                container_stack: final(tokenizer).container_stack,
                ..*old(tokenizer)
            }),
            State::Next(StateName::DocumentContainerNewAfter),
            State::Next(StateName::DocumentContainerNewBeforeNotList),
            crate::tokenizer::AttemptKind::Attempt,
            Seq::<StateName>::empty(),
        ),
        final(tokenizer).follows(old(tokenizer)),
        final(tokenizer).admits(next),
{
    // List item?
    // We replace the empty block quote container for this new list one.
    tokenizer.container_stack[tokenizer.continued] = ContainerState {
        kind: Container::ListItem,
        blank_initial: false,
        size: 0,
    };
    proof {
        tokenizer.lemma_bottom_follows(old(tokenizer));
    }
    tokenizer.attempt(
        State::Next(StateName::DocumentContainerNewAfter),
        State::Next(StateName::DocumentContainerNewBeforeNotList),
    );
    proof {
        tokenizer.lemma_bottom_follows(old(tokenizer));
    }
    State::Retry(StateName::ListItemStart)
}

/// At new container, but not a list (or block quote).
///
/// ```markdown
/// > | a
///     ^
/// ```
///
/// It wasn't a new block quote or a list: the tentative container goes, and
/// what waited at the end of the stack is back in its place.
pub fn container_new_before_not_list(tokenizer: &mut Tokenizer) -> (next: State)
    requires
        old(tokenizer).wf(),
        !old(tokenizer).consumed,
        old(tokenizer).ready(StateName::DocumentContainerNewBeforeNotList),
    ensures
        next == State::Retry(StateName::DocumentContainersAfter),
        final(tokenizer).container_stack@ == without_tentative(
            old(tokenizer).container_stack@,
            old(tokenizer).continued as int,
        ),
        *final(tokenizer) == (Tokenizer {
            container_stack: final(tokenizer).container_stack,
            ..*old(tokenizer)
        }),
        final(tokenizer).follows(old(tokenizer)),
        final(tokenizer).admits(next),
{
    tokenizer.container_stack.swap_remove(tokenizer.continued);
    proof {
        tokenizer.lemma_bottom_follows(old(tokenizer));
    }
    State::Retry(StateName::DocumentContainersAfter)
}


/// The events with the `Data` enter at `data_index`, if any, linked on to a
/// next chunk that opens at `next`.
pub open spec fn linked_on(events: Seq<Event>, data_index: Option<usize>, next: usize) -> Seq<
    Event,
> {
    match data_index {
        Some(previous) => events.update(
            previous as int,
            Event { next: Some(next), ..events[previous as int] },
        ),
        None => events,
    }
}

/// After containers, at flow.
///
/// ```markdown
/// > | * a
///       ^
/// > | > b
///       ^
/// ```
///
/// The child learns whether the line is lazy, that is, whether some open
/// container was not continued, and that its line starts here, after the
/// containers.  Unless the input ends here, a `Data` span opens for the flow
/// of the line, linked to the span of the line before.
pub fn containers_after(tokenizer: &mut Tokenizer) -> (next: State)
    requires
        old(tokenizer).wf(),
        !old(tokenizer).consumed,
        old(tokenizer).ready(StateName::DocumentContainersAfter),
    ensures
        ({
            let before = &*old(tokenizer);
            let after = &*final(tokenizer);
            &&& after.child matches Some(child) && child.skip_defined(
                &(Tokenizer {
                    lazy: before.continued != before.container_stack.len(),
                    ..*before.child->0
                }),
                before.point,
            )
            &&& if before.current == Code::End {
                &&& next == State::Retry(StateName::DocumentFlowEnd)
                &&& *after == (Tokenizer { child: after.child, ..*before })
            } else {
                &&& next == State::Retry(StateName::DocumentFlowInside)
                &&& after.events@ == linked_on(
                    before.events@,
                    before.data_index,
                    before.events.len(),
                ).push(
                    Event {
                        event_type: EventType::Enter,
                        token_type: TokenType::Data,
                        point: before.point,
                        index: before.index,
                        previous: before.data_index,
                        next: None,
                        content_type: Some(ContentType::Flow),
                    },
                )
                &&& after.stack@ == before.stack@.push(TokenType::Data)
                &&& after.data_index == Some(before.events.len())
                &&& *after == (Tokenizer {
                    child: after.child,
                    events: after.events,
                    stack: after.stack,
                    data_index: after.data_index,
                    ..*before
                })
            }
        }),
        final(tokenizer).follows(old(tokenizer)),
        final(tokenizer).admits(next),
{
    let lazy = tokenizer.continued != tokenizer.container_stack.len();
    brief_child(tokenizer, lazy);
    match tokenizer.current {
        // Note: EOL is part of data.
        Code::End => {
            proof {
                tokenizer.lemma_bottom_follows(old(tokenizer));
            }
            State::Retry(StateName::DocumentFlowEnd)
        },
        _ => {
            open_data(tokenizer);
            proof {
                tokenizer.lemma_bottom_follows(old(tokenizer));
            }
            State::Retry(StateName::DocumentFlowInside)
        },
    }
}

/// Tell the child whether the line is lazy and where its line starts.
fn brief_child(tokenizer: &mut Tokenizer, lazy: bool)
    requires
        old(tokenizer).wf(),
        old(tokenizer).child is Some,
        old(tokenizer).attempts.len() == 0,
    ensures
        final(tokenizer).child matches Some(child) && child.skip_defined(
            &(Tokenizer { lazy, ..*old(tokenizer).child->0 }),
            old(tokenizer).point,
        ),
        *final(tokenizer) == (Tokenizer { child: final(tokenizer).child, ..*old(tokenizer) }),
        final(tokenizer).wf(),
{
    let point = tokenizer.point;
    match tokenizer.child.take() {
        Some(child) => {
            let mut child = child;
            let ghost before = *child;
            child.lazy = lazy;
            let ghost marked = *child;
            proof {
                reveal_with_fuel(Tokenizer::wf, 2);
                marked.lemma_moved_follows(&before);
            }
            child.define_skip(&point);
            proof {
                match old(tokenizer).child_state {
                    Some(state) => {
                        assert(before.admits(state));
                        assert(child.admits(state));
                    },
                    None => {},
                }
            }
            tokenizer.child = Some(child);
        },
        None => {},
    }
    proof {
        assert(tokenizer.core_wf()) by {
            assert(tokenizer.attempts_wf());
        }
    }
}

/// Open the `Data` span of a line, linked to the span of the line before.
fn open_data(tokenizer: &mut Tokenizer)
    requires
        old(tokenizer).wf(),
        old(tokenizer).child is Some,
        old(tokenizer).attempts.len() == 0,
    ensures
        final(tokenizer).events@ == linked_on(
            old(tokenizer).events@,
            old(tokenizer).data_index,
            old(tokenizer).events.len(),
        ).push(
            Event {
                event_type: EventType::Enter,
                token_type: TokenType::Data,
                point: old(tokenizer).point,
                index: old(tokenizer).index,
                previous: old(tokenizer).data_index,
                next: None,
                content_type: Some(ContentType::Flow),
            },
        ),
        final(tokenizer).stack@ == old(tokenizer).stack@.push(TokenType::Data),
        final(tokenizer).data_index == Some(old(tokenizer).events.len()),
        *final(tokenizer) == (Tokenizer {
            events: final(tokenizer).events,
            stack: final(tokenizer).stack,
            data_index: final(tokenizer).data_index,
            ..*old(tokenizer)
        }),
        final(tokenizer).wf(),
{
    let current = tokenizer.events.len();
    let previous = tokenizer.data_index;
    tokenizer.enter_with_content(TokenType::Data, Some(ContentType::Flow));
    match previous {
        Some(previous) => {
            let mut event = tokenizer.events[previous];
            event.next = Some(current);
            tokenizer.events[previous] = event;
        },
        None => {},
    }
    let mut event = tokenizer.events[current];
    event.previous = previous;
    tokenizer.events[current] = event;
    tokenizer.data_index = Some(current);
    proof {
        match previous {
            Some(previous) => {
                crate::tokenizer::lemma_chained_linked_on(
                    old(tokenizer).events@,
                    tokenizer.events@,
                    previous as int,
                    Some(current),
                );
            },
            None => {},
        }
        assert(tokenizer.events@ =~= linked_on(
            old(tokenizer).events@,
            old(tokenizer).data_index,
            old(tokenizer).events.len(),
        ).push(
            Event {
                event_type: EventType::Enter,
                token_type: TokenType::Data,
                point: old(tokenizer).point,
                index: old(tokenizer).index,
                previous: old(tokenizer).data_index,
                next: None,
                content_type: Some(ContentType::Flow),
            },
        ));
        assert(tokenizer.core_wf()) by {
            assert(tokenizer.attempts_wf());
        }
    }
}

/// In flow.
///
/// ```markdown
/// > | * ab
///       ^
/// ```
///
/// The flow of a line runs up to and including its line ending, or up to
/// the end of the input: there the `Data` span closes.
pub fn flow_inside(tokenizer: &mut Tokenizer) -> (next: State)
    requires
        old(tokenizer).wf(),
        !old(tokenizer).consumed,
        old(tokenizer).ready(StateName::DocumentFlowInside),
    ensures
        ({
            let before = &*old(tokenizer);
            let after = &*final(tokenizer);
            let code = before.current;
            let moved = crate::tokenizer::advanced(
                before.parse_state.codes@,
                before.point,
                before.index,
                code,
                before.column_start@,
            );
            let exit = Event {
                event_type: EventType::Exit,
                token_type: TokenType::Data,
                point: moved.0,
                index: moved.1,
                previous: None,
                next: None,
                content_type: None,
            };
            &&& next == if code == Code::End {
                State::Retry(StateName::DocumentFlowEnd)
            } else if code.is_eol() {
                State::Next(StateName::DocumentFlowEnd)
            } else {
                State::Next(StateName::DocumentFlowInside)
            }
            &&& (after.point, after.index) == moved
            &&& after.consumed == (code != Code::End)
            &&& after.previous == if code == Code::End {
                before.previous
            } else {
                code
            }
            &&& if code == Code::End || code.is_eol() {
                &&& after.events@ == before.events@.push(exit)
                &&& after.stack@ == before.stack@.drop_last()
            } else {
                &&& after.events == before.events
                &&& after.stack == before.stack
            }
            &&& *after == (Tokenizer {
                point: after.point,
                index: after.index,
                consumed: after.consumed,
                previous: after.previous,
                events: after.events,
                stack: after.stack,
                ..*before
            })
        }),
        final(tokenizer).follows(old(tokenizer)),
        final(tokenizer).admits(next),
{
    let code = tokenizer.current;
    match code {
        Code::End => {
            tokenizer.exit(TokenType::Data);
            State::Retry(StateName::DocumentFlowEnd)
        },
        _ => {
            tokenizer.consume(code);
            // Note: EOL is part of data.
            if code.ends_line() {
                tokenizer.exit(TokenType::Data);
                proof {
                    tokenizer.lemma_bottom_follows(old(tokenizer));
                }
                State::Next(StateName::DocumentFlowEnd)
            } else {
                State::Next(StateName::DocumentFlowInside)
            }
        },
    }
}


/// The label of the span of a container.
pub open spec fn token_of(kind: Container) -> TokenType {
    match kind {
        Container::BlockQuote => TokenType::BlockQuote,
        Container::ListItem => TokenType::ListItem,
    }
}

/// The exit of a span labelled `name` at the given place.
pub open spec fn exit_at(name: TokenType, point: Point, index: usize) -> Event {
    Event {
        event_type: EventType::Exit,
        token_type: name,
        point,
        index,
        previous: None,
        next: None,
        content_type: None,
    }
}

/// The exits that close the containers `closed`, innermost first, all at
/// the given place.
pub open spec fn exits_of(closed: Seq<ContainerState>, point: Point, index: usize) -> Seq<Event>
    decreases closed.len(),
{
    if closed.len() == 0 {
        Seq::empty()
    } else {
        seq![exit_at(token_of(closed.last().kind), point, index)] + exits_of(
            closed.drop_last(),
            point,
            index,
        )
    }
}

/// One exit closes each container.
pub proof fn lemma_exits_of_len(closed: Seq<ContainerState>, point: Point, index: usize)
    ensures
        exits_of(closed, point, index).len() == closed.len(),
    decreases closed.len(),
{
    if closed.len() > 0 {
        lemma_exits_of_len(closed.drop_last(), point, index);
    }
}

/// The stack without the last `name` on it, if there is one.
pub open spec fn without_last(stack: Seq<TokenType>, name: TokenType) -> Seq<TokenType>
    decreases stack.len(),
{
    if stack.len() == 0 {
        stack
    } else if stack.last() == name {
        stack.drop_last()
    } else {
        without_last(stack.drop_last(), name).push(stack.last())
    }
}

/// The stack once the spans of the containers `closed` are taken off it,
/// innermost first.
pub open spec fn stack_closing(stack: Seq<TokenType>, closed: Seq<ContainerState>) -> Seq<
    TokenType,
>
    decreases closed.len(),
{
    if closed.len() == 0 {
        stack
    } else {
        stack_closing(without_last(stack, token_of(closed.last().kind)), closed.drop_last())
    }
}

/// The exits that are put off for one line: none where nothing is on record.
pub open spec fn put_off(exits: Option<Vec<Event>>) -> Seq<Event> {
    match exits {
        Some(list) => list@,
        None => Seq::empty(),
    }
}

/// Taking the last `name` off a stack touches nothing above a place from
/// which on no `name` occurs.
proof fn lemma_without_last(stack: Seq<TokenType>, from: int, name: TokenType)
    requires
        0 <= from <= stack.len(),
        forall|i: int| from <= i < stack.len() ==> stack[i] != name,
    ensures
        without_last(stack, name) == without_last(stack.take(from), name) + stack.skip(from),
    decreases stack.len() - from,
{
    if from == stack.len() {
        assert(stack.take(from) =~= stack);
        assert(without_last(stack, name) + stack.skip(from) =~= without_last(stack, name));
    } else {
        lemma_without_last(stack.drop_last(), from, name);
        assert(stack.drop_last().take(from) =~= stack.take(from));
        assert((without_last(stack.take(from), name) + stack.drop_last().skip(from)).push(
            stack.last(),
        ) =~= without_last(stack.take(from), name) + stack.skip(from));
    }
}

/// Take the last `name` off the stack, if there is one, and tell whether
/// there was.
fn remove_last(stack: &mut Vec<TokenType>, name: TokenType) -> (found: bool)
    ensures
        final(stack)@ == without_last(old(stack)@, name),
        found == old(stack)@.contains(name),
        found ==> final(stack).len() == old(stack).len() - 1,
{
    let mut stack_index = stack.len();
    while stack_index > 0
        invariant
            stack_index <= stack.len(),
            *stack == *old(stack),
            forall|i: int| stack_index <= i < stack.len() ==> stack[i] != name,
        decreases stack_index,
    {
        stack_index -= 1;
        if stack[stack_index] == name {
            proof {
                lemma_without_last(stack@, stack_index + 1, name);
                assert(stack@.take(stack_index + 1).drop_last() =~= stack@.take(
                    stack_index as int,
                ));
                assert(stack@.take(stack_index as int) + stack@.skip(stack_index + 1)
                    =~= stack@.remove(stack_index as int));
            }
            stack.remove(stack_index);
            return true;
        }
    }
    proof {
        lemma_without_last(stack@, 0, name);
        assert(stack@.take(0) + stack@.skip(0) =~= stack@);
    }
    false
}

/// Whether the span of every container of `closed` is on the stack, so that
/// the spans can be taken off it one after the other, innermost first.
pub open spec fn spans_on(stack: Seq<TokenType>, closed: Seq<ContainerState>) -> bool
    decreases closed.len(),
{
    closed.len() == 0 || {
        let name = token_of(closed.last().kind);
        stack.contains(name) && spans_on(without_last(stack, name), closed.drop_last())
    }
}

/// Taking a `name` that is there off a stack leaves one span less.
pub proof fn lemma_without_last_len(stack: Seq<TokenType>, name: TokenType)
    requires
        stack.contains(name),
    ensures
        without_last(stack, name).len() == stack.len() - 1,
    decreases stack.len(),
{
    if stack.len() > 0 && stack.last() != name {
        let rest = stack.drop_last();
        let at = choose|i: int| 0 <= i < stack.len() && stack[i] == name;
        assert(rest[at] == name);
        lemma_without_last_len(rest, name);
    }
}

/// Closing containers whose spans are on the stack leaves as many spans
/// less as there are containers.
pub proof fn lemma_stack_closing_len(stack: Seq<TokenType>, closed: Seq<ContainerState>)
    requires
        spans_on(stack, closed),
    ensures
        stack_closing(stack, closed).len() == stack.len() - closed.len(),
    decreases closed.len(),
{
    if closed.len() > 0 {
        let name = token_of(closed.last().kind);
        lemma_without_last_len(stack, name);
        lemma_stack_closing_len(without_last(stack, name), closed.drop_last());
    }
}

/// Closing all containers at once is closing those from `kept` on first and
/// the others then, and where the spans of all are on the stack, the spans
/// are there for either step.
pub proof fn lemma_spans_split(stack: Seq<TokenType>, all: Seq<ContainerState>, kept: int)
    requires
        0 <= kept <= all.len(),
    ensures
        stack_closing(stack_closing(stack, all.skip(kept)), all.take(kept)) == stack_closing(
            stack,
            all,
        ),
        spans_on(stack, all) ==> spans_on(stack, all.skip(kept)) && spans_on(
            stack_closing(stack, all.skip(kept)),
            all.take(kept),
        ),
    decreases all.len(),
{
    if kept == all.len() {
        assert(all.take(kept) =~= all);
        assert(all.skip(kept) =~= Seq::<ContainerState>::empty());
    } else {
        let name = token_of(all.last().kind);
        let rest = all.drop_last();
        lemma_spans_split(without_last(stack, name), rest, kept);
        assert(all.skip(kept).drop_last() =~= rest.skip(kept));
        assert(all.skip(kept).last() == all.last());
        assert(all.take(kept) =~= rest.take(kept));
    }
}

/// A copy of the list.
fn copy_of<T: Copy>(list: &Vec<T>) -> (copy: Vec<T>)
    ensures
        copy@ == list@,
{
    let mut copy: Vec<T> = Vec::new();
    let mut index: usize = 0;
    while index < list.len()
        invariant
            index <= list.len(),
            copy@ == list@.take(index as int),
        decreases list.len() - index,
    {
        copy.push(list[index]);
        index += 1;
        proof {
            assert(list@.take(index as int) =~= list@.take(index - 1).push(list[index - 1]));
        }
    }
    proof {
        assert(list@.take(list.len() as int) =~= list@);
    }
    copy
}

/// Whether the span of every container from `from` on is on the stack.
pub fn has_spans(stack: &Vec<TokenType>, containers: &Vec<ContainerState>, from: usize) -> (r:
    bool)
    requires
        from <= containers.len(),
    ensures
        r == spans_on(stack@, containers@.skip(from as int)),
{
    let mut left = copy_of(stack);
    let mut count = containers.len();
    proof {
        assert(containers@.subrange(from as int, count as int) =~= containers@.skip(from as int));
    }
    while count > from
        invariant
            from <= count <= containers.len(),
            spans_on(left@, containers@.subrange(from as int, count as int)) == spans_on(
                stack@,
                containers@.skip(from as int),
            ),
        decreases count,
    {
        let ghost closed = containers@.subrange(from as int, count as int);
        count -= 1;
        let name = match containers[count].kind {
            Container::BlockQuote => TokenType::BlockQuote,
            Container::ListItem => TokenType::ListItem,
        };
        proof {
            assert(closed.last() == containers[count as int]);
            assert(closed.drop_last() =~= containers@.subrange(from as int, count as int));
        }
        if !remove_last(&mut left, name) {
            return false;
        }
    }
    true
}

/// The state from which the child goes on: the state in which it was
/// suspended, or the start of flow.
pub open spec fn child_start(child_state: Option<State>) -> State {
    match child_state {
        Some(state) => state,
        None => State::Next(StateName::FlowStart),
    }
}

/// Whether `child`, suspended in `state`, is what became of the child
/// `before`, which was suspended in `before_state`, when it was fed the codes
/// up to `to` from the state in which it was suspended.
///
/// What the states of the flow did is theirs to say.  The child rests at
/// or after `to`, unless its budget is spent, and where no state had to run,
/// it is as it was but for the step that it took to find that out.  Whether
/// the child interrupts is left aside here.
pub open spec fn child_fed(
    child: &Tokenizer,
    state: State,
    before: &Tokenizer,
    before_state: Option<State>,
    to: usize,
) -> bool {
    let handed = child_start(before_state);
    &&& !child.drained
    &&& child.parse_state == before.parse_state
    &&& child.rests(state, to, false) || child.budget == 0
    &&& child.budget <= before.budget
    &&& child.resolved@ == before.resolved@
    &&& before.idles(handed, to, false) ==> {
        &&& state == handed
        &&& (Tokenizer { interrupt: before.interrupt, ..*child }).idled(before, handed)
    }
}

/// Whether `child` is what became of the child `before`, which was
/// suspended in `before_state`, when it was fed the end of the flow from the
/// state in which it was suspended.
///
/// What the states of the flow did is theirs to say.  The child waits for
/// a code and has ended with no attempt under way, unless its budget is
/// spent.  Where no state had to run, it is as it was but for the step that
/// it took to find that out.  Whether the child interrupts is left aside
/// here.
pub open spec fn child_flushed(child: &Tokenizer, before: &Tokenizer, before_state: Option<State>) -> bool {
    let handed = child_start(before_state);
    &&& !child.drained
    &&& child.parse_state == before.parse_state
    &&& child.consumed
    &&& child.attempts.len() == 0 || child.budget == 0
    &&& child.budget <= before.budget
    &&& child.resolved@ == before.resolved@
    &&& before.idles(handed, before.index, true) ==> *child == (Tokenizer {
        interrupt: child.interrupt,
        consumed: true,
        ..before.after_idle(handed)
    })
}

/// Feed the end of the flow so far to the child, so that it closes what it
/// has open.
///
/// The child is fed from the state in which it was suspended, or from the
/// start of flow, and starts afresh on the next line: a state that it was
/// in the middle of when its budget ran out is given up, with the code that
/// it had before it.
pub fn flush_child<C: Constructs>(tokenizer: &mut Tokenizer, constructs: &C)
    requires
        old(tokenizer).wf(),
        old(tokenizer).child is Some,
        old(tokenizer).attempts.len() == 0,
    ensures
        final(tokenizer).child is Some,
        final(tokenizer).child_state is None,
        child_flushed(
            &*final(tokenizer).child->0,
            &*old(tokenizer).child->0,
            old(tokenizer).child_state,
        ),
        *final(tokenizer) == (Tokenizer {
            child: final(tokenizer).child,
            child_state: None,
            ..*old(tokenizer)
        }),
        final(tokenizer).wf(),
{
    let state = match tokenizer.child_state {
        Some(state) => state,
        None => State::Next(StateName::FlowStart),
    };
    match tokenizer.child.take() {
        Some(child) => {
            let mut child = child;
            proof {
                reveal_with_fuel(Tokenizer::wf, 2);
            }
            let _ = child.flush(constructs, state, false);
            let ghost flushed = *child;
            child.consumed = true;
            proof {
                child.lemma_moved_follows(&flushed);
            }
            tokenizer.child_state = None;
            tokenizer.child = Some(child);
        },
        None => {},
    }
    proof {
        assert(tokenizer.core_wf()) by {
            assert(tokenizer.attempts_wf());
        }
    }
}

/// Whether `after` is `before` with the containers `closed` closed, the
/// container stack left aside.
///
/// The spans of the containers are off the stack of open spans.  Their
/// exits are on record, after what was on record before: for the line that
/// ends before the current one in phase `After`, and for the current line
/// otherwise.  The child interrupts nothing; except in phase `After` it was
/// fed the end of the flow first, and starts afresh.
pub open spec fn spans_closed(
    after: &Tokenizer,
    before: &Tokenizer,
    closed: Seq<ContainerState>,
    phase: Phase,
) -> bool {
    let slot = before.exits.len() - if phase == Phase::After {
        2int
    } else {
        1int
    };
    &&& after.stack@ == stack_closing(before.stack@, closed)
    &&& after.exits.len() == before.exits.len()
    &&& forall|line: int|
        0 <= line < after.exits.len() && !(closed.len() > 0 && line == slot) ==> after.exits[line]
            == before.exits[line]
    &&& closed.len() > 0 ==> put_off(after.exits[slot]) == put_off(before.exits[slot]) + exits_of(
        closed,
        before.point,
        before.index,
    )
    &&& after.child matches Some(child) && !child.interrupt
    &&& phase == Phase::After ==> {
        &&& *after.child->0 == (Tokenizer { interrupt: false, ..*before.child->0 })
        &&& after.child_state == before.child_state
    }
    &&& phase != Phase::After ==> {
        &&& after.child_state is None
        &&& child_flushed(&*after.child->0, &*before.child->0, before.child_state)
    }
    &&& *after == (Tokenizer {
        container_stack: after.container_stack,
        stack: after.stack,
        exits: after.exits,
        child: after.child,
        child_state: after.child_state,
        ..*before
    })
}

/// Close containers (and flow if needed).
///
/// The containers that were not continued leave the container stack, and
/// their spans leave the stack of open spans, where they have to be.  Their
/// exits are put off: they go on record for the line that ends before the
/// current one when the flow of the current line showed that they ended
/// (`After`), and for the current line otherwise.  Except in that first
/// case, the child is fed the end of the flow first, so that it closes what
/// it has open, and starts afresh on the next line.
pub fn exit_containers<C: Constructs>(tokenizer: &mut Tokenizer, constructs: &C, phase: Phase)
    requires
        old(tokenizer).wf(),
        old(tokenizer).child is Some,
        old(tokenizer).attempts.len() == 0,
        old(tokenizer).continued < old(tokenizer).container_stack.len() ==> old(tokenizer).exits.len()
            >= if phase == Phase::After {
            2int
        } else {
            1int
        },
        spans_on(
            old(tokenizer).stack@,
            old(tokenizer).container_stack@.skip(old(tokenizer).continued as int),
        ),
    ensures
        final(tokenizer).container_stack@ == old(tokenizer).container_stack@.take(
            old(tokenizer).continued as int,
        ),
        final(tokenizer).stack.len() == old(tokenizer).stack.len() - (
        old(tokenizer).container_stack.len() - old(tokenizer).continued),
        spans_closed(
            &*final(tokenizer),
            &*old(tokenizer),
            old(tokenizer).container_stack@.skip(old(tokenizer).continued as int),
            phase,
        ),
        final(tokenizer).wf(),
{
    let mut stack_close = tokenizer.container_stack.split_off(tokenizer.continued);
    proof {
        assert(tokenizer.core_wf()) by {
            assert(tokenizer.attempts_wf());
        }
        lemma_stack_closing_len(old(tokenizer).stack@, stack_close@);
    }
    // Flush if needed.
    match phase {
        Phase::After => {},
        _ => {
            flush_child(tokenizer, constructs);
        },
    }
    if stack_close.len() > 0 {
        let slot = tokenizer.exits.len() - (match phase {
            Phase::After => 2,
            _ => 1,
        });
        let exits = close_spans(tokenizer, stack_close);
        put_off_exits(tokenizer, slot, exits);
    }
    calm_child(tokenizer);
}

/// Take the spans of the containers `closed` off the stack of open spans,
/// innermost first, and return their exits, at the current place.
fn close_spans(tokenizer: &mut Tokenizer, closed: Vec<ContainerState>) -> (exits: Vec<Event>)
    requires
        old(tokenizer).wf(),
        old(tokenizer).attempts.len() == 0,
    ensures
        exits@ == exits_of(closed@, old(tokenizer).point, old(tokenizer).index),
        final(tokenizer).stack@ == stack_closing(old(tokenizer).stack@, closed@),
        *final(tokenizer) == (Tokenizer { stack: final(tokenizer).stack, ..*old(tokenizer) }),
        final(tokenizer).wf(),
{
    let mut stack_close = closed;
    let mut exits: Vec<Event> = Vec::new();
    let ghost closed = stack_close@;
    let point = tokenizer.point;
    let index = tokenizer.index;
    let mut stack: Vec<TokenType> = Vec::new();
    std::mem::swap(&mut stack, &mut tokenizer.stack);
    while stack_close.len() > 0
        invariant
            stack_close.len() <= closed.len(),
            stack_close@ == closed.take(stack_close.len() as int),
            exits@ + exits_of(stack_close@, point, index) == exits_of(closed, point, index),
            stack_closing(stack@, stack_close@) == stack_closing(old(tokenizer).stack@, closed),
        decreases stack_close.len(),
    {
        let ghost left = stack_close@;
        let ghost done = exits@;
        match stack_close.pop() {
            Some(container) => {
                let name = match container.kind {
                    Container::BlockQuote => TokenType::BlockQuote,
                    Container::ListItem => TokenType::ListItem,
                };
                let exit = Event {
                    event_type: EventType::Exit,
                    token_type: name,
                    point,
                    index,
                    previous: None,
                    next: None,
                    content_type: None,
                };
                exits.push(exit);
                remove_last(&mut stack, name);
                proof {
                    assert(stack_close@ =~= left.drop_last());
                    assert(stack_close@ =~= closed.take(stack_close.len() as int));
                    assert(done.push(exit) + exits_of(left.drop_last(), point, index) =~= done
                        + exits_of(left, point, index));
                }
            },
            None => {},
        }
    }
    tokenizer.stack = stack;
    proof {
        assert(exits@ + Seq::<Event>::empty() =~= exits@);
        assert(closed.take(closed.len() as int) =~= closed);
        assert(tokenizer.core_wf()) by {
            assert(tokenizer.attempts_wf());
        }
    }
    exits
}

/// Put `exits` on record for the line `slot`, after what is on record there.
fn put_off_exits(tokenizer: &mut Tokenizer, slot: usize, exits: Vec<Event>)
    requires
        old(tokenizer).wf(),
        old(tokenizer).attempts.len() == 0,
        slot < old(tokenizer).exits.len(),
    ensures
        final(tokenizer).exits.len() == old(tokenizer).exits.len(),
        forall|line: int|
            0 <= line < final(tokenizer).exits.len() && line != slot ==> final(tokenizer).exits[line]
                == old(tokenizer).exits[line],
        put_off(final(tokenizer).exits[slot as int]) == put_off(old(tokenizer).exits[slot as int])
            + exits@,
        *final(tokenizer) == (Tokenizer { exits: final(tokenizer).exits, ..*old(tokenizer) }),
        final(tokenizer).wf(),
{
    let mut exits = exits;
    let ghost prior = put_off(tokenizer.exits[slot as int]);
    let mut all: Vec<Option<Vec<Event>>> = Vec::new();
    std::mem::swap(&mut all, &mut tokenizer.exits);
    let mut on_record: Option<Vec<Event>> = None;
    std::mem::swap(&mut on_record, &mut all[slot]);
    match on_record {
        Some(list) => {
            let mut list = list;
            list.append(&mut exits);
            all[slot] = Some(list);
        },
        None => {
            proof {
                assert(prior + exits@ =~= exits@);
            }
            all[slot] = Some(exits);
        },
    }
    tokenizer.exits = all;
    proof {
        assert(tokenizer.core_wf()) by {
            assert(tokenizer.attempts_wf());
        }
    }
}

/// Tell the child that it interrupts nothing.
fn calm_child(tokenizer: &mut Tokenizer)
    requires
        old(tokenizer).wf(),
        old(tokenizer).child is Some,
        old(tokenizer).attempts.len() == 0,
    ensures
        final(tokenizer).child matches Some(child) && *child == (Tokenizer {
            interrupt: false,
            ..*old(tokenizer).child->0
        }),
        *final(tokenizer) == (Tokenizer { child: final(tokenizer).child, ..*old(tokenizer) }),
        final(tokenizer).wf(),
{
    match tokenizer.child.take() {
        Some(child) => {
            let mut child = child;
            let ghost before = *child;
            child.interrupt = false;
            proof {
                reveal_with_fuel(Tokenizer::wf, 2);
                child.lemma_moved_follows(&before);
            }
            tokenizer.child = Some(child);
        },
        None => {},
    }
    proof {
        assert(tokenizer.core_wf()) by {
            assert(tokenizer.attempts_wf());
        }
    }
}


/// Whether the event opens a line ending.
pub open spec fn is_line_ending_enter(event: Event) -> bool {
    event.event_type == EventType::Enter && (event.token_type == TokenType::LineEnding
        || event.token_type == TokenType::BlankLineEnding)
}

/// The exits, all moved to the place `point`, `index`.
pub open spec fn stamped(exits: Seq<Event>, point: Point, index: usize) -> Seq<Event> {
    Seq::new(exits.len(), |i: int| Event { point, index, ..exits[i] })
}

/// The exits that were put off for `line`: none where nothing is on record.
pub open spec fn exits_on(exits: Seq<Option<Vec<Event>>>, line: int) -> Seq<Event> {
    if 0 <= line < exits.len() {
        put_off(exits[line])
    } else {
        Seq::empty()
    }
}

/// Number of line endings that open in the events from `from` on.
pub open spec fn line_endings(events: Seq<Event>, from: int) -> int
    decreases events.len() - from,
{
    if from < 0 || from >= events.len() {
        0
    } else if is_line_ending_enter(events[from]) {
        1 + line_endings(events, from + 1)
    } else {
        line_endings(events, from + 1)
    }
}

/// The events from `at` on, with the exits that were put off for a line
/// placed right before the line ending of that line, at its place.  `line`
/// is the number of the line that the events at `at` are on.
pub open spec fn with_exits(
    events: Seq<Event>,
    exits: Seq<Option<Vec<Event>>>,
    at: int,
    line: int,
) -> Seq<Event>
    decreases events.len() - at,
{
    if at < 0 || at >= events.len() {
        Seq::empty()
    } else if is_line_ending_enter(events[at]) {
        stamped(exits_on(exits, line), events[at].point, events[at].index) + seq![events[at]] + with_exits(
            events,
            exits,
            at + 1,
            line + 1,
        )
    } else {
        seq![events[at]] + with_exits(events, exits, at + 1, line)
    }
}

/// Where the events from `at` on land in `with_exits`, counted from `base`,
/// the number of events that came before.
pub open spec fn shifted(
    events: Seq<Event>,
    exits: Seq<Option<Vec<Event>>>,
    at: int,
    line: int,
    base: int,
) -> Seq<int>
    decreases events.len() - at,
{
    if at < 0 || at >= events.len() {
        Seq::empty()
    } else if is_line_ending_enter(events[at]) {
        let moved = base + exits_on(exits, line).len();
        seq![moved] + shifted(events, exits, at + 1, line + 1, moved + 1)
    } else {
        seq![base] + shifted(events, exits, at + 1, line, base + 1)
    }
}

/// The flow events with the container exits in place: what the child
/// tokenizer made of the flow, with the exits that were put off for each
/// line before the line ending of that line, and with links pointing to
/// where the linked events stand now.
pub open spec fn flow_with_exits(events: Seq<Event>, exits: Seq<Option<Vec<Event>>>) -> Seq<
    Event,
> {
    relinked(with_exits(events, exits, 0, 0), shifted(events, exits, 0, 0, 0), Seq::empty())
}

/// The events from `at` on with the exits in place start no earlier than
/// the events from `at` on, and their offsets never go back, where those of
/// the events never go back.
proof fn lemma_with_exits_ordered(
    events: Seq<Event>,
    exits: Seq<Option<Vec<Event>>>,
    at: int,
    line: int,
)
    requires
        ordered(events),
        0 <= at <= events.len(),
    ensures
        ordered(with_exits(events, exits, at, line)),
        forall|k: int|
            0 <= k < with_exits(events, exits, at, line).len() ==> events[at].point.offset
                <= (#[trigger] with_exits(events, exits, at, line)[k]).point.offset,
    decreases events.len() - at,
{
    if at < events.len() {
        let ending = is_line_ending_enter(events[at]);
        let next_line = if ending {
            line + 1
        } else {
            line
        };
        let head = if ending {
            stamped(exits_on(exits, line), events[at].point, events[at].index) + seq![events[at]]
        } else {
            seq![events[at]]
        };
        let rest = with_exits(events, exits, at + 1, next_line);
        let all = with_exits(events, exits, at, line);
        lemma_with_exits_ordered(events, exits, at + 1, next_line);
        assert(all =~= head + rest);
        assert forall|k: int| 0 <= k < head.len() implies (#[trigger] head[k]).point.offset
            == events[at].point.offset by {}
        assert forall|k: int| 0 <= k < rest.len() implies events[at].point.offset <= (
        #[trigger] rest[k]).point.offset by {
            assert(events[at].point.offset <= events[at + 1].point.offset);
        }
        assert forall|i: int, j: int| 0 <= i <= j < all.len() implies all[i].point.offset
            <= all[j].point.offset by {
            if j < head.len() {
                assert(all[i] == head[i] && all[j] == head[j]);
            } else if i < head.len() {
                assert(all[i] == head[i] && all[j] == rest[j - head.len()]);
            } else {
                assert(all[i] == rest[i - head.len()] && all[j] == rest[j - head.len()]);
            }
        }
        assert forall|k: int| 0 <= k < all.len() implies events[at].point.offset <= (
        #[trigger] all[k]).point.offset by {
            if k < head.len() {
                assert(all[k] == head[k]);
            } else {
                assert(all[k] == rest[k - head.len()]);
            }
        }
    }
}

/// Putting the exits in place puts no event beyond the others: where no
/// flow event lies beyond `bound`, none does with the exits in place.
proof fn lemma_with_exits_bounded(
    events: Seq<Event>,
    exits: Seq<Option<Vec<Event>>>,
    at: int,
    line: int,
    bound: usize,
)
    requires
        forall|i: int| 0 <= i < events.len() ==> (#[trigger] events[i]).point.offset <= bound,
        0 <= at <= events.len(),
    ensures
        forall|k: int|
            0 <= k < with_exits(events, exits, at, line).len() ==> (#[trigger] with_exits(
                events,
                exits,
                at,
                line,
            )[k]).point.offset <= bound,
    decreases events.len() - at,
{
    if at < events.len() {
        let ending = is_line_ending_enter(events[at]);
        let next_line = if ending {
            line + 1
        } else {
            line
        };
        let head = if ending {
            stamped(exits_on(exits, line), events[at].point, events[at].index) + seq![events[at]]
        } else {
            seq![events[at]]
        };
        let rest = with_exits(events, exits, at + 1, next_line);
        let all = with_exits(events, exits, at, line);
        lemma_with_exits_bounded(events, exits, at + 1, next_line, bound);
        assert(all =~= head + rest);
        assert forall|k: int| 0 <= k < head.len() implies (#[trigger] head[k]).point.offset
            == events[at].point.offset by {}
        assert forall|k: int| 0 <= k < all.len() implies (#[trigger] all[k]).point.offset
            <= bound by {
            if k < head.len() {
                assert(all[k] == head[k]);
            } else {
                assert(all[k] == rest[k - head.len()]);
            }
        }
    }
}

/// Putting the exits in place keeps the offsets from going back: where
/// the offsets of the flow events never go back from one event to the next,
/// neither do those of the flow events with the container exits in place.
pub proof fn lemma_exits_keep_order(events: Seq<Event>, exits: Seq<Option<Vec<Event>>>)
    requires
        ordered(events),
    ensures
        ordered(flow_with_exits(events, exits)),
{
    lemma_with_exits_ordered(events, exits, 0, 0);
    let placed = with_exits(events, exits, 0, 0);
    let flow = flow_with_exits(events, exits);
    assert forall|i: int, j: int| 0 <= i <= j < flow.len() implies flow[i].point.offset
        <= flow[j].point.offset by {
        assert(flow[i].point == placed[i].point);
        assert(flow[j].point == placed[j].point);
    }
}

/// Add the container exits into the flow events.
///
/// Returns the events, and the number of line endings among them.
pub fn add_exits(events: &Vec<Event>, exits: &Vec<Option<Vec<Event>>>) -> (r: (Vec<Event>, usize))
    ensures
        r.0@ == flow_with_exits(events@, exits@),
        r.1 == line_endings(events@, 0),
{
    let mut out: Vec<Event> = Vec::new();
    let mut positions: Vec<usize> = Vec::new();
    let mut at: usize = 0;
    let mut line: usize = 0;
    proof {
        assert(out@ + with_exits(events@, exits@, 0, 0) =~= with_exits(events@, exits@, 0, 0));
        assert(as_ints(positions@) + shifted(events@, exits@, 0, 0, 0) =~= shifted(
            events@,
            exits@,
            0,
            0,
            0,
        ));
    }
    while at < events.len()
        invariant
            at <= events.len(),
            line <= at,
            line + line_endings(events@, at as int) == line_endings(events@, 0),
            out@ + with_exits(events@, exits@, at as int, line as int) == with_exits(
                events@,
                exits@,
                0,
                0,
            ),
            as_ints(positions@) + shifted(
                events@,
                exits@,
                at as int,
                line as int,
                out.len() as int,
            ) == shifted(events@, exits@, 0, 0, 0),
            rising(as_ints(positions@), out.len() as int),
        decreases events.len() - at,
    {
        let event = events[at];
        let ghost out_before = out@;
        let ghost positions_before = as_ints(positions@);
        let ending = match (event.event_type, event.token_type) {
            (EventType::Enter, TokenType::LineEnding) => true,
            (EventType::Enter, TokenType::BlankLineEnding) => true,
            _ => false,
        };
        if ending {
            if line < exits.len() {
                match &exits[line] {
                    Some(list) => {
                        let mut index: usize = 0;
                        while index < list.len()
                            invariant
                                index <= list.len(),
                                out@ == out_before + stamped(list@, event.point, event.index).take(
                                    index as int,
                                ),
                            decreases list.len() - index,
                        {
                            let mut exit = list[index];
                            exit.point = event.point;
                            exit.index = event.index;
                            out.push(exit);
                            index += 1;
                            proof {
                                assert(stamped(list@, event.point, event.index).take(index as int)
                                    =~= stamped(list@, event.point, event.index).take(index - 1).push(exit));
                            }
                        }
                        proof {
                            assert(stamped(list@, event.point, event.index).take(list.len() as int)
                                =~= stamped(list@, event.point, event.index));
                        }
                    },
                    None => {},
                }
            }
            proof {
                assert(out@ =~= out_before + stamped(exits_on(exits@, line as int), event.point, event.index));
            }
            let ghost moved = out.len() as int;
            positions.push(out.len());
            out.push(event);
            proof {
                assert(out@ + with_exits(events@, exits@, at + 1, line + 1) =~= out_before + (
                stamped(exits_on(exits@, line as int), event.point, event.index) + seq![event] + with_exits(
                    events@,
                    exits@,
                    at + 1,
                    line + 1,
                )));
                assert(as_ints(positions@) =~= positions_before.push(moved));
                assert(as_ints(positions@) + shifted(events@, exits@, at + 1, line + 1, moved + 1)
                    =~= positions_before + (seq![moved] + shifted(
                    events@,
                    exits@,
                    at + 1,
                    line + 1,
                    moved + 1,
                )));
            }
            line += 1;
        } else {
            let ghost base = out.len() as int;
            positions.push(out.len());
            out.push(event);
            proof {
                assert(out@ + with_exits(events@, exits@, at + 1, line as int) =~= out_before + (
                seq![event] + with_exits(events@, exits@, at + 1, line as int)));
                assert(as_ints(positions@) =~= positions_before.push(base));
                assert(as_ints(positions@) + shifted(
                    events@,
                    exits@,
                    at + 1,
                    line as int,
                    base + 1,
                ) =~= positions_before + (seq![base] + shifted(
                    events@,
                    exits@,
                    at + 1,
                    line as int,
                    base + 1,
                )));
            }
        }
        at += 1;
    }
    proof {
        assert(out@ + Seq::<Event>::empty() =~= out@);
        assert(as_ints(positions@) + Seq::<int>::empty() =~= as_ints(positions@));
    }
    let others: Vec<usize> = Vec::new();
    proof {
        assert(as_ints(others@) =~= Seq::<int>::empty());
    }
    relink(&mut out, &positions, &others);
    (out, line)
}


/// The identifiers as plain strings of characters.
pub open spec fn names(list: Seq<String>) -> Seq<Seq<char>> {
    list.map_values(|id: String| id@)
}

/// The identifiers `ids`, followed by those of `more` that are new, each
/// once and in their order.
pub open spec fn adopted(ids: Seq<Seq<char>>, more: Seq<Seq<char>>) -> Seq<Seq<char>>
    decreases more.len(),
{
    if more.len() == 0 {
        ids
    } else if ids.contains(more[0]) {
        adopted(ids, more.skip(1))
    } else {
        adopted(ids.push(more[0]), more.skip(1))
    }
}

/// Whether `id` is among `list`.
fn has_name(list: &Vec<String>, id: &String) -> (r: bool)
    ensures
        r == names(list@).contains(id@),
{
    let mut index: usize = 0;
    while index < list.len()
        invariant
            index <= list.len(),
            forall|i: int| 0 <= i < index ==> names(list@)[i] != id@,
        decreases list.len() - index,
    {
        if list[index] == *id {
            assert(names(list@)[index as int] == id@);
            return true;
        }
        index += 1;
    }
    false
}

/// Add the identifiers of `more` that `ids` does not hold yet to `ids`,
/// and to `fresh` as well.
fn adopt(ids: &mut Vec<String>, fresh: &mut Vec<String>, more: &Vec<String>)
    ensures
        names(final(ids)@) == adopted(names(old(ids)@), names(more@)),
        names(final(fresh)@) == names(old(fresh)@) + names(final(ids)@).skip(
            old(ids).len() as int,
        ),
{
    let mut index: usize = 0;
    proof {
        assert(names(more@).skip(0) =~= names(more@));
        assert(names(fresh@) + names(ids@).skip(ids.len() as int) =~= names(fresh@));
    }
    while index < more.len()
        invariant
            index <= more.len(),
            ids.len() >= old(ids).len(),
            adopted(names(ids@), names(more@).skip(index as int)) == adopted(
                names(old(ids)@),
                names(more@),
            ),
            names(fresh@) == names(old(fresh)@) + names(ids@).skip(old(ids).len() as int),
        decreases more.len() - index,
    {
        let ghost ids_before = names(ids@);
        let ghost fresh_before = names(fresh@);
        let ghost rest = names(more@).skip(index as int);
        assert(rest[0] == more[index as int]@);
        assert(rest.skip(1) =~= names(more@).skip(index + 1));
        if !has_name(ids, &more[index]) {
            ids.push(more[index].clone());
            fresh.push(more[index].clone());
            proof {
                assert(names(ids@) =~= ids_before.push(rest[0]));
                assert(names(fresh@) =~= fresh_before.push(rest[0]));
                assert(names(fresh@) =~= names(old(fresh)@) + names(ids@).skip(
                    old(ids).len() as int,
                ));
            }
        }
        index += 1;
    }
}

/// Adopting identifiers only ever adds to the end.
pub proof fn lemma_adopted_extends(ids: Seq<Seq<char>>, more: Seq<Seq<char>>)
    ensures
        adopted(ids, more).len() >= ids.len(),
        adopted(ids, more).take(ids.len() as int) == ids,
    decreases more.len(),
{
    if more.len() == 0 {
        assert(ids.take(ids.len() as int) =~= ids);
    } else if ids.contains(more[0]) {
        lemma_adopted_extends(ids, more.skip(1));
    } else {
        let grown = ids.push(more[0]);
        lemma_adopted_extends(grown, more.skip(1));
        assert(adopted(grown, more.skip(1)).take(ids.len() as int) =~= adopted(
            grown,
            more.skip(1),
        ).take(grown.len() as int).take(ids.len() as int));
        assert(grown.take(ids.len() as int) =~= ids);
    }
}

/// Whether `after` is `before` with everything put together, where the
/// child of `before` is `child`.
///
/// The exits of the containers stand in the flow events, each right before
/// the line ending of the line for which it was put off, at the place of
/// that line ending.  The flow events stand in place of the chain of `Data`
/// spans of the document, which starts at its first `Data` event.  The exits
/// that were put off for the line after the last line ending come last, at
/// the place where the document stands.  The resolvers of the child are the
/// document's now: those under an id that the document does not know yet,
/// in their order, as the first registration under an id wins.  The
/// definitions of the child are the document's too: all of them, in their
/// order, after those of the document.  The child is done with: it keeps
/// neither resolvers nor definitions, and attempts that it had under way
/// are given up.
pub open spec fn put_together(after: &Tokenizer, before: &Tokenizer, child: &Tokenizer) -> bool {
    let flow = flow_with_exits(child.events@, before.exits@);
    let head = first_of(before.events@, 0, seq![TokenType::Data]) as usize;
    &&& after.events@ == spliced(before.events@, head, flow) + stamped(
        exits_on(before.exits@, line_endings(child.events@, 0)),
        before.point,
        before.index,
    )
    &&& names(after.resolver_ids@) == adopted(
        names(before.resolver_ids@),
        names(child.resolvers@),
    )
    &&& names(after.resolvers@) == names(before.resolvers@) + names(after.resolver_ids@).skip(
        before.resolver_ids.len() as int,
    )
    &&& after.definitions@ == before.definitions@ + child.definitions@
    &&& after.data_index is None
    &&& after.child matches Some(left) && {
        &&& left.resolvers.len() == 0
        &&& left.definitions.len() == 0
        &&& left.attempts.len() == 0
        &&& *left == (Tokenizer {
            resolvers: left.resolvers,
            definitions: left.definitions,
            attempts: left.attempts,
            ..*child
        })
    }
    &&& *after == (Tokenizer {
        events: after.events,
        resolvers: after.resolvers,
        resolver_ids: after.resolver_ids,
        definitions: after.definitions,
        data_index: None,
        child: after.child,
        ..*before
    })
}

/// Monotonic position of the events of a document that are put together:
/// their offsets never go back, where those of the document's own events
/// and those of the flow events never go back, none of them lies beyond the
/// place where the document stands, and each chunk of the flow events, with
/// the exits in place, lies within the span of data whose place it takes.
pub proof fn lemma_put_together_ordered(after: &Tokenizer, before: &Tokenizer, child: &Tokenizer)
    requires
        put_together(after, before, child),
        ordered(before.events@),
        ordered(child.events@),
        forall|i: int|
            0 <= i < before.events.len() ==> (#[trigger] before.events[i]).point.offset
                <= before.point.offset,
        forall|i: int|
            0 <= i < child.events.len() ==> (#[trigger] child.events[i]).point.offset
                <= before.point.offset,
        chunks_within(
            before.events@,
            flow_with_exits(child.events@, before.exits@),
            0,
            0,
            Some(first_of(before.events@, 0, seq![TokenType::Data]) as usize),
        ),
    ensures
        ordered(after.events@),
{
    let bound = before.point.offset;
    let head = first_of(before.events@, 0, seq![TokenType::Data]) as usize;
    let placed = with_exits(child.events@, before.exits@, 0, 0);
    let flow = flow_with_exits(child.events@, before.exits@);
    lemma_exits_keep_order(child.events@, before.exits@);
    lemma_with_exits_bounded(child.events@, before.exits@, 0, 0, bound);
    assert forall|i: int| 0 <= i < flow.len() implies (#[trigger] flow[i]).point.offset
        <= bound by {
        assert(flow[i].point == placed[i].point);
    }
    lemma_spliced_ordered(before.events@, head, flow);
    lemma_merged_bounded(before.events@, flow, 0, 0, Some(head), bound);
    let made = merged(before.events@, flow, 0, 0, Some(head));
    let inner = spliced(before.events@, head, flow);
    let last = stamped(
        exits_on(before.exits@, line_endings(child.events@, 0)),
        before.point,
        before.index,
    );
    let all = after.events@;
    assert(all == inner + last);
    assert forall|i: int, j: int| 0 <= i <= j < all.len() implies all[i].point.offset
        <= all[j].point.offset by {
        if j < inner.len() {
            assert(all[i] == inner[i] && all[j] == inner[j]);
        } else if i < inner.len() {
            assert(all[i] == inner[i]);
            assert(inner[i].point == made[i].point);
            assert(all[j] == last[j - inner.len()]);
        } else {
            assert(all[i] == last[i - inner.len()] && all[j] == last[j - inner.len()]);
        }
    }
}

/// The events of the document with everything put together: the flow
/// events, with the exits that were put off in place, stand in for the
/// `Data` spans, and the exits that were put off for the last line come
/// last.
fn merge_flow(tokenizer: &Tokenizer) -> (events: Vec<Event>)
    requires
        tokenizer.child is Some,
    ensures
        events@ == spliced(
            tokenizer.events@,
            first_of(tokenizer.events@, 0, seq![TokenType::Data]) as usize,
            flow_with_exits(tokenizer.child->0.events@, tokenizer.exits@),
        ) + stamped(
            exits_on(tokenizer.exits@, line_endings(tokenizer.child->0.events@, 0)),
            tokenizer.point,
            tokenizer.index,
        ),
{
    match &tokenizer.child {
        Some(child) => {
            // First, add the container exits into the flow.
            let (flow, line) = add_exits(&child.events, &tokenizer.exits);
            // Now, add all flow events into our document.
            let data = vec![TokenType::Data];
            proof {
                assert(data@ =~= seq![TokenType::Data]);
            }
            let head = crate::util::skip::to(tokenizer.events.as_slice(), 0, data.as_slice());
            let mut events = divide_events(&tokenizer.events, head, &flow);
            // Now, add some final container exits due to the EOF.
            // We can't inject them into the flow earlier, as they are
            // "outside" its linked data.
            let ghost merged_events = events@;
            let ghost last = stamped(
                exits_on(tokenizer.exits@, line as int),
                tokenizer.point,
                tokenizer.index,
            );
            if line < tokenizer.exits.len() {
                match &tokenizer.exits[line] {
                    Some(list) => {
                        let mut index: usize = 0;
                        while index < list.len()
                            invariant
                                index <= list.len(),
                                last == stamped(list@, tokenizer.point, tokenizer.index),
                                events@ == merged_events + last.take(index as int),
                            decreases list.len() - index,
                        {
                            let mut exit = list[index];
                            exit.point = tokenizer.point;
                            exit.index = tokenizer.index;
                            events.push(exit);
                            index += 1;
                            proof {
                                assert(last.take(index as int) =~= last.take(index - 1).push(exit));
                            }
                        }
                        proof {
                            assert(last.take(list.len() as int) =~= last);
                        }
                    },
                    None => {},
                }
            }
            proof {
                assert(events@ =~= merged_events + last);
            }
            events
        },
        None => Vec::new(),
    }
}

/// Take the resolvers and the definitions out of the child, which is done
/// with, and give up the attempts that it had under way.
fn retire_child(tokenizer: &mut Tokenizer) -> (lists: (Vec<String>, Vec<String>))
    requires
        old(tokenizer).wf(),
        old(tokenizer).child is Some,
        old(tokenizer).attempts.len() == 0,
    ensures
        lists.0@ == old(tokenizer).child->0.resolvers@,
        lists.1@ == old(tokenizer).child->0.definitions@,
        final(tokenizer).child matches Some(left) && {
            &&& left.resolvers.len() == 0
            &&& left.definitions.len() == 0
            &&& left.attempts.len() == 0
            &&& *left == (Tokenizer {
                resolvers: left.resolvers,
                definitions: left.definitions,
                attempts: left.attempts,
                ..*old(tokenizer).child->0
            })
        },
        *final(tokenizer) == (Tokenizer { child: final(tokenizer).child, ..*old(tokenizer) }),
        final(tokenizer).wf(),
{
    let mut child_resolvers: Vec<String> = Vec::new();
    let mut child_definitions: Vec<String> = Vec::new();
    match tokenizer.child.take() {
        Some(child) => {
            let mut child = child;
            let ghost before = *child;
            proof {
                reveal_with_fuel(Tokenizer::wf, 2);
            }
            std::mem::swap(&mut child_resolvers, &mut child.resolvers);
            std::mem::swap(&mut child_definitions, &mut child.definitions);
            child.attempts = Vec::new();
            proof {
                assert(child.core_wf()) by {
                    assert(child.attempts_wf());
                }
                assert(child.wf());
                match old(tokenizer).child_state {
                    Some(state) => {
                        assert(before.admits(state));
                        assert(child.admits(state));
                    },
                    None => {},
                }
            }
            tokenizer.child = Some(child);
        },
        None => {},
    }
    proof {
        assert(tokenizer.core_wf()) by {
            assert(tokenizer.attempts_wf());
        }
    }
    (child_resolvers, child_definitions)
}

/// Inject everything together.
///
/// The exits of the containers go into the flow events, each right before
/// the line ending of the line for which it was put off.  The flow events
/// then take the place of the `Data` spans of the document, and the exits
/// that were put off for the last line come last.  The document takes over
/// the resolvers of its child, those under an id that it does not know yet,
/// and all definitions of its child, in their order.  The child is left
/// without resolvers and definitions, and without attempts.
pub fn resolve(tokenizer: &mut Tokenizer)
    requires
        old(tokenizer).wf(),
        old(tokenizer).child is Some,
        old(tokenizer).attempts.len() == 0,
    ensures
        put_together(&*final(tokenizer), &*old(tokenizer), &*old(tokenizer).child->0),
        final(tokenizer).wf(),
{
    let events = merge_flow(tokenizer);
    let (child_resolvers, child_definitions) = retire_child(tokenizer);
    let mut child_definitions = child_definitions;
    // Add the resolvers and definitions from the flow.
    let mut resolver_ids: Vec<String> = Vec::new();
    let mut resolvers: Vec<String> = Vec::new();
    std::mem::swap(&mut resolver_ids, &mut tokenizer.resolver_ids);
    std::mem::swap(&mut resolvers, &mut tokenizer.resolvers);
    adopt(&mut resolver_ids, &mut resolvers, &child_resolvers);
    tokenizer.resolver_ids = resolver_ids;
    tokenizer.resolvers = resolvers;
    tokenizer.definitions.append(&mut child_definitions);
    tokenizer.events = events;
    tokenizer.data_index = None;
    proof {
        assert(tokenizer.core_wf()) by {
            assert(tokenizer.attempts_wf());
        }
    }
}

/// After new container.
///
/// ```markdown
/// > | * a
///       ^
/// > | > b
///       ^
/// ```
///
/// It was a new block quote or a list.  The tentative container leaves its
/// slot.  If existing containers were not continued, the flow and those
/// containers are closed.  Then the new container is open for good.
///
/// Where a container that is to be closed has no span on the stack, nothing
/// is done and the document fails.
pub fn container_new_after<C: Constructs>(tokenizer: &mut Tokenizer, constructs: &C) -> (next:
    State)
    requires
        old(tokenizer).wf(),
        !old(tokenizer).consumed,
        old(tokenizer).ready(StateName::DocumentContainerNewAfter),
    ensures
        ({
            let before = &*old(tokenizer);
            let after = &*final(tokenizer);
            let continued = before.continued as int;
            let container = before.container_stack[continued];
            let rest = without_tentative(before.container_stack@, continued);
            if continued != rest.len() && !spans_on(before.stack@, rest.skip(continued)) {
                &&& next == State::Nok
                &&& *after == *before
            } else {
                &&& next == State::Retry(StateName::DocumentContainerNewBefore)
                &&& after.container_stack@ == rest.take(continued).push(container)
                &&& after.continued == continued + 1
                &&& !after.interrupt
                &&& if continued != rest.len() {
                    spans_closed(
                        &(Tokenizer {
                            continued: before.continued,
                            interrupt: before.interrupt,
                            ..*after
                        }),
                        before,
                        rest.skip(continued),
                        Phase::Prefix,
                    )
                } else {
                    *after == (Tokenizer {
                        container_stack: after.container_stack,
                        continued: after.continued,
                        interrupt: false,
                        ..*before
                    })
                }
            }
        }),
        final(tokenizer).follows(old(tokenizer)),
        final(tokenizer).admits(next),
{
    // If we did not continue all existing containers, and there is a new
    // one, the flow and those containers are to be closed: their spans
    // have to be there.
    let mut rest = copy_of(&tokenizer.container_stack);
    rest.swap_remove(tokenizer.continued);
    if tokenizer.continued != rest.len() && !has_spans(
        &tokenizer.stack,
        &rest,
        tokenizer.continued,
    ) {
        proof {
            tokenizer.lemma_bottom_follows(old(tokenizer));
        }
        return State::Nok;
    }
    let container = tokenizer.container_stack.swap_remove(tokenizer.continued);
    proof {
        assert(tokenizer.core_wf()) by {
            assert(tokenizer.attempts_wf());
        }
    }
    if tokenizer.continued != tokenizer.container_stack.len() {
        exit_containers(tokenizer, constructs, Phase::Prefix);
    } else {
        proof {
            assert(tokenizer.container_stack@.take(tokenizer.continued as int)
                =~= tokenizer.container_stack@);
        }
    }
    tokenizer.container_stack.push(container);
    tokenizer.continued += 1;
    tokenizer.interrupt = false;
    proof {
        assert(tokenizer.core_wf()) by {
            assert(tokenizer.attempts_wf());
        }
        tokenizer.lemma_bottom_follows(old(tokenizer));
    }
    State::Retry(StateName::DocumentContainerNewBefore)
}

/// Whether flow that was suspended in `state`, with `events` so far, ended
/// in a paragraph: the state is inside a paragraph, or the last event that
/// is no line ending belongs to a paragraph.
pub open spec fn in_paragraph(events: Seq<Event>, state: State) -> bool {
    state == State::Next(StateName::ParagraphInside) || (events.len() > 0 && match crate::util::skip::skipped_backward(
        events,
        events.len() - 1,
        seq![TokenType::LineEnding],
    ) {
        Some(index) => events[index].token_type == TokenType::Paragraph,
        None => false,
    })
}

/// Whether flow that was suspended in `state`, with `events` so far, ended
/// in a paragraph.
pub fn ends_in_paragraph(events: &Vec<Event>, state: State) -> (r: bool)
    ensures
        r == in_paragraph(events@, state),
{
    if state == State::Next(StateName::ParagraphInside) {
        return true;
    }
    if events.len() == 0 {
        return false;
    }
    let token_types = vec![TokenType::LineEnding];
    proof {
        assert(token_types@ =~= seq![TokenType::LineEnding]);
        crate::util::skip::lemma_skipped_backward_bounds(
            events@,
            events.len() - 1,
            token_types@,
        );
    }
    match crate::util::skip::skip_opt_with_direction(
        events.as_slice(),
        events.len() - 1,
        token_types.as_slice(),
        false,
    ) {
        Some(index) => events[index].token_type == TokenType::Paragraph,
        None => false,
    }
}

/// Hand the child the flow of the line, up to where the document stands.
///
/// A fresh entry for put-off exits goes on record for the line.  The child
/// is fed from where it stands up to where the document stands, from the
/// state in which it was suspended, or from the start of flow, and its new
/// state is kept.
pub fn feed_child<C: Constructs>(tokenizer: &mut Tokenizer, constructs: &C)
    requires
        old(tokenizer).wf(),
        old(tokenizer).child is Some,
        old(tokenizer).attempts.len() == 0,
    ensures
        final(tokenizer).child is Some,
        final(tokenizer).child_state is Some,
        child_fed(
            &*final(tokenizer).child->0,
            final(tokenizer).child_state->0,
            &*old(tokenizer).child->0,
            old(tokenizer).child_state,
            old(tokenizer).index,
        ),
        final(tokenizer).exits@ == old(tokenizer).exits@.push(None),
        *final(tokenizer) == (Tokenizer {
            child: final(tokenizer).child,
            child_state: final(tokenizer).child_state,
            exits: final(tokenizer).exits,
            ..*old(tokenizer)
        }),
        final(tokenizer).wf(),
{
    let state = match tokenizer.child_state {
        Some(state) => state,
        None => State::Next(StateName::FlowStart),
    };
    tokenizer.exits.push(None);
    let to = tokenizer.index;
    match tokenizer.child.take() {
        Some(child) => {
            let mut child = child;
            proof {
                reveal_with_fuel(Tokenizer::wf, 2);
                assert(child.moved_for(child.index) == *child);
            }
            let from = child.index;
            let next = child.push(constructs, from, to, state);
            tokenizer.child_state = Some(next);
            tokenizer.child = Some(child);
        },
        None => {},
    }
    proof {
        assert(tokenizer.core_wf()) by {
            assert(tokenizer.attempts_wf());
        }
    }
}

/// Settle which containers stay open after the flow of a line, and return
/// whether the line ended in a paragraph.
///
/// A lazy line that carries on the paragraph of the line before continues
/// every open container.  Otherwise the containers that were not continued
/// are closed, with their exits put off for the line before.
pub fn close_line<C: Constructs>(tokenizer: &mut Tokenizer, constructs: &C) -> (paragraph: bool)
    requires
        old(tokenizer).wf(),
        old(tokenizer).child is Some,
        old(tokenizer).child_state is Some,
        old(tokenizer).attempts.len() == 0,
        old(tokenizer).continued < old(tokenizer).container_stack.len() ==> old(tokenizer).exits.len()
            >= 2,
        spans_on(
            old(tokenizer).stack@,
            old(tokenizer).container_stack@.skip(old(tokenizer).continued as int),
        ),
    ensures
        paragraph == in_paragraph(
            old(tokenizer).child->0.events@,
            old(tokenizer).child_state->0,
        ),
        line_closed(&*final(tokenizer), &*old(tokenizer)),
        final(tokenizer).child is Some,
        final(tokenizer).child_state is Some,
        final(tokenizer).continued == final(tokenizer).container_stack.len(),
        final(tokenizer).wf(),
{
    let (paragraph, lazy) = match (&tokenizer.child, tokenizer.child_state) {
        (Some(child), Some(state)) => (ends_in_paragraph(&child.events, state), child.lazy),
        _ => (false, false),
    };
    if lazy && paragraph && tokenizer.paragraph_before {
        tokenizer.continued = tokenizer.container_stack.len();
        proof {
            assert(tokenizer.core_wf()) by {
                assert(tokenizer.attempts_wf());
            }
        }
    }
    if tokenizer.continued != tokenizer.container_stack.len() {
        exit_containers(tokenizer, constructs, Phase::After);
    }
    paragraph
}

/// Whether the line that the child of `before` was fed carries on lazily:
/// the line is lazy, it ended in a paragraph, and so did the line before.
pub open spec fn carries_on(before: &Tokenizer) -> bool {
    &&& before.child->0.lazy
    &&& in_paragraph(before.child->0.events@, before.child_state->0)
    &&& before.paragraph_before
}

/// Whether `after` is `before` with the containers settled that stay open
/// after the flow of the line.
///
/// Where the line carries on lazily, or every container was continued, all
/// containers count as continued and nothing else changes.  Otherwise the
/// containers that were not continued are closed, with their exits put off
/// for the line before.
pub open spec fn line_closed(after: &Tokenizer, before: &Tokenizer) -> bool {
    if carries_on(before) || before.continued == before.container_stack.len() {
        *after == (Tokenizer { continued: before.container_stack.len(), ..*before })
    } else {
        &&& after.continued == before.continued
        &&& after.container_stack@ == before.container_stack@.take(before.continued as int)
        &&& spans_closed(
            after,
            before,
            before.container_stack@.skip(before.continued as int),
            Phase::After,
        )
    }
}

/// Whether `after` is `before` with the child fed the flow of the line: a
/// fresh entry for put-off exits is on record, and the child was fed up to
/// where the document stands.
pub open spec fn line_fed(after: &Tokenizer, before: &Tokenizer) -> bool {
    &&& after.child is Some
    &&& after.child_state is Some
    &&& child_fed(
        &*after.child->0,
        after.child_state->0,
        &*before.child->0,
        before.child_state,
        before.index,
    )
    &&& after.exits@ == before.exits@.push(None)
    &&& *after == (Tokenizer {
        child: after.child,
        child_state: after.child_state,
        exits: after.exits,
        ..*before
    })
}

/// Whether `after` is `before` at the end of the document, where the child
/// of `before` as it was after it was fed the end of the flow is `flushed`.
///
/// Every container is closed, with the exits put off for the current line,
/// the child was fed the end of the flow, and everything is put together.
pub open spec fn document_closed(after: &Tokenizer, before: &Tokenizer, flushed: &Tokenizer) -> bool {
    let all = before.container_stack@;
    let slot = before.exits.len() - 1;
    let closed = Tokenizer {
        container_stack: after.container_stack,
        stack: after.stack,
        exits: after.exits,
        child: Some(Box::new(*flushed)),
        child_state: after.child_state,
        continued: 0,
        ..*before
    };
    &&& after.container_stack.len() == 0
    &&& after.continued == 0
    &&& spans_closed(&closed, &(Tokenizer { continued: 0, ..*before }), all, Phase::Eof)
    &&& put_together(after, &closed, flushed)
}

/// End the document: close every container and put everything together.
///
/// The child is fed the end of the flow, so that it closes what it has
/// open.  The exits of the containers are put off for the current line.
/// Then the events of the child take the place of the flow in the events of
/// the document.
pub fn document_end<C: Constructs>(tokenizer: &mut Tokenizer, constructs: &C)
    requires
        old(tokenizer).wf(),
        old(tokenizer).child is Some,
        old(tokenizer).attempts.len() == 0,
        old(tokenizer).exits.len() >= 1,
        spans_on(old(tokenizer).stack@, old(tokenizer).container_stack@),
    ensures
        exists|flushed: Tokenizer| #[trigger]
            document_closed(&*final(tokenizer), &*old(tokenizer), &flushed),
        final(tokenizer).stack@ == stack_closing(
            old(tokenizer).stack@,
            old(tokenizer).container_stack@,
        ),
        final(tokenizer).stack.len() == old(tokenizer).stack.len() - old(
            tokenizer,
        ).container_stack.len(),
        final(tokenizer).child is Some,
        final(tokenizer).data_index is None,
        final(tokenizer).container_stack.len() == 0,
        final(tokenizer).events@ == spliced(
            old(tokenizer).events@,
            first_of(old(tokenizer).events@, 0, seq![TokenType::Data]) as usize,
            flow_with_exits(final(tokenizer).child->0.events@, final(tokenizer).exits@),
        ) + stamped(
            exits_on(final(tokenizer).exits@, line_endings(final(tokenizer).child->0.events@, 0)),
            old(tokenizer).point,
            old(tokenizer).index,
        ),
        final(tokenizer).wf(),
{
    tokenizer.continued = 0;
    proof {
        assert(tokenizer.core_wf()) by {
            assert(tokenizer.attempts_wf());
        }
        assert(tokenizer.container_stack@.skip(0) =~= tokenizer.container_stack@);
    }
    let ghost zeroed = *tokenizer;
    exit_containers(tokenizer, constructs, Phase::Eof);
    let ghost closed = *tokenizer;
    let ghost flushed = *closed.child->0;
    resolve(tokenizer);
    proof {
        assert(closed.container_stack@ =~= Seq::<ContainerState>::empty());
        assert(closed.child == Some(Box::new(flushed)));
        assert(document_closed(&*tokenizer, old(tokenizer), &flushed));
    }
}

/// Whether `after` is `before` after the flow of the last line, where the
/// document was `fed` once its child was fed the flow of the line, `settled`
/// once the containers were settled that stay open after that line, and the
/// child was `flushed` once it was fed the end of the flow.
pub open spec fn document_ended(
    after: &Tokenizer,
    before: &Tokenizer,
    fed: &Tokenizer,
    settled: &Tokenizer,
    flushed: &Tokenizer,
) -> bool {
    &&& line_fed(fed, before)
    &&& line_closed(settled, fed)
    &&& document_closed(after, settled, flushed)
}

/// Whether `after` is `before` after the flow of a line that is not the
/// last.
///
/// The child was fed the flow of the line, up to where the document stands.
/// A lazy line that carries on the paragraph of the line before, as the
/// child tells, continues every open container.  Otherwise the containers
/// that were not continued are closed, with their exits put off for the
/// line before.  Then the next line begins: no container is continued yet,
/// nothing is interrupted, and whether the line ended in a paragraph is on
/// record.
pub open spec fn line_ended(after: &Tokenizer, before: &Tokenizer) -> bool {
    &&& after.child is Some
    &&& after.child_state is Some
    &&& child_fed(
        &*after.child->0,
        after.child_state->0,
        &*before.child->0,
        before.child_state,
        before.index,
    )
    &&& after.continued == 0
    &&& !after.interrupt
    &&& after.paragraph_before == in_paragraph(after.child->0.events@, after.child_state->0)
    &&& after.exits.len() == before.exits.len() + 1
    &&& after.exits@.last() is None
    &&& if (after.child->0.lazy && after.paragraph_before && before.paragraph_before)
        || before.continued == before.container_stack.len() {
        &&& after.container_stack@ == before.container_stack@
        &&& after.stack@ == before.stack@
        &&& after.exits@ == before.exits@.push(None)
    } else {
        let closed = before.container_stack@.skip(before.continued as int);
        let slot = before.exits.len() - 1;
        &&& !after.child->0.interrupt
        &&& after.container_stack@ == before.container_stack@.take(before.continued as int)
        &&& after.stack@ == stack_closing(before.stack@, closed)
        &&& after.stack.len() == before.stack.len() - closed.len()
        &&& forall|line: int|
            0 <= line < before.exits.len() && line != slot ==> after.exits[line]
                == before.exits[line]
        &&& put_off(after.exits[slot]) == put_off(before.exits[slot]) + exits_of(
            closed,
            before.point,
            before.index,
        )
    }
    &&& *after == (Tokenizer {
        container_stack: after.container_stack,
        stack: after.stack,
        exits: after.exits,
        child: after.child,
        child_state: after.child_state,
        continued: 0,
        paragraph_before: after.paragraph_before,
        interrupt: false,
        ..*before
    })
}

/// A line carries on lazily, or closes what it did not continue: after the
/// flow of a line that is not the last, every container is still open
/// exactly where every container was continued, or the line is lazy and ends
/// in a paragraph as the line before did.  Then nothing is closed and no exit
/// is put off.  Otherwise the containers that were continued are left, and
/// one exit for each of the others is put off for the line before.
pub proof fn lemma_lazy_line_carries_on(after: &Tokenizer, before: &Tokenizer)
    requires
        before.wf(),
        line_ended(after, before),
    ensures
        after.container_stack@ == before.container_stack@ <==> (after.child->0.lazy
            && after.paragraph_before && before.paragraph_before) || before.continued
            == before.container_stack.len(),
        after.container_stack@ == before.container_stack@ ==> after.stack@ == before.stack@
            && after.exits@ == before.exits@.push(None),
        after.container_stack@ != before.container_stack@ ==> after.container_stack.len()
            == before.continued && put_off(after.exits[before.exits.len() - 1]).len() == put_off(
            before.exits[before.exits.len() - 1],
        ).len() + before.container_stack.len() - before.continued,
{
    let carried = (after.child->0.lazy && after.paragraph_before && before.paragraph_before)
        || before.continued == before.container_stack.len();
    if !carried {
        assert(before.continued < before.container_stack.len());
        assert(after.container_stack@.len() == before.continued);
        let closed = before.container_stack@.skip(before.continued as int);
        lemma_exits_of_len(closed, before.point, before.index);
    }
}

/// After flow (after eol or at eof).
///
/// ```markdown
///   | * a
/// > | > b
///     ^  ^
/// ```
///
/// The child is fed the flow of the line, and the containers that the line
/// closed are closed.  At the end of the input every container is closed
/// and everything is put together; otherwise the next line begins.
///
/// The document ends well if its events are sound once everything is put
/// together: nested, with the stack as the spans left open, and ordered.
/// Whether they are depends on what the flow made of its lines; where they
/// are not, the document fails with the events as they were put together.
///
/// Where a container that may have to be closed has no span on the stack,
/// nothing is done and the document fails: at the end of the input that is
/// any container, otherwise any that was not continued.
pub fn flow_end<C: Constructs>(tokenizer: &mut Tokenizer, constructs: &C) -> (next: State)
    requires
        old(tokenizer).wf(),
        !old(tokenizer).consumed,
        old(tokenizer).ready(StateName::DocumentFlowEnd),
    ensures
        ({
            let before = &*old(tokenizer);
            let after = &*final(tokenizer);
            let last = before.current == Code::End;
            if !spans_on(
                before.stack@,
                before.container_stack@.skip(
                    if last {
                        0
                    } else {
                        before.continued as int
                    },
                ),
            ) {
                &&& next == State::Nok
                &&& *after == *before
            } else if last {
                &&& next == if after.sound() {
                    State::Okay
                } else {
                    State::Nok
                }
                &&& exists|fed: Tokenizer, settled: Tokenizer, flushed: Tokenizer| #[trigger]
                    document_ended(after, before, &fed, &settled, &flushed)
                &&& after.stack@ == stack_closing(before.stack@, before.container_stack@)
                &&& after.stack.len() == before.stack.len() - before.container_stack.len()
                &&& after.container_stack.len() == 0
                &&& after.data_index is None
                &&& after.exits.len() == before.exits.len() + 1
                &&& after.events@ == spliced(
                    before.events@,
                    first_of(before.events@, 0, seq![TokenType::Data]) as usize,
                    flow_with_exits(after.child->0.events@, after.exits@),
                ) + stamped(
                    exits_on(after.exits@, line_endings(after.child->0.events@, 0)),
                    before.point,
                    before.index,
                )
            } else {
                &&& next == State::Retry(StateName::DocumentContainerExistingBefore)
                &&& line_ended(after, before)
            }
        }),
        final(tokenizer).follows(old(tokenizer)),
        final(tokenizer).admits(next),
{
    let from = match tokenizer.current {
        Code::End => 0,
        _ => tokenizer.continued,
    };
    if !has_spans(&tokenizer.stack, &tokenizer.container_stack, from) {
        proof {
            tokenizer.lemma_bottom_follows(old(tokenizer));
        }
        return State::Nok;
    }
    proof {
        lemma_spans_split(
            tokenizer.stack@,
            tokenizer.container_stack@,
            tokenizer.continued as int,
        );
        assert(tokenizer.container_stack@.skip(0) =~= tokenizer.container_stack@);
    }
    feed_child(tokenizer, constructs);
    let ghost fed = *tokenizer;
    let paragraph = close_line(tokenizer, constructs);
    let ghost settled = *tokenizer;
    match tokenizer.current {
        Code::End => {
            proof {
                if !(carries_on(&fed) || fed.continued == fed.container_stack.len()) {
                    assert(settled.container_stack@.take(settled.container_stack.len() as int)
                        =~= settled.container_stack@);
                } else {
                    assert(fed.container_stack@.take(fed.container_stack.len() as int)
                        =~= fed.container_stack@);
                }
            }
            document_end(tokenizer, constructs);
            proof {
                let flushed = choose|flushed: Tokenizer| #[trigger]
                    document_closed(&*tokenizer, &settled, &flushed);
                assert(line_fed(&fed, old(tokenizer)));
                assert(line_closed(&settled, &fed));
                assert(document_ended(&*tokenizer, old(tokenizer), &fed, &settled, &flushed));
                lemma_stack_closing_len(old(tokenizer).stack@, old(tokenizer).container_stack@);
                tokenizer.lemma_bottom_follows(old(tokenizer));
            }
            if tokenizer.is_sound() {
                State::Okay
            } else {
                State::Nok
            }
        },
        _ => {
            tokenizer.continued = 0;
            tokenizer.paragraph_before = paragraph;
            // Containers would only be interrupting if we've continued.
            tokenizer.interrupt = false;
            proof {
                assert(tokenizer.core_wf()) by {
                    assert(tokenizer.attempts_wf());
                }
                lemma_stack_closing_len(
                    old(tokenizer).stack@,
                    old(tokenizer).container_stack@.skip(old(tokenizer).continued as int),
                );
                tokenizer.lemma_bottom_follows(old(tokenizer));
            }
            State::Retry(StateName::DocumentContainerExistingBefore)
        },
    }
}

/// The document driver on top of the constructs for containers and flow.
///
/// It runs the states of the document itself, byte order mark included, and
/// the resolvers for attention and media, and leaves every other state and
/// resolver to `constructs`.
pub struct Document<C: Constructs> {
    /// The constructs that recognise containers and flow.
    pub constructs: C,
}

impl<C: Constructs> Constructs for Document<C> {
    fn call(&self, tokenizer: &mut Tokenizer, name: StateName) -> (next: State) {
        match name {
            StateName::DocumentStart => start(tokenizer),
            StateName::DocumentContainerExistingBefore => container_existing_before(tokenizer),
            StateName::DocumentContainerExistingAfter => container_existing_after(tokenizer),
            StateName::DocumentContainerNewBefore => container_new_before(tokenizer),
            StateName::DocumentContainerNewBeforeNotBlockQuote => {
                container_new_before_not_block_quote(tokenizer)
            },
            StateName::DocumentContainerNewBeforeNotList => container_new_before_not_list(
                tokenizer,
            ),
            StateName::DocumentContainerNewAfter => container_new_after(
                tokenizer,
                &self.constructs,
            ),
            StateName::DocumentContainersAfter => containers_after(tokenizer),
            StateName::DocumentFlowInside => flow_inside(tokenizer),
            StateName::DocumentFlowEnd => flow_end(tokenizer, &self.constructs),
            StateName::BomStart => bom_start(tokenizer),
            _ => self.constructs.call(tokenizer, name),
        }
    }

    /// The resolvers for attention and media are run here; any other is
    /// left to the constructs.
    fn resolve(&self, tokenizer: &mut Tokenizer, id: &String) -> (fine: bool)
        ensures
            crate::construct::resolved_as(&*final(tokenizer), &*old(tokenizer), id@, fine),
    {
        match crate::construct::resolve_known(tokenizer, id) {
            Some(fine) => fine,
            None => self.constructs.resolve(tokenizer, id),
        }
    }
}

} // verus!
