//! Events: the `Enter`/`Exit` records that label spans of the input.

use crate::token::TokenType;
use vstd::prelude::*;

verus! {

/// Embedded content type.
#[derive(Debug, Clone, Copy, PartialEq, Eq, Structural)]
pub enum ContentType {
    /// Block-level content of containers.
    Flow,
    /// Inline content of paragraphs and headings.
    Text,
    /// Content of labels, destinations and titles.
    String,
}

/// A location in the document.
#[derive(Debug, Clone, Copy, PartialEq, Eq, Structural)]
pub struct Point {
    /// 1-indexed line number.
    pub line: usize,
    /// 1-indexed column number.
    pub column: usize,
    /// 0-indexed number of source bytes before this place.
    pub offset: usize,
}

/// Possible event types.
#[derive(Debug, Clone, Copy, PartialEq, Eq, Structural)]
pub enum EventType {
    /// The start of something.
    Enter,
    /// The end of something.
    Exit,
}

/// Something semantic happening somewhere.
#[derive(Debug, Clone, Copy, PartialEq, Eq, Structural)]
pub struct Event {
    /// Whether the span starts or ends here.
    pub event_type: EventType,
    /// The label of the span.
    pub token_type: TokenType,
    /// Where in the document it happens.
    pub point: Point,
    /// Where in the code stream it happens.
    pub index: usize,
    /// For linked content: the event that opens the previous chunk.
    pub previous: Option<usize>,
    /// For linked content: the event that opens the next chunk.
    pub next: Option<usize>,
    /// For content that is tokenized again later: its kind.
    pub content_type: Option<ContentType>,
}

/// The spans that are still open after `events`, outermost first, or `None`
/// when some exit does not close the span that was opened last.
pub open spec fn frontier(events: Seq<Event>) -> Option<Seq<TokenType>>
    decreases events.len(),
{
    if events.len() == 0 {
        Some(Seq::empty())
    } else {
        let last = events.last();
        match frontier(events.drop_last()) {
            None => None,
            Some(open) => match last.event_type {
                EventType::Enter => Some(open.push(last.token_type)),
                EventType::Exit => if open.len() > 0 && open.last() == last.token_type {
                    Some(open.drop_last())
                } else {
                    None
                },
            },
        }
    }
}

/// Every exit closes the most recent open enter of its name, and nothing
/// stays open.
pub open spec fn well_nested(events: Seq<Event>) -> bool {
    frontier(events) == Some(Seq::<TokenType>::empty())
}

/// Offsets never go back from one event to the next.
pub open spec fn ordered(events: Seq<Event>) -> bool {
    forall|i: int, j: int|
        0 <= i <= j < events.len() ==> events[i].point.offset <= events[j].point.offset
}

/// Walk `events` with a stack: `true` when every exit matches the span opened
/// last and the stack ends empty.
pub fn is_well_nested(events: &Vec<Event>) -> (r: bool)
    ensures
        r == well_nested(events@),
{
    let open: Vec<TokenType> = Vec::new();
    proof {
        assert(open@ =~= Seq::<TokenType>::empty());
    }
    has_frontier(events, &open)
}

/// Walk `events` with a stack: `true` when every exit matches the span opened
/// last and the stack ends as `stack`.
pub fn has_frontier(events: &Vec<Event>, stack: &Vec<TokenType>) -> (r: bool)
    ensures
        r == (frontier(events@) == Some(stack@)),
{
    let mut open: Vec<TokenType> = Vec::new();
    let mut index: usize = 0;
    while index < events.len()
        invariant
            index <= events.len(),
            frontier(events@.take(index as int)) == Some(open@),
        decreases events.len() - index,
    {
        let event = events[index];
        proof {
            assert(events@.take(index + 1).drop_last() =~= events@.take(index as int));
            assert(events@.take(index + 1).last() == event);
        }
        match event.event_type {
            EventType::Enter => {
                open.push(event.token_type);
            },
            EventType::Exit => {
                if open.len() > 0 && open[open.len() - 1] == event.token_type {
                    open.pop();
                } else {
                    proof {
                        lemma_frontier_stuck(events@, index + 1);
                    }
                    return false;
                }
            },
        }
        index += 1;
    }
    proof {
        assert(events@.take(index as int) =~= events@);
    }
    if open.len() != stack.len() {
        return false;
    }
    let mut depth: usize = 0;
    while depth < open.len()
        invariant
            depth <= open.len(),
            open.len() == stack.len(),
            frontier(events@) == Some(open@),
            forall|i: int| 0 <= i < depth ==> open[i] == stack[i],
        decreases open.len() - depth,
    {
        if open[depth] != stack[depth] {
            return false;
        }
        depth += 1;
    }
    proof {
        assert(open@ =~= stack@);
    }
    true
}

/// Whether offsets never go back from one event to the next.
pub fn is_ordered(events: &Vec<Event>) -> (r: bool)
    ensures
        r == ordered(events@),
{
    let mut index: usize = 1;
    while index < events.len()
        invariant
            1 <= index,
            forall|i: int, j: int|
                0 <= i <= j < index && j < events.len() ==> events[i].point.offset
                    <= events[j].point.offset,
        decreases events.len() - index,
    {
        if events[index - 1].point.offset > events[index].point.offset {
            return false;
        }
        index += 1;
    }
    true
}

/// Once a prefix of the events is not nested, no longer prefix is.
pub proof fn lemma_frontier_stuck(events: Seq<Event>, n: int)
    requires
        0 <= n <= events.len(),
        frontier(events.take(n)) is None,
    ensures
        frontier(events) is None,
    decreases events.len() - n,
{
    if n < events.len() {
        assert(events.take(n + 1).drop_last() =~= events.take(n));
        lemma_frontier_stuck(events, n + 1);
    } else {
        assert(events.take(n) =~= events);
    }
}

} // verus!
