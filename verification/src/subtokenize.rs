//! Splice the events of a child tokenizer into the events of its parent.
//!
//! The parent labels content that is tokenized again with spans that are
//! linked into a chain.  The child was fed the codes of those spans.  Its
//! events take the place of the spans: a linear merge, not a new parse.
//!
//! Flow is fed to its child by the document, line by line.  Text and
//! string are fed to a tokenizer of their own afterwards, one run of
//! content at a time.

use crate::event::{ordered, ContentType, Event, EventType, Point};
use crate::feed::Constructs;
use crate::parser::ParseState;
use crate::state::{State, StateName};
use crate::tokenizer::Tokenizer;
use vstd::prelude::*;

verus! {

/// Number of child events from `from` on that happened no later in the
/// stream than `end`.
pub open spec fn chunk_len(child: Seq<Event>, from: int, end: usize) -> int
    decreases child.len() - from,
{
    if from < 0 || from >= child.len() || child[from].index > end {
        0
    } else {
        1 + chunk_len(child, from + 1, end)
    }
}

/// Where in the child the chunk ends that belongs to the span opening at
/// `at` in the parent, when the chunk starts at `cursor`.
///
/// The last span of a chain takes all that is left.  Any other span takes
/// the events that happened up to where the span closes.
pub open spec fn chunk_end(parent: Seq<Event>, child: Seq<Event>, at: int, cursor: int) -> int {
    if parent[at].next is None {
        child.len() as int
    } else {
        let end = if at + 1 < parent.len() {
            parent[at + 1].index
        } else {
            parent[at].index
        };
        cursor + chunk_len(child, cursor, end)
    }
}

/// Where the parent goes on after the span at `at`: after the event that
/// opens the span and the event after that.
pub open spec fn after_span(parent: Seq<Event>, at: int) -> int {
    if at + 1 < parent.len() {
        at + 2
    } else {
        at + 1
    }
}

/// The link of the chain after the span at `at`: links lead on only, past
/// the span.
pub open spec fn next_link(parent: Seq<Event>, at: int) -> Option<usize> {
    match parent[at].next {
        Some(next) => if next > at + 1 {
            Some(next)
        } else {
            None
        },
        None => None,
    }
}

/// The parent events from `at` on, with each span of the chain, which goes
/// on at `link`, replaced by its chunk of the child events, which are handed
/// out from `cursor` on.  A span is the event at the link and the event
/// after it.
pub open spec fn merged(
    parent: Seq<Event>,
    child: Seq<Event>,
    at: int,
    cursor: int,
    link: Option<usize>,
) -> Seq<Event>
    decreases parent.len() - at,
{
    if at < 0 || at >= parent.len() || cursor < 0 || cursor > child.len() {
        Seq::empty()
    } else if link matches Some(index) && index == at {
        let end = chunk_end(parent, child, at, cursor);
        child.subrange(cursor, end) + merged(
            parent,
            child,
            after_span(parent, at),
            end,
            next_link(parent, at),
        )
    } else {
        seq![parent[at]] + merged(parent, child, at + 1, cursor, link)
    }
}

/// Where the child events from `cursor` on land in `merged`, counted from
/// `base`, the number of events that came before.
pub open spec fn placed(
    parent: Seq<Event>,
    child: Seq<Event>,
    at: int,
    cursor: int,
    link: Option<usize>,
    base: int,
) -> Seq<int>
    decreases parent.len() - at,
{
    if at < 0 || at >= parent.len() || cursor < 0 || cursor > child.len() {
        Seq::empty()
    } else if link matches Some(index) && index == at {
        let end = chunk_end(parent, child, at, cursor);
        Seq::new((end - cursor) as nat, |k: int| base + k) + placed(
            parent,
            child,
            after_span(parent, at),
            end,
            next_link(parent, at),
            base + end - cursor,
        )
    } else {
        placed(parent, child, at + 1, cursor, link, base + 1)
    }
}

/// Where the parent events from `at` on land in `merged`, counted from
/// `base`.  The events of a span count as standing where their chunk
/// starts.
pub open spec fn kept(
    parent: Seq<Event>,
    child: Seq<Event>,
    at: int,
    cursor: int,
    link: Option<usize>,
    base: int,
) -> Seq<int>
    decreases parent.len() - at,
{
    if at < 0 || at >= parent.len() || cursor < 0 || cursor > child.len() {
        Seq::empty()
    } else if link matches Some(index) && index == at {
        let end = chunk_end(parent, child, at, cursor);
        Seq::new((after_span(parent, at) - at) as nat, |k: int| base) + kept(
            parent,
            child,
            after_span(parent, at),
            end,
            next_link(parent, at),
            base + end - cursor,
        )
    } else {
        seq![base] + kept(parent, child, at + 1, cursor, link, base + 1)
    }
}

/// A link to the event that stood at an index before, turned into a link
/// to where that event stands now.  Links to events that were not placed
/// stay as they are.
pub open spec fn moved_link(link: Option<usize>, positions: Seq<int>) -> Option<usize> {
    match link {
        Some(k) => if k < positions.len() {
            Some(positions[k as int] as usize)
        } else {
            Some(k)
        },
        None => None,
    }
}

/// The events with every link turned into a link to where the linked event
/// stands now.  The events at `positions` are those that were placed: their
/// links lead to events that were placed.  The links of the other events
/// lead to events that stand at `others` now.
pub open spec fn relinked(events: Seq<Event>, positions: Seq<int>, others: Seq<int>) -> Seq<
    Event,
> {
    Seq::new(
        events.len(),
        |i: int|
            if positions.contains(i) {
                Event {
                    previous: moved_link(events[i].previous, positions),
                    next: moved_link(events[i].next, positions),
                    ..events[i]
                }
            } else {
                Event {
                    previous: moved_link(events[i].previous, others),
                    next: moved_link(events[i].next, others),
                    ..events[i]
                }
            },
    )
}

/// The events of the parent with the spans of the chain that starts at
/// `link_index` replaced by their chunks of the child events, and with all
/// links leading to where the linked events stand now.
pub open spec fn spliced(parent: Seq<Event>, link_index: usize, child: Seq<Event>) -> Seq<Event> {
    relinked(
        merged(parent, child, 0, 0, Some(link_index)),
        placed(parent, child, 0, 0, Some(link_index), 0),
        kept(parent, child, 0, 0, Some(link_index), 0),
    )
}

/// Whether the positions rise strictly and lie within `len`.
pub open spec fn rising(positions: Seq<int>, len: int) -> bool {
    &&& forall|i: int, j: int| 0 <= i < j < positions.len() ==> positions[i] < positions[j]
    &&& forall|i: int| 0 <= i < positions.len() ==> 0 <= #[trigger] positions[i] < len
}

/// The positions as plain integers.
pub open spec fn as_ints(positions: Seq<usize>) -> Seq<int> {
    positions.map_values(|position: usize| position as int)
}

/// Turn a link to an old index into a link to where that event stands now.
pub fn move_link(link: Option<usize>, positions: &Vec<usize>) -> (r: Option<usize>)
    ensures
        r == moved_link(link, as_ints(positions@)),
{
    match link {
        Some(k) => if k < positions.len() {
            Some(positions[k])
        } else {
            Some(k)
        },
        None => None,
    }
}

/// Point the links of the events to where the linked events stand now: for
/// the events that were placed at `positions` these are events that were
/// placed, and for the other events these are events that stand at `others`.
pub fn relink(events: &mut Vec<Event>, positions: &Vec<usize>, others: &Vec<usize>)
    requires
        rising(as_ints(positions@), old(events).len() as int),
    ensures
        final(events)@ == relinked(old(events)@, as_ints(positions@), as_ints(others@)),
{
    let ghost places = as_ints(positions@);
    let ghost elsewhere = as_ints(others@);
    let mut index: usize = 0;
    let mut cursor: usize = 0;
    while index < events.len()
        invariant
            places == as_ints(positions@),
            elsewhere == as_ints(others@),
            rising(places, old(events).len() as int),
            events.len() == old(events).len(),
            index <= events.len(),
            cursor <= positions.len(),
            forall|k: int| 0 <= k < cursor ==> places[k] < index,
            forall|k: int| cursor <= k < places.len() ==> places[k] >= index,
            forall|i: int|
                0 <= i < index ==> events[i] == relinked(old(events)@, places, elsewhere)[i],
            forall|i: int| index <= i < events.len() ==> events[i] == old(events)[i],
        decreases events.len() - index,
    {
        if cursor < positions.len() && positions[cursor] == index {
            let mut event = events[index];
            event.previous = move_link(event.previous, positions);
            event.next = move_link(event.next, positions);
            events[index] = event;
            proof {
                assert(places[cursor as int] == index);
                assert(places.contains(index as int));
            }
            cursor += 1;
        } else {
            let mut event = events[index];
            event.previous = move_link(event.previous, others);
            event.next = move_link(event.next, others);
            events[index] = event;
            proof {
                assert(!places.contains(index as int)) by {
                    if places.contains(index as int) {
                        let k = choose|k: int| 0 <= k < places.len() && places[k] == index;
                        assert(k >= cursor);
                        assert(places[cursor as int] <= places[k]);
                    }
                }
            }
        }
        index += 1;
    }
    proof {
        assert(events@ =~= relinked(old(events)@, places, elsewhere));
    }
}


/// Divide the child events over the spans of a chain in `events`, and
/// return the merged list.
///
/// The chain starts at `link_index` and goes on from span to span by the
/// `next` of the event that opens the span.  Every span of the chain, the
/// event that opens it and the event after that, is replaced by the child
/// events that happened up to where the span closes; the last span takes all
/// that is left.  Everything else stays, in its order, and so do the child
/// events among themselves.  Links between child events point to where the
/// linked events stand in the merged list, and so do the links between the
/// events that stay.
pub fn divide_events(events: &Vec<Event>, link_index: usize, child_events: &Vec<Event>) -> (r:
    Vec<Event>)
    ensures
        r@ == spliced(events@, link_index, child_events@),
{
    let mut out: Vec<Event> = Vec::new();
    let mut positions: Vec<usize> = Vec::new();
    let mut others: Vec<usize> = Vec::new();
    let mut at: usize = 0;
    let mut cursor: usize = 0;
    let mut link: Option<usize> = Some(link_index);
    let ghost parent = events@;
    let ghost child = child_events@;
    let ghost head = Some(link_index);
    proof {
        assert(out@ + merged(parent, child, 0, 0, head) =~= merged(parent, child, 0, 0, head));
        assert(as_ints(positions@) + placed(parent, child, 0, 0, head, 0) =~= placed(
            parent,
            child,
            0,
            0,
            head,
            0,
        ));
        assert(as_ints(others@) + kept(parent, child, 0, 0, head, 0) =~= kept(
            parent,
            child,
            0,
            0,
            head,
            0,
        ));
    }
    while at < events.len()
        invariant
            parent == events@,
            child == child_events@,
            cursor <= child_events.len(),
            out@ + merged(parent, child, at as int, cursor as int, link) == merged(
                parent,
                child,
                0,
                0,
                head,
            ),
            as_ints(positions@) + placed(
                parent,
                child,
                at as int,
                cursor as int,
                link,
                out.len() as int,
            ) == placed(parent, child, 0, 0, head, 0),
            as_ints(others@) + kept(
                parent,
                child,
                at as int,
                cursor as int,
                link,
                out.len() as int,
            ) == kept(parent, child, 0, 0, head, 0),
            rising(as_ints(positions@), out.len() as int),
        decreases events.len() - at,
    {
        let event = events[at];
        let ghost out_before = out@;
        let ghost positions_before = as_ints(positions@);
        let ghost others_before = as_ints(others@);
        let here = match link {
            Some(index) => index == at,
            None => false,
        };
        if here {
            let last = event.next.is_none();
            let end_index = if at + 1 < events.len() {
                events[at + 1].index
            } else {
                event.index
            };
            let ghost start = cursor as int;
            let ghost end = chunk_end(parent, child, at as int, start);
            others.push(out.len());
            if at + 1 < events.len() {
                others.push(out.len());
            }
            proof {
                assert(as_ints(others@) =~= others_before + Seq::new(
                    (after_span(parent, at as int) - at) as nat,
                    |k: int| out_before.len() as int,
                ));
                lemma_chunk_len_bounds(child, start, end_index);
                assert(out@ + child.subrange(start, start) =~= out@);
                assert(as_ints(positions@) + Seq::new(0, |k: int| out_before.len() + k)
                    =~= as_ints(positions@));
            }
            while cursor < child_events.len() && (last || child_events[cursor].index <= end_index)
                invariant
                    child == child_events@,
                    0 <= start <= cursor <= end <= child.len(),
                    end == if last {
                        child.len() as int
                    } else {
                        cursor + chunk_len(child, cursor as int, end_index)
                    },
                    out@ == out_before + child.subrange(start, cursor as int),
                    as_ints(positions@) == positions_before + Seq::new(
                        (cursor - start) as nat,
                        |k: int| out_before.len() + k,
                    ),
                    rising(as_ints(positions@), out.len() as int),
                decreases child_events.len() - cursor,
            {
                let ghost placed_before = as_ints(positions@);
                proof {
                    lemma_chunk_len_bounds(child, cursor + 1, end_index);
                }
                positions.push(out.len());
                out.push(child_events[cursor]);
                cursor += 1;
                proof {
                    assert(out@ =~= out_before + child.subrange(start, cursor as int));
                    assert(as_ints(positions@) =~= placed_before.push(out.len() - 1));
                    assert(as_ints(positions@) =~= positions_before + Seq::new(
                        (cursor - start) as nat,
                        |k: int| out_before.len() + k,
                    ));
                }
            }
            let onward = match event.next {
                Some(next) => if at < usize::MAX && next > at + 1 {
                    Some(next)
                } else {
                    None
                },
                None => None,
            };
            proof {
                assert(cursor == end);
                let rest = merged(parent, child, after_span(parent, at as int), end, onward);
                assert((out_before + child.subrange(start, end)) + rest =~= out_before + (
                child.subrange(start, end) + rest));
                let gap = Seq::new((end - start) as nat, |k: int| out_before.len() + k);
                let tail = placed(
                    parent,
                    child,
                    after_span(parent, at as int),
                    end,
                    onward,
                    out_before.len() + end - start,
                );
                assert((positions_before + gap) + tail =~= positions_before + (gap + tail));
                let span = Seq::new(
                    (after_span(parent, at as int) - at) as nat,
                    |k: int| out_before.len() as int,
                );
                let further = kept(
                    parent,
                    child,
                    after_span(parent, at as int),
                    end,
                    onward,
                    out_before.len() + end - start,
                );
                assert((others_before + span) + further =~= others_before + (span + further));
            }
            link = onward;
            if at + 1 < events.len() {
                at += 2;
            } else {
                at += 1;
            }
        } else {
            others.push(out.len());
            out.push(event);
            proof {
                let rest = merged(parent, child, at + 1, cursor as int, link);
                assert(out_before.push(event) + rest =~= out_before + (seq![event] + rest));
                let further = kept(
                    parent,
                    child,
                    at + 1,
                    cursor as int,
                    link,
                    (out_before.len() + 1) as int,
                );
                assert(as_ints(others@) =~= others_before.push(out_before.len() as int));
                assert(others_before.push(out_before.len() as int) + further =~= others_before
                    + (seq![out_before.len() as int] + further));
            }
            at += 1;
        }
    }
    proof {
        assert(out@ + Seq::<Event>::empty() =~= out@);
        assert(as_ints(positions@) + Seq::<int>::empty() =~= as_ints(positions@));
        assert(as_ints(others@) + Seq::<int>::empty() =~= as_ints(others@));
    }
    relink(&mut out, &positions, &others);
    out
}

/// A chunk ends within the child events.
pub proof fn lemma_chunk_len_bounds(child: Seq<Event>, from: int, end: usize)
    requires
        0 <= from <= child.len(),
    ensures
        0 <= chunk_len(child, from, end) <= child.len() - from,
    decreases child.len() - from,
{
    if from < child.len() && child[from].index <= end {
        lemma_chunk_len_bounds(child, from + 1, end);
    }
}


/// The event that closes the span opening at `at`: the event after it.
pub open spec fn span_close(parent: Seq<Event>, at: int) -> Event {
    if at + 1 < parent.len() {
        parent[at + 1]
    } else {
        parent[at]
    }
}

/// Whether each chunk of the child events lies within the span whose place
/// it takes, for the parent events from `at` on, with the chain going on at
/// `link` and the child events handed out from `cursor` on: no event of a
/// chunk lies before the event that opens the span, or after the event that
/// closes it.
pub open spec fn chunks_within(
    parent: Seq<Event>,
    child: Seq<Event>,
    at: int,
    cursor: int,
    link: Option<usize>,
) -> bool
    decreases parent.len() - at,
{
    if at < 0 || at >= parent.len() || cursor < 0 || cursor > child.len() {
        true
    } else if link matches Some(index) && index == at {
        let end = chunk_end(parent, child, at, cursor);
        &&& forall|k: int|
            cursor <= k < end ==> parent[at].point.offset <= (#[trigger] child[k]).point.offset
                <= span_close(parent, at).point.offset
        &&& chunks_within(parent, child, after_span(parent, at), end, next_link(parent, at))
    } else {
        chunks_within(parent, child, at + 1, cursor, link)
    }
}

/// The merge keeps offsets from going back where each chunk lies within its
/// span: the merged events from `at` on are ordered, and none lies before
/// the parent event at `at`.
pub proof fn lemma_merged_ordered(
    parent: Seq<Event>,
    child: Seq<Event>,
    at: int,
    cursor: int,
    link: Option<usize>,
)
    requires
        ordered(parent),
        ordered(child),
        chunks_within(parent, child, at, cursor, link),
        0 <= at <= parent.len(),
        0 <= cursor <= child.len(),
    ensures
        ordered(merged(parent, child, at, cursor, link)),
        forall|k: int|
            0 <= k < merged(parent, child, at, cursor, link).len() ==> parent[at].point.offset <= (
            #[trigger] merged(parent, child, at, cursor, link)[k]).point.offset,
    decreases parent.len() - at,
{
    let all = merged(parent, child, at, cursor, link);
    if at < parent.len() {
        if link matches Some(index) && index == at {
            let end = chunk_end(parent, child, at, cursor);
            if parent[at].next is Some {
                let stop = if at + 1 < parent.len() {
                    parent[at + 1].index
                } else {
                    parent[at].index
                };
                lemma_chunk_len_bounds(child, cursor, stop);
            }
            let next = after_span(parent, at);
            let head = child.subrange(cursor, end);
            let rest = merged(parent, child, next, end, next_link(parent, at));
            lemma_merged_ordered(parent, child, next, end, next_link(parent, at));
            assert(all =~= head + rest);
            let close = span_close(parent, at);
            assert forall|k: int| 0 <= k < head.len() implies parent[at].point.offset <= (
            #[trigger] head[k]).point.offset <= close.point.offset by {
                assert(head[k] == child[cursor + k]);
            }
            assert forall|k: int| 0 <= k < rest.len() implies close.point.offset <= (
            #[trigger] rest[k]).point.offset by {
                assert(next < parent.len());
                assert(close.point.offset <= parent[next].point.offset);
            }
            assert forall|i: int, j: int| 0 <= i <= j < all.len() implies all[i].point.offset
                <= all[j].point.offset by {
                if j < head.len() {
                    assert(all[i] == head[i] && all[j] == head[j]);
                    assert(head[i] == child[cursor + i] && head[j] == child[cursor + j]);
                } else if i < head.len() {
                    assert(all[i] == head[i] && all[j] == rest[j - head.len()]);
                } else {
                    assert(all[i] == rest[i - head.len()] && all[j] == rest[j - head.len()]);
                }
            }
            assert forall|k: int| 0 <= k < all.len() implies parent[at].point.offset <= (
            #[trigger] all[k]).point.offset by {
                if k < head.len() {
                    assert(all[k] == head[k]);
                } else {
                    assert(all[k] == rest[k - head.len()]);
                    assert(parent[at].point.offset <= close.point.offset);
                }
            }
        } else {
            let rest = merged(parent, child, at + 1, cursor, link);
            lemma_merged_ordered(parent, child, at + 1, cursor, link);
            assert(all =~= seq![parent[at]] + rest);
            assert forall|k: int| 0 <= k < rest.len() implies parent[at].point.offset <= (
            #[trigger] rest[k]).point.offset by {
                assert(at + 1 < parent.len());
                assert(parent[at].point.offset <= parent[at + 1].point.offset);
            }
            assert forall|i: int, j: int| 0 <= i <= j < all.len() implies all[i].point.offset
                <= all[j].point.offset by {
                if i > 0 {
                    assert(all[i] == rest[i - 1] && all[j] == rest[j - 1]);
                } else if j > 0 {
                    assert(all[j] == rest[j - 1]);
                }
            }
            assert forall|k: int| 0 <= k < all.len() implies parent[at].point.offset <= (
            #[trigger] all[k]).point.offset by {
                if k > 0 {
                    assert(all[k] == rest[k - 1]);
                }
            }
        }
    }
}

/// The merge makes no event of its own: where no parent event and no child
/// event lies beyond `bound`, no merged event does.
pub proof fn lemma_merged_bounded(
    parent: Seq<Event>,
    child: Seq<Event>,
    at: int,
    cursor: int,
    link: Option<usize>,
    bound: usize,
)
    requires
        forall|i: int| 0 <= i < parent.len() ==> (#[trigger] parent[i]).point.offset <= bound,
        forall|i: int| 0 <= i < child.len() ==> (#[trigger] child[i]).point.offset <= bound,
        0 <= at <= parent.len(),
        0 <= cursor <= child.len(),
    ensures
        forall|k: int|
            0 <= k < merged(parent, child, at, cursor, link).len() ==> (#[trigger] merged(
                parent,
                child,
                at,
                cursor,
                link,
            )[k]).point.offset <= bound,
    decreases parent.len() - at,
{
    let all = merged(parent, child, at, cursor, link);
    if at < parent.len() {
        if link matches Some(index) && index == at {
            let end = chunk_end(parent, child, at, cursor);
            if parent[at].next is Some {
                let stop = if at + 1 < parent.len() {
                    parent[at + 1].index
                } else {
                    parent[at].index
                };
                lemma_chunk_len_bounds(child, cursor, stop);
            }
            let head = child.subrange(cursor, end);
            let rest = merged(parent, child, after_span(parent, at), end, next_link(parent, at));
            lemma_merged_bounded(
                parent,
                child,
                after_span(parent, at),
                end,
                next_link(parent, at),
                bound,
            );
            assert(all =~= head + rest);
            assert forall|k: int| 0 <= k < all.len() implies (#[trigger] all[k]).point.offset
                <= bound by {
                if k < head.len() {
                    assert(all[k] == child[cursor + k]);
                } else {
                    assert(all[k] == rest[k - head.len()]);
                }
            }
        } else {
            let rest = merged(parent, child, at + 1, cursor, link);
            lemma_merged_bounded(parent, child, at + 1, cursor, link, bound);
            assert(all =~= seq![parent[at]] + rest);
            assert forall|k: int| 0 <= k < all.len() implies (#[trigger] all[k]).point.offset
                <= bound by {
                if k > 0 {
                    assert(all[k] == rest[k - 1]);
                }
            }
        }
    }
}

/// Monotonic position across a splice: where the offsets of the parent
/// events and those of the child events never go back, and each chunk of
/// the child events lies within the span whose place it takes, the offsets
/// of the spliced events never go back.
pub proof fn lemma_spliced_ordered(parent: Seq<Event>, link_index: usize, child: Seq<Event>)
    requires
        ordered(parent),
        ordered(child),
        chunks_within(parent, child, 0, 0, Some(link_index)),
    ensures
        ordered(spliced(parent, link_index, child)),
{
    lemma_merged_ordered(parent, child, 0, 0, Some(link_index));
    let made = merged(parent, child, 0, 0, Some(link_index));
    let all = spliced(parent, link_index, child);
    assert forall|i: int, j: int| 0 <= i <= j < all.len() implies all[i].point.offset
        <= all[j].point.offset by {
        assert(all[i].point == made[i].point);
        assert(all[j].point == made[j].point);
    }
}

/// Whether the event opens a run of text or string that is to be tokenized:
/// it is an enter with such content that no chunk leads to.
pub open spec fn opens_content(event: Event) -> bool {
    &&& event.event_type == EventType::Enter
    &&& event.previous is None
    &&& event.content_type == Some(ContentType::Text) || event.content_type == Some(
        ContentType::String,
    )
}

/// Index of the first event at or after `from` that opens a run of content:
/// the number of events if there is none.
pub open spec fn first_content(events: Seq<Event>, from: int) -> int
    decreases events.len() - from,
{
    if from < 0 || from >= events.len() {
        events.len() as int
    } else if opens_content(events[from]) {
        from
    } else {
        first_content(events, from + 1)
    }
}

/// Find the first event that opens a run of content.
pub fn find_content(events: &Vec<Event>) -> (r: usize)
    ensures
        r == first_content(events@, 0),
        r <= events.len(),
        r < events.len() ==> opens_content(events[r as int]),
{
    let mut at: usize = 0;
    while at < events.len()
        invariant
            at <= events.len(),
            first_content(events@, at as int) == first_content(events@, 0),
        decreases events.len() - at,
    {
        let event = &events[at];
        let content = match event.content_type {
            Some(ContentType::Text) => true,
            Some(ContentType::String) => true,
            _ => false,
        };
        let enter = match event.event_type {
            EventType::Enter => true,
            EventType::Exit => false,
        };
        if enter && content && event.previous.is_none() {
            return at;
        }
        at += 1;
    }
    at
}

/// The chunks of the chain that goes on at `link`: for each span of the
/// chain the index in the stream at which it starts and the index at which
/// it ends, which is where the event after the one that opens it stands.
pub open spec fn chunks_of(events: Seq<Event>, link: int) -> Seq<(usize, usize)>
    decreases events.len() - link,
{
    if link < 0 || link >= events.len() {
        Seq::empty()
    } else {
        let to = if link + 1 < events.len() {
            events[link + 1].index
        } else {
            events[link].index
        };
        seq![(events[link].index, to)] + match next_link(events, link) {
            Some(next) => if link < next < events.len() {
                chunks_of(events, next as int)
            } else {
                Seq::empty()
            },
            None => Seq::empty(),
        }
    }
}

/// The chunks of the chain that starts at `link_index`.
pub fn chunks(events: &Vec<Event>, link_index: usize) -> (r: Vec<(usize, usize)>)
    ensures
        r@ == chunks_of(events@, link_index as int),
{
    let mut found: Vec<(usize, usize)> = Vec::new();
    let mut link = link_index;
    proof {
        assert(found@ + chunks_of(events@, link as int) =~= chunks_of(events@, link as int));
    }
    while link < events.len()
        invariant
            found@ + chunks_of(events@, link as int) == chunks_of(events@, link_index as int),
        decreases events.len() - link,
    {
        let ghost before = found@;
        let enter = &events[link];
        let from = enter.index;
        let to = if link + 1 < events.len() {
            events[link + 1].index
        } else {
            from
        };
        found.push((from, to));
        let onward = match enter.next {
            Some(next) => if link < usize::MAX && next > link + 1 {
                Some(next)
            } else {
                None
            },
            None => None,
        };
        proof {
            let rest = match onward {
                Some(next) => if next < events.len() {
                    chunks_of(events@, next as int)
                } else {
                    Seq::empty()
                },
                None => Seq::empty(),
            };
            assert(before.push((from, to)) + rest =~= before + (seq![(from, to)] + rest));
        }
        link = match onward {
            Some(next) => if next < events.len() {
                next
            } else {
                events.len()
            },
            None => events.len(),
        };
    }
    proof {
        assert(found@ + Seq::<(usize, usize)>::empty() =~= found@);
    }
    found
}

/// Whether `after`, suspended in `next`, can be what became of `before`,
/// suspended in `state`, when it was fed the chunks one after the other,
/// each from the state in which the one before left it.  Chunks that reach
/// beyond the stream are passed over.
pub open spec fn chunks_fed(
    after: &Tokenizer,
    next: State,
    before: &Tokenizer,
    state: State,
    chunks: Seq<(usize, usize)>,
) -> bool
    decreases chunks.len(),
{
    if chunks.len() == 0 {
        *after == *before && next == state
    } else {
        exists|middle: Tokenizer, waiting: State|
            {
                &&& chunks_fed(&middle, waiting, before, state, chunks.drop_last())
                &&& #[trigger] chunk_fed(after, next, &middle, waiting, chunks.last())
            }
    }
}

/// Whether `after`, suspended in `next`, can be what became of `before`,
/// suspended in `state`, when it was fed the chunk: a chunk that reaches
/// beyond the stream is passed over.
pub open spec fn chunk_fed(
    after: &Tokenizer,
    next: State,
    before: &Tokenizer,
    state: State,
    chunk: (usize, usize),
) -> bool {
    if chunk.0 <= before.parse_state.codes.len() && chunk.1 <= before.parse_state.codes.len() {
        after.pushed(next, before, state, chunk.0, chunk.1)
    } else {
        *after == *before && next == state
    }
}

/// Feed the chunks to the tokenizer one after the other, starting in
/// `state`, and return the state in which it is suspended at last.  Chunks
/// that reach beyond the stream are passed over.
pub fn feed_chunks<C: Constructs>(
    tokenizer: &mut Tokenizer,
    constructs: &C,
    chunks: &Vec<(usize, usize)>,
    state: State,
) -> (next: State)
    requires
        old(tokenizer).wf(),
        old(tokenizer).admits(state),
        !old(tokenizer).drained,
    ensures
        chunks_fed(&*final(tokenizer), next, &*old(tokenizer), state, chunks@),
        final(tokenizer).wf(),
        final(tokenizer).admits(next),
        !final(tokenizer).drained,
        final(tokenizer).parse_state == old(tokenizer).parse_state,
{
    let mut state = state;
    let ghost start = state;
    let mut index: usize = 0;
    proof {
        assert(chunks@.take(0) =~= Seq::<(usize, usize)>::empty());
    }
    while index < chunks.len()
        invariant
            index <= chunks.len(),
            tokenizer.wf(),
            tokenizer.admits(state),
            !tokenizer.drained,
            tokenizer.parse_state == old(tokenizer).parse_state,
            chunks_fed(&*tokenizer, state, &*old(tokenizer), start, chunks@.take(index as int)),
        decreases chunks.len() - index,
    {
        let ghost middle = *tokenizer;
        let ghost waiting = state;
        let (from, to) = chunks[index];
        if from <= tokenizer.parse_state.codes.len() && to <= tokenizer.parse_state.codes.len() {
            state = tokenizer.push(constructs, from, to, state);
        }
        index += 1;
        proof {
            let fed = chunks@.take(index as int);
            assert(fed.drop_last() =~= chunks@.take(index - 1));
            assert(fed.last() == (from, to));
            assert(chunks_fed(&middle, waiting, &*old(tokenizer), start, fed.drop_last()));
            assert(chunk_fed(&*tokenizer, state, &middle, waiting, fed.last()));
            assert(chunks_fed(&*tokenizer, state, &*old(tokenizer), start, fed));
        }
    }
    proof {
        assert(chunks@.take(chunks.len() as int) =~= chunks@);
    }
    state
}

/// The state in which the tokenizer of a run of content starts: the start
/// of string for string, and the start of text otherwise.
pub open spec fn content_start(event: Event) -> State {
    State::Next(
        if event.content_type == Some(ContentType::String) {
            StateName::StringStart
        } else {
            StateName::TextStart
        },
    )
}

/// Whether `child` is what a tokenizer of its own makes of the run of
/// content that starts at `head` in the events: a tokenizer that was
/// `fresh` at the start of the stream was fed the chunks of the run, which
/// made it `fed`, suspended in `waiting`, and was then fed the end for good,
/// after which it ended in `last`.
pub open spec fn run_tokenized(
    child: &Tokenizer,
    last: State,
    fed: &Tokenizer,
    waiting: State,
    fresh: &Tokenizer,
    events: Seq<Event>,
    head: int,
    parse_state: &ParseState,
) -> bool {
    &&& fresh.fresh(Point { line: 1, column: 1, offset: 0 }, 0, parse_state)
    &&& chunks_fed(fed, waiting, fresh, content_start(events[head]), chunks_of(events, head))
    &&& child.flushed(last, fed, waiting, true)
}

/// Tokenize the first run of text or string in the events, and say whether
/// there was none and so nothing is left to do: `None` where the tokenizer
/// of the run did not end well, in which case the events stay as they are.
///
/// A tokenizer of its own is fed the chunks of the run, from chunk to chunk
/// along the links, starts in the state for the content of the run, and is
/// fed the end at last, which runs its resolvers.  Its events take the
/// place of the chunks.
pub fn subtokenize<C: Constructs>(events: &mut Vec<Event>, parse_state: &ParseState, constructs: &C) -> (done:
    Option<bool>)
    requires
        parse_state.wf(),
    ensures
        done == Some(true) <==> first_content(old(events)@, 0) == old(events).len(),
        done != Some(false) ==> final(events)@ == old(events)@,
        first_content(old(events)@, 0) < old(events).len() ==> exists|
            child: Tokenizer,
            last: State,
            fed: Tokenizer,
            waiting: State,
            fresh: Tokenizer,
        |
            {
                &&& #[trigger] run_tokenized(
                    &child,
                    last,
                    &fed,
                    waiting,
                    &fresh,
                    old(events)@,
                    first_content(old(events)@, 0),
                    parse_state,
                )
                &&& done is Some == last is Okay
                &&& done is Some ==> final(events)@ == spliced(
                    old(events)@,
                    first_content(old(events)@, 0) as usize,
                    child.events@,
                )
            },
{
    let head = find_content(events);
    if head == events.len() {
        return Some(true);
    }
    let start = State::Next(
        match events[head].content_type {
            Some(ContentType::String) => StateName::StringStart,
            _ => StateName::TextStart,
        },
    );
    let mut tokenizer = Tokenizer::new(Point { line: 1, column: 1, offset: 0 }, 0, parse_state);
    let ghost fresh = tokenizer;
    let run = chunks(events, head);
    let state = feed_chunks(&mut tokenizer, constructs, &run, start);
    let ghost fed = tokenizer;
    let last = tokenizer.flush(constructs, state, true);
    proof {
        assert(run_tokenized(
            &tokenizer,
            last,
            &fed,
            state,
            &fresh,
            old(events)@,
            head as int,
            parse_state,
        ));
    }
    match last {
        State::Okay => {
            let merged = divide_events(events, head, &tokenizer.events);
            *events = merged;
            Some(false)
        },
        _ => None,
    }
}

} // verus!
