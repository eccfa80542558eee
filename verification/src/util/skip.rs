//! Move across whole spans of certain types in a list of events.

use crate::event::Event;
use crate::token::TokenType;
use vstd::prelude::*;

verus! {

/// Index of the first event at or after `from` that is labelled `name`.
pub open spec fn next_same(events: Seq<Event>, from: int, name: TokenType) -> Option<int>
    decreases events.len() - from,
{
    if from < 0 || from >= events.len() {
        None
    } else if events[from].token_type == name {
        Some(from)
    } else {
        next_same(events, from + 1, name)
    }
}

/// Index of the last event at or before `from` that is labelled `name`.
pub open spec fn previous_same(events: Seq<Event>, from: int, name: TokenType) -> Option<int>
    decreases from + 1,
{
    if from < 0 || from >= events.len() {
        None
    } else if events[from].token_type == name {
        Some(from)
    } else {
        previous_same(events, from - 1, name)
    }
}

/// Where skipping forward from `index` over spans of `token_types` ends.
///
/// While the event at the index bears one of the types, the index moves to
/// just after the next event of that same type.  `None` when a span that is
/// to be skipped has no such event.
pub open spec fn skipped_forward(
    events: Seq<Event>,
    index: int,
    token_types: Seq<TokenType>,
) -> Option<int>
    decreases events.len() - index,
{
    if index < 0 || index >= events.len() || !token_types.contains(events[index].token_type) {
        Some(index)
    } else {
        match next_same(events, index + 1, events[index].token_type) {
            Some(partner) => if index < partner < events.len() {
                skipped_forward(events, partner + 1, token_types)
            } else {
                None
            },
            None => None,
        }
    }
}

/// Where skipping backward from `index` over spans of `token_types` ends.
///
/// While the event at the index bears one of the types, the index moves to
/// just before the previous event of that same type.  `None` when a span
/// that is to be skipped has no such event, or nothing lies before it.
pub open spec fn skipped_backward(
    events: Seq<Event>,
    index: int,
    token_types: Seq<TokenType>,
) -> Option<int>
    decreases index + 1,
{
    if index < 0 || index >= events.len() || !token_types.contains(events[index].token_type) {
        Some(index)
    } else {
        match previous_same(events, index - 1, events[index].token_type) {
            Some(partner) => if 0 < partner < index {
                skipped_backward(events, partner - 1, token_types)
            } else {
                None
            },
            None => None,
        }
    }
}

/// Where skipping from `index` over spans of `token_types` ends, in the
/// given direction.
pub open spec fn skipped_over(
    events: Seq<Event>,
    index: int,
    token_types: Seq<TokenType>,
    forward: bool,
) -> Option<int> {
    if forward {
        skipped_forward(events, index, token_types)
    } else {
        skipped_backward(events, index, token_types)
    }
}

/// The partner that `next_same` finds lies at or after `from`.
pub proof fn lemma_next_same_bounds(events: Seq<Event>, from: int, name: TokenType)
    ensures
        next_same(events, from, name) matches Some(partner) ==> from <= partner < events.len()
            && events[partner].token_type == name,
    decreases events.len() - from,
{
    if 0 <= from < events.len() && events[from].token_type != name {
        lemma_next_same_bounds(events, from + 1, name);
    }
}

/// The partner that `previous_same` finds lies at or before `from`.
pub proof fn lemma_previous_same_bounds(events: Seq<Event>, from: int, name: TokenType)
    ensures
        previous_same(events, from, name) matches Some(partner) ==> 0 <= partner <= from
            && events[partner].token_type == name,
    decreases from + 1,
{
    if 0 <= from < events.len() && events[from].token_type != name {
        lemma_previous_same_bounds(events, from - 1, name);
    }
}

/// Skipping backward ends at or before the index where it began.
pub proof fn lemma_skipped_backward_bounds(
    events: Seq<Event>,
    index: int,
    token_types: Seq<TokenType>,
)
    requires
        0 <= index,
    ensures
        skipped_backward(events, index, token_types) matches Some(end) ==> 0 <= end <= index,
    decreases index + 1,
{
    if index < events.len() && token_types.contains(events[index].token_type) {
        lemma_previous_same_bounds(events, index - 1, events[index].token_type);
        match previous_same(events, index - 1, events[index].token_type) {
            Some(partner) => {
                if 0 < partner < index {
                    lemma_skipped_backward_bounds(events, partner - 1, token_types);
                }
            },
            None => {},
        }
    }
}

/// Index of the first event at or after `index` that bears one of
/// `token_types`: the number of events if there is none.
pub open spec fn first_of(events: Seq<Event>, index: int, token_types: Seq<TokenType>) -> int
    decreases events.len() - index,
{
    if index < 0 || index >= events.len() {
        events.len() as int
    } else if token_types.contains(events[index].token_type) {
        index
    } else {
        first_of(events, index + 1, token_types)
    }
}

/// Skip from `index` to the first event of one of `token_types`.
pub fn to(events: &[Event], index: usize, token_types: &[TokenType]) -> (r: usize)
    ensures
        r == first_of(events@, index as int, token_types@),
{
    let mut at = index;
    while at < events.len()
        invariant
            first_of(events@, at as int, token_types@) == first_of(
                events@,
                index as int,
                token_types@,
            ),
        decreases events.len() - at,
    {
        if is_one_of(token_types, events[at].token_type) {
            return at;
        }
        at += 1;
    }
    events.len()
}

/// Whether `token_type` is one of `token_types`.
fn is_one_of(token_types: &[TokenType], token_type: TokenType) -> (r: bool)
    ensures
        r == token_types@.contains(token_type),
{
    let mut index: usize = 0;
    while index < token_types.len()
        invariant
            index <= token_types.len(),
            forall|i: int| 0 <= i < index ==> token_types[i] != token_type,
        decreases token_types.len() - index,
    {
        if token_types[index] == token_type {
            return true;
        }
        index += 1;
    }
    false
}

/// Skip from `index`, optionally past `token_types`.
///
/// That is: as long as the event at `index` bears one of `token_types`,
/// move to just after the next event of that type.
pub fn opt(events: &[Event], index: usize, token_types: &[TokenType]) -> (r: usize)
    requires
        skipped_forward(events@, index as int, token_types@) is Some,
    ensures
        skipped_forward(events@, index as int, token_types@) == Some(r as int),
{
    match skip_opt_with_direction(events, index, token_types, true) {
        Some(r) => r,
        None => index,
    }
}

/// Skip from `index` backwards, optionally past `token_types`.
///
/// That is: as long as the event at `index` bears one of `token_types`,
/// move to just before the previous event of that type.
pub fn opt_back(events: &[Event], index: usize, token_types: &[TokenType]) -> (r: usize)
    requires
        skipped_backward(events@, index as int, token_types@) is Some,
    ensures
        skipped_backward(events@, index as int, token_types@) == Some(r as int),
{
    match skip_opt_with_direction(events, index, token_types, false) {
        Some(r) => r,
        None => index,
    }
}

/// Skip from `index`, optionally past `token_types`, in the given direction.
///
/// `None` when the skip runs off the list: when a span that is to be
/// skipped lacks its other end, or when, going backwards, nothing lies
/// before it.
pub fn skip_opt_with_direction(
    events: &[Event],
    index: usize,
    token_types: &[TokenType],
    forward: bool,
) -> (r: Option<usize>)
    ensures
        match r {
            Some(end) => skipped_over(events@, index as int, token_types@, forward) == Some(
                end as int,
            ),
            None => skipped_over(events@, index as int, token_types@, forward) is None,
        },
{
    let mut at = index;
    while at < events.len()
        invariant
            skipped_over(events@, at as int, token_types@, forward) == skipped_over(
                events@,
                index as int,
                token_types@,
                forward,
            ),
        decreases
                if forward {
                    events.len() - at
                } else {
                    at as int
                },
    {
        let current = events[at].token_type;
        if !is_one_of(token_types, current) {
            return Some(at);
        }
        if forward {
            let mut partner = at + 1;
            while partner < events.len() && events[partner].token_type != current
                invariant
                    at < partner <= events.len(),
                    next_same(events@, partner as int, current) == next_same(
                        events@,
                        at + 1,
                        current,
                    ),
                decreases events.len() - partner,
            {
                partner += 1;
            }
            if partner == events.len() {
                return None;
            }
            proof {
                lemma_next_same_bounds(events@, at + 1, current);
            }
            at = partner + 1;
        } else {
            if at == 0 {
                return None;
            }
            let mut partner = at - 1;
            while partner > 0 && events[partner].token_type != current
                invariant
                    partner < at < events.len(),
                    previous_same(events@, partner as int, current) == previous_same(
                        events@,
                        at - 1,
                        current,
                    ),
                decreases partner,
            {
                partner -= 1;
            }
            if partner == 0 {
                proof {
                    if events[0].token_type != current {
                        assert(previous_same(events@, -1, current) is None);
                    }
                }
                return None;
            }
            proof {
                lemma_previous_same_bounds(events@, at - 1, current);
            }
            at = partner - 1;
        }
    }
    Some(at)
}

} // verus!
