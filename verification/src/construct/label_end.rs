//! Label end: the end of links and images.
//!
//! A `[` or `![` starts a label, and is put on a stack.  At a `]` the
//! nearest label start that is still open is looked up.  When what follows
//! the `]` makes for a resource or a reference, the two form a link or an
//! image: media.  When it does not, the label start was nothing but
//! brackets.  Afterwards a resolver groups the events of each media, and
//! turns the label starts that found no end into data.

use crate::construct::attention::label;
use crate::event::{Event, EventType};
use crate::token::TokenType;
use crate::tokenizer::{LabelStart, Media, Tokenizer};
use crate::util::edit_map::{added, edited, moved, with_moved_links, Change, EditMap};
use vstd::prelude::*;

verus! {

/// The nearest label start before `before` that is not known to be mere
/// brackets.
pub open spec fn nearest_open(stack: Seq<LabelStart>, before: int) -> Option<int>
    decreases before,
{
    if before <= 0 || before > stack.len() {
        None
    } else if !stack[before - 1].balanced {
        Some(before - 1)
    } else {
        nearest_open(stack, before - 1)
    }
}

/// Find the label start that a label end could close: the nearest that is
/// not known to be mere brackets.
pub fn find_label_start(tokenizer: &Tokenizer) -> (r: Option<usize>)
    ensures
        match r {
            Some(index) => nearest_open(
                tokenizer.label_start_stack@,
                tokenizer.label_start_stack.len() as int,
            ) == Some(index as int) && index < tokenizer.label_start_stack.len(),
            None => nearest_open(
                tokenizer.label_start_stack@,
                tokenizer.label_start_stack.len() as int,
            ) is None,
        },
{
    let mut index = tokenizer.label_start_stack.len();
    while index > 0
        invariant
            index <= tokenizer.label_start_stack.len(),
            nearest_open(tokenizer.label_start_stack@, index as int) == nearest_open(
                tokenizer.label_start_stack@,
                tokenizer.label_start_stack.len() as int,
            ),
        decreases index,
    {
        index -= 1;
        if !tokenizer.label_start_stack[index].balanced {
            return Some(index);
        }
    }
    None
}

/// Whether the label start opens a link, as far as the events tell.
pub open spec fn starts_link(events: Seq<Event>, label_start: LabelStart) -> bool {
    label_start.start.0 < events.len() && events[label_start.start.0 as int].token_type
        == TokenType::LabelLink
}

/// The label starts, with those that open a link no longer of use.
pub open spec fn links_off(events: Seq<Event>, stack: Seq<LabelStart>) -> Seq<LabelStart> {
    stack.map_values(
        |label_start: LabelStart|
            if starts_link(events, label_start) {
                LabelStart { inactive: true, ..label_start }
            } else {
                label_start
            },
    )
}

/// Done, we found something.
///
/// The label start at `label_start_index` becomes part of `media`.  The
/// label starts after it found no end, and never will: they are loose now.
/// If the media is a link, the link starts before it are of no use any
/// more, as links in links are incorrect.  The media ends with the last
/// event so far, and its resolver is registered, after those registered so
/// far: attention is resolved before media.
pub fn ok(tokenizer: &mut Tokenizer, label_start_index: usize, media: Media)
    requires
        old(tokenizer).wf(),
        label_start_index < old(tokenizer).label_start_stack.len(),
        old(tokenizer).events.len() > 0,
    ensures
        ({
            let before = &*old(tokenizer);
            let after = &*final(tokenizer);
            let kept = before.label_start_stack@.take(label_start_index as int);
            &&& after.label_start_stack@ == if starts_link(
                before.events@,
                LabelStart { start: media.start, inactive: false, balanced: false },
            ) {
                links_off(before.events@, kept)
            } else {
                kept
            }
            &&& after.label_start_list_loose@ == before.label_start_list_loose@
                + before.label_start_stack@.skip(label_start_index + 1)
            &&& after.media_list.len() == before.media_list.len() + 1
            &&& after.media_list@.drop_last() == before.media_list@
            &&& after.media_list@.last().start == media.start
            &&& after.media_list@.last().end == (media.end.0, (before.events.len() - 1) as usize)
            &&& after.media_list@.last().id == media.id
            &&& !before.has_resolver("media"@) ==> {
                &&& after.resolver_ids@.len() == before.resolver_ids.len() + 1
                &&& after.resolver_ids@.last()@ == "media"@
                &&& after.resolvers@.len() == before.resolvers.len() + 1
                &&& after.resolvers@.last()@ == "media"@
                &&& after.resolvers@.drop_last() == before.resolvers@
            }
            &&& before.has_resolver("media"@) ==> {
                &&& after.resolver_ids == before.resolver_ids
                &&& after.resolvers == before.resolvers
            }
            &&& *after == (Tokenizer {
                label_start_stack: after.label_start_stack,
                label_start_list_loose: after.label_start_list_loose,
                media_list: after.media_list,
                resolvers: after.resolvers,
                resolver_ids: after.resolver_ids,
                ..*before
            })
        }),
        final(tokenizer).follows(old(tokenizer)),
{
    let mut media = media;
    // Remove this one and everything after it.
    let mut left = tokenizer.label_start_stack.split_off(label_start_index);
    // Remove this one from `left`, as we'll move it to `media_list`.
    left.remove(0);
    proof {
        assert(left@ =~= old(tokenizer).label_start_stack@.skip(label_start_index + 1));
    }
    tokenizer.label_start_list_loose.append(&mut left);
    let is_link = media.start.0 < tokenizer.events.len() && match tokenizer.events[media.start.0].token_type {
        TokenType::LabelLink => true,
        _ => false,
    };
    let ghost loose = tokenizer.label_start_list_loose@;
    if is_link {
        let ghost kept = tokenizer.label_start_stack@;
        let mut index: usize = 0;
        while index < tokenizer.label_start_stack.len()
            invariant
                index <= tokenizer.label_start_stack.len(),
                tokenizer.label_start_stack.len() == kept.len(),
                forall|i: int|
                    0 <= i < index ==> tokenizer.label_start_stack[i] == links_off(
                        tokenizer.events@,
                        kept,
                    )[i],
                forall|i: int| index <= i < kept.len() ==> tokenizer.label_start_stack[i] == kept[i],
                tokenizer.label_start_list_loose@ == loose,
                *tokenizer == (Tokenizer {
                    label_start_stack: tokenizer.label_start_stack,
                    label_start_list_loose: tokenizer.label_start_list_loose,
                    ..*old(tokenizer)
                }),
            decreases tokenizer.label_start_stack.len() - index,
        {
            let mut label_start = tokenizer.label_start_stack[index];
            let link = label_start.start.0 < tokenizer.events.len() && match tokenizer.events[label_start.start.0].token_type {
                TokenType::LabelLink => true,
                _ => false,
            };
            if link {
                label_start.inactive = true;
                tokenizer.label_start_stack[index] = label_start;
            }
            index += 1;
        }
        proof {
            assert(tokenizer.label_start_stack@ =~= links_off(tokenizer.events@, kept));
        }
    }
    media.end.1 = tokenizer.events.len() - 1;
    tokenizer.media_list.push(media);
    proof {
        assert(tokenizer.media_list@.drop_last() =~= old(tokenizer).media_list@);
        tokenizer.lemma_moved_follows(old(tokenizer));
    }
    let ghost listed = *tokenizer;
    tokenizer.register_resolver("media".to_string());
    proof {
        if !old(tokenizer).has_resolver("media"@) {
            assert(tokenizer.resolvers@.drop_last() =~= old(tokenizer).resolvers@);
        }
        tokenizer.lemma_follows_transitive(&listed, old(tokenizer));
    }
}

/// Done, it's nothing.
///
/// The label start at `label_start_index` is mere brackets: it can close
/// nothing any more.
pub fn nok(tokenizer: &mut Tokenizer, label_start_index: usize)
    requires
        old(tokenizer).wf(),
        label_start_index < old(tokenizer).label_start_stack.len(),
    ensures
        final(tokenizer).label_start_stack@ == old(tokenizer).label_start_stack@.update(
            label_start_index as int,
            LabelStart {
                balanced: true,
                ..old(tokenizer).label_start_stack[label_start_index as int]
            },
        ),
        *final(tokenizer) == (Tokenizer {
            label_start_stack: final(tokenizer).label_start_stack,
            ..*old(tokenizer)
        }),
        final(tokenizer).follows(old(tokenizer)),
{
    let mut label_start = tokenizer.label_start_stack[label_start_index];
    label_start.balanced = true;
    tokenizer.label_start_stack[label_start_index] = label_start;
    proof {
        tokenizer.lemma_moved_follows(old(tokenizer));
    }
}


/// The place of an event.
pub open spec fn place_of(event: Event) -> (crate::event::Point, usize) {
    (event.point, event.index)
}

/// Whether the label start lies within the events.
pub open spec fn loose_fits(events: Seq<Event>, label_start: LabelStart) -> bool {
    label_start.start.0 <= label_start.start.1 < events.len()
}

/// The changes, with the first `count` loose label starts turned into data:
/// one span of data from where the label start starts to where it ends.
pub open spec fn with_loose(
    changes: Seq<Change>,
    events: Seq<Event>,
    left: Seq<LabelStart>,
    count: int,
) -> Seq<Change>
    decreases count,
{
    if count <= 0 {
        changes
    } else {
        let before = with_loose(changes, events, left, count - 1);
        let label_start = left[count - 1];
        if loose_fits(events, label_start) {
            added(
                before,
                label_start.start.0,
                (label_start.start.1 - label_start.start.0 + 1) as usize,
                seq![
                    label(
                        EventType::Enter,
                        TokenType::Data,
                        place_of(events[label_start.start.0 as int]),
                    ),
                    label(
                        EventType::Exit,
                        TokenType::Data,
                        place_of(events[label_start.start.1 as int]),
                    ),
                ],
                false,
            )
        } else {
            before
        }
    }
}

/// Whether the media lies within the events: its label start comes before
/// its label end, which spans four events, and it ends no earlier than its
/// label end.
pub open spec fn media_fits(events: Seq<Event>, media: Media) -> bool {
    &&& media.start.0 <= media.start.1
    &&& media.start.1 < media.end.0
    &&& media.end.0 + 3 <= media.end.1
    &&& media.end.1 < events.len()
}

/// The changes, with the events of one media grouped: a link or an image
/// around everything, a label around the label start, the text and the
/// label end, and a label text around the text, if there is text.
pub open spec fn with_group(changes: Seq<Change>, events: Seq<Event>, media: Media) -> Seq<
    Change,
> {
    if media_fits(events, media) {
        let group = if events[media.start.0 as int].token_type == TokenType::LabelLink {
            TokenType::Link
        } else {
            TokenType::Image
        };
        let enter = place_of(events[media.start.0 as int]);
        let opened = added(
            changes,
            media.start.0,
            0,
            seq![label(EventType::Enter, group, enter), label(EventType::Enter, TokenType::Label, enter)],
            false,
        );
        let texted = if media.start.1 + 1 != media.end.0 {
            added(
                added(
                    opened,
                    (media.start.1 + 1) as usize,
                    0,
                    seq![
                        label(
                            EventType::Enter,
                            TokenType::LabelText,
                            place_of(events[media.start.1 as int]),
                        ),
                    ],
                    true,
                ),
                media.end.0,
                0,
                seq![
                    label(
                        EventType::Exit,
                        TokenType::LabelText,
                        place_of(events[media.end.0 as int]),
                    ),
                ],
                false,
            )
        } else {
            opened
        };
        let labelled = added(
            texted,
            (media.end.0 + 4) as usize,
            0,
            seq![
                label(EventType::Exit, TokenType::Label, place_of(events[media.end.0 + 3])),
            ],
            false,
        );
        added(
            labelled,
            (media.end.1 + 1) as usize,
            0,
            seq![label(EventType::Exit, group, place_of(events[media.end.1 as int]))],
            false,
        )
    } else {
        changes
    }
}

/// The changes, with the events of the first `count` media grouped.
pub open spec fn with_groups(
    changes: Seq<Change>,
    events: Seq<Event>,
    media: Seq<Media>,
    count: int,
) -> Seq<Change>
    decreases count,
{
    if count <= 0 {
        changes
    } else {
        with_group(with_groups(changes, events, media, count - 1), events, media[count - 1])
    }
}

/// What resolving media makes of the events: the loose label starts, first
/// those that were loose already and then those that are still on the
/// stack, become data, and the media are grouped.
pub open spec fn with_media(
    events: Seq<Event>,
    loose: Seq<LabelStart>,
    stack: Seq<LabelStart>,
    media: Seq<Media>,
) -> Seq<Event> {
    let left = loose + stack;
    let changes = with_groups(
        with_loose(Seq::empty(), events, left, left.len() as int),
        events,
        media,
        media.len() as int,
    );
    with_moved_links(edited(events, changes, 0, 0), moved(events.len() as int, changes, 0, 0, 0))
}

/// An event without links at the place of another.
fn label_like(event_type: EventType, token_type: TokenType, event: &Event) -> (r: Event)
    ensures
        r == label(event_type, token_type, place_of(*event)),
{
    Event {
        event_type,
        token_type,
        point: event.point,
        index: event.index,
        previous: None,
        next: None,
        content_type: None,
    }
}

/// Turn the label starts that found no end into data.
fn remove_loose(edit_map: &mut EditMap, events: &Vec<Event>, left: &Vec<LabelStart>)
    requires
        old(edit_map).wf(),
    ensures
        final(edit_map).wf(),
        final(edit_map)@ == with_loose(old(edit_map)@, events@, left@, left.len() as int),
{
    let mut index: usize = 0;
    while index < left.len()
        invariant
            index <= left.len(),
            edit_map.wf(),
            edit_map@ == with_loose(old(edit_map)@, events@, left@, index as int),
        decreases left.len() - index,
    {
        let label_start = left[index];
        let data_enter_index = label_start.start.0;
        let data_exit_index = label_start.start.1;
        if data_enter_index <= data_exit_index && data_exit_index < events.len() {
            let add = vec![
                label_like(EventType::Enter, TokenType::Data, &events[data_enter_index]),
                label_like(EventType::Exit, TokenType::Data, &events[data_exit_index]),
            ];
            proof {
                assert(add@ =~= seq![
                    label(
                        EventType::Enter,
                        TokenType::Data,
                        place_of(events[data_enter_index as int]),
                    ),
                    label(
                        EventType::Exit,
                        TokenType::Data,
                        place_of(events[data_exit_index as int]),
                    ),
                ]);
            }
            edit_map.add(data_enter_index, data_exit_index - data_enter_index + 1, add);
        }
        index += 1;
    }
}

/// Group the events of one media.
fn add_group(edit_map: &mut EditMap, events: &Vec<Event>, media: &Media)
    requires
        old(edit_map).wf(),
    ensures
        final(edit_map).wf(),
        final(edit_map)@ == with_group(old(edit_map)@, events@, *media),
{
    if media.start.0 <= media.start.1 && media.start.1 < media.end.0 && media.end.1
        < events.len() && media.end.0 <= media.end.1 && media.end.1 - media.end.0 >= 3 {
        // LabelLink:Enter or LabelImage:Enter.
        let group_enter_index = media.start.0;
        // LabelLink:Exit or LabelImage:Exit.
        let text_enter_index = media.start.1 + 1;
        // LabelEnd:Enter.
        let text_exit_index = media.end.0;
        // LabelEnd:Exit.
        let label_exit_index = media.end.0 + 3;
        // Resource:Exit, etc.
        let group_end_index = media.end.1;
        let group = match events[group_enter_index].token_type {
            TokenType::LabelLink => TokenType::Link,
            _ => TokenType::Image,
        };
        // Insert a group enter and label enter.
        let add = vec![
            label_like(EventType::Enter, group, &events[group_enter_index]),
            label_like(EventType::Enter, TokenType::Label, &events[group_enter_index]),
        ];
        proof {
            assert(add@ =~= seq![
                label(EventType::Enter, group, place_of(events[group_enter_index as int])),
                label(
                    EventType::Enter,
                    TokenType::Label,
                    place_of(events[group_enter_index as int]),
                ),
            ]);
        }
        edit_map.add(group_enter_index, 0, add);
        // Empty events not allowed.
        if text_enter_index != text_exit_index {
            // Insert a text enter.
            let add = vec![
                label_like(EventType::Enter, TokenType::LabelText, &events[media.start.1]),
            ];
            proof {
                assert(add@ =~= seq![
                    label(
                        EventType::Enter,
                        TokenType::LabelText,
                        place_of(events[media.start.1 as int]),
                    ),
                ]);
            }
            edit_map.add_before(text_enter_index, 0, add);
            // Insert a text exit.
            let add = vec![
                label_like(EventType::Exit, TokenType::LabelText, &events[text_exit_index]),
            ];
            proof {
                assert(add@ =~= seq![
                    label(
                        EventType::Exit,
                        TokenType::LabelText,
                        place_of(events[text_exit_index as int]),
                    ),
                ]);
            }
            edit_map.add(text_exit_index, 0, add);
        }
        // Insert a label exit.
        let add = vec![label_like(EventType::Exit, TokenType::Label, &events[label_exit_index])];
        proof {
            assert(add@ =~= seq![
                label(EventType::Exit, TokenType::Label, place_of(events[label_exit_index as int])),
            ]);
        }
        edit_map.add(label_exit_index + 1, 0, add);
        // Insert a group exit.
        let add = vec![label_like(EventType::Exit, group, &events[group_end_index])];
        proof {
            assert(add@ =~= seq![
                label(EventType::Exit, group, place_of(events[group_end_index as int])),
            ]);
        }
        edit_map.add(group_end_index + 1, 0, add);
    }
}

/// Resolve media.
///
/// This turns the label starts that found no end into data, and groups the
/// events of links and images.  The lists of label starts and media are
/// used up.  The events are replaced only if the outcome is nested and
/// ordered as the events of a tokenizer are to be; the result tells whether
/// they were.
pub fn resolve_media(tokenizer: &mut Tokenizer) -> (replaced: bool)
    requires
        old(tokenizer).wf(),
        old(tokenizer).attempts.len() == 0,
    ensures
        replaced == old(tokenizer).accepts(
            with_media(
                old(tokenizer).events@,
                old(tokenizer).label_start_list_loose@,
                old(tokenizer).label_start_stack@,
                old(tokenizer).media_list@,
            ),
        ),
        ({
            let before = &*old(tokenizer);
            let made = with_media(
                before.events@,
                before.label_start_list_loose@,
                before.label_start_stack@,
                before.media_list@,
            );
            final(tokenizer).events@ == if before.accepts(made) {
                made
            } else {
                before.events@
            }
        }),
        final(tokenizer).label_start_stack.len() == 0,
        final(tokenizer).label_start_list_loose.len() == 0,
        final(tokenizer).media_list.len() == 0,
        *final(tokenizer) == (Tokenizer {
            events: final(tokenizer).events,
            label_start_stack: final(tokenizer).label_start_stack,
            label_start_list_loose: final(tokenizer).label_start_list_loose,
            media_list: final(tokenizer).media_list,
            ..*old(tokenizer)
        }),
        final(tokenizer).wf(),
        old(tokenizer).orderly() ==> final(tokenizer).orderly(),
{
    let mut left: Vec<LabelStart> = Vec::new();
    let mut left_2: Vec<LabelStart> = Vec::new();
    let mut media: Vec<Media> = Vec::new();
    std::mem::swap(&mut left, &mut tokenizer.label_start_list_loose);
    std::mem::swap(&mut left_2, &mut tokenizer.label_start_stack);
    std::mem::swap(&mut media, &mut tokenizer.media_list);
    left.append(&mut left_2);
    let mut edit_map = EditMap::new();
    // Remove loose label starts.
    remove_loose(&mut edit_map, &tokenizer.events, &left);
    // Add grouping events.
    let ghost loosened = edit_map@;
    let mut index: usize = 0;
    while index < media.len()
        invariant
            index <= media.len(),
            edit_map.wf(),
            edit_map@ == with_groups(loosened, tokenizer.events@, media@, index as int),
        decreases media.len() - index,
    {
        add_group(&mut edit_map, &tokenizer.events, &media[index]);
        index += 1;
    }
    let mut events: Vec<Event> = Vec::new();
    let mut index: usize = 0;
    while index < tokenizer.events.len()
        invariant
            index <= tokenizer.events.len(),
            events@ == tokenizer.events@.take(index as int),
        decreases tokenizer.events.len() - index,
    {
        events.push(tokenizer.events[index]);
        index += 1;
        proof {
            assert(tokenizer.events@.take(index as int) =~= tokenizer.events@.take(
                index - 1,
            ).push(tokenizer.events[index - 1]));
        }
    }
    proof {
        assert(tokenizer.events@.take(tokenizer.events.len() as int) =~= tokenizer.events@);
    }
    edit_map.consume(&mut events);
    proof {
        assert(tokenizer.core_wf()) by {
            assert(tokenizer.attempts_wf());
        }
    }
    tokenizer.replace_events(events)
}

} // verus!
