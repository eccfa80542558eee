//! Deal with several changes in events, batching them together.
//!
//! Changing a list of events in the middle moves everything after it, and
//! so makes every index into the list stale.  An edit map collects the
//! changes, each given by an index into the list as it stands, and makes
//! them all in one go.  Links between events, which are indices too, are
//! moved along.

use crate::event::Event;
use crate::subtokenize::{as_ints, move_link, moved_link};
use vstd::prelude::*;

verus! {

/// One change to a list of events.
#[derive(Debug)]
pub struct Edit {
    /// Index in the events where the change happens.
    pub at: usize,
    /// Number of events that go, from that index on.
    pub remove: usize,
    /// Events that come instead.
    pub add: Vec<Event>,
}

/// A change, with its events as a plain sequence.
pub struct Change {
    /// Index in the events where the change happens.
    pub at: usize,
    /// Number of events that go, from that index on.
    pub remove: usize,
    /// Events that come instead.
    pub add: Seq<Event>,
}

/// The changes, with their events as plain sequences.
pub open spec fn changes(edits: Seq<Edit>) -> Seq<Change> {
    edits.map_values(|edit: Edit| Change { at: edit.at, remove: edit.remove, add: edit.add@ })
}

/// Whether the changes are in the order of their indices, one per index.
pub open spec fn sorted(changes: Seq<Change>) -> bool {
    forall|i: int, j: int| 0 <= i < j < changes.len() ==> changes[i].at < changes[j].at
}

/// Number of changes that happen before the index `at`, counted from the
/// end: where a change at `at` belongs among sorted changes.
pub open spec fn slot(changes: Seq<Change>, at: usize) -> int
    decreases changes.len(),
{
    if changes.len() == 0 {
        0
    } else if changes.last().at < at {
        changes.len() as int
    } else {
        slot(changes.drop_last(), at)
    }
}

/// The sum of two numbers of events, as far as numbers go.
pub open spec fn more(a: usize, b: usize) -> usize {
    if a + b > usize::MAX {
        usize::MAX
    } else {
        (a + b) as usize
    }
}

/// The changes with one more change.  A second change at an index is
/// merged into the first: as many more events go, and the new events come
/// after those of the first, or, when `before` is set, before them.
pub open spec fn added(
    changes: Seq<Change>,
    at: usize,
    remove: usize,
    add: Seq<Event>,
    before: bool,
) -> Seq<Change> {
    let place = slot(changes, at);
    if place < changes.len() && changes[place].at == at {
        changes.update(
            place,
            Change {
                at,
                remove: more(changes[place].remove, remove),
                add: if before {
                    add + changes[place].add
                } else {
                    changes[place].add + add
                },
            },
        )
    } else {
        changes.insert(place, Change { at, remove, add })
    }
}

/// The events from `at` on with the changes from `next` on made.
///
/// A change whose index was passed already, because it lies among events
/// that an earlier change removed or beyond the end, is not made.
pub open spec fn edited(events: Seq<Event>, changes: Seq<Change>, at: int, next: int) -> Seq<
    Event,
>
    decreases (events.len() - at) + (changes.len() - next),
{
    if at < 0 || next < 0 || at > events.len() || next > changes.len() {
        Seq::empty()
    } else if next < changes.len() && changes[next].at < at {
        edited(events, changes, at, next + 1)
    } else if next < changes.len() && changes[next].at == at {
        let after = if at + changes[next].remove > events.len() {
            events.len() as int
        } else {
            at + changes[next].remove
        };
        changes[next].add + edited(events, changes, after, next + 1)
    } else if at < events.len() {
        seq![events[at]] + edited(events, changes, at + 1, next)
    } else {
        Seq::empty()
    }
}

/// Where the events from `at` on stand once the changes from `next` on are
/// made, counted from `base`, the number of events that came before.  An
/// event that is removed counts as standing where what comes instead
/// starts.
pub open spec fn moved(len: int, changes: Seq<Change>, at: int, next: int, base: int) -> Seq<int>
    decreases (len - at) + (changes.len() - next),
{
    if at < 0 || next < 0 || at > len || next > changes.len() {
        Seq::empty()
    } else if next < changes.len() && changes[next].at < at {
        moved(len, changes, at, next + 1, base)
    } else if next < changes.len() && changes[next].at == at {
        let after = if at + changes[next].remove > len {
            len
        } else {
            at + changes[next].remove
        };
        Seq::new((after - at) as nat, |i: int| base) + moved(
            len,
            changes,
            after,
            next + 1,
            base + changes[next].add.len(),
        )
    } else if at < len {
        seq![base] + moved(len, changes, at + 1, next, base + 1)
    } else {
        Seq::empty()
    }
}

/// The events with every link moved to where the linked event stands.
pub open spec fn with_moved_links(events: Seq<Event>, positions: Seq<int>) -> Seq<Event> {
    Seq::new(
        events.len(),
        |i: int|
            Event {
                previous: moved_link(events[i].previous, positions),
                next: moved_link(events[i].next, positions),
                ..events[i]
            },
    )
}

/// Changes to a list of events, to be made in one go.
#[derive(Debug)]
pub struct EditMap {
    /// The changes, in the order of their indices, one per index.
    pub map: Vec<Edit>,
}

/// Where a change at `at` belongs among sorted changes: after all changes
/// with a smaller index and before all others.
pub proof fn lemma_slot(changes: Seq<Change>, at: usize)
    requires
        sorted(changes),
    ensures
        0 <= slot(changes, at) <= changes.len(),
        forall|i: int| 0 <= i < slot(changes, at) ==> changes[i].at < at,
        forall|i: int| slot(changes, at) <= i < changes.len() ==> changes[i].at >= at,
    decreases changes.len(),
{
    if changes.len() > 0 {
        if changes.last().at >= at {
            let rest = changes.drop_last();
            assert(sorted(rest)) by {
                assert forall|i: int, j: int| 0 <= i < j < rest.len() implies rest[i].at
                    < rest[j].at by {
                    assert(changes[i].at < changes[j].at);
                }
            }
            lemma_slot(rest, at);
            assert forall|i: int| 0 <= i < slot(changes, at) implies changes[i].at < at by {
                assert(rest[i].at < at);
            }
            assert forall|i: int| slot(changes, at) <= i < changes.len() implies changes[i].at
                >= at by {
                if i < rest.len() {
                    assert(rest[i].at >= at);
                }
            }
        } else {
            assert forall|i: int| 0 <= i < slot(changes, at) implies changes[i].at < at by {
                if i < changes.len() - 1 {
                    assert(changes[i].at < changes[changes.len() - 1].at);
                }
            }
        }
    }
}

/// Adding a change keeps the changes sorted.
pub proof fn lemma_added_sorted(
    changes: Seq<Change>,
    at: usize,
    remove: usize,
    add: Seq<Event>,
    before: bool,
)
    requires
        sorted(changes),
    ensures
        sorted(added(changes, at, remove, add, before)),
{
    lemma_slot(changes, at);
}

impl EditMap {
    /// The changes, with their events as plain sequences.
    pub open spec fn view(&self) -> Seq<Change> {
        changes(self.map@)
    }

    /// Whether the changes are in the order of their indices, one per
    /// index.
    pub open spec fn wf(&self) -> bool {
        sorted(self@)
    }

    /// Create a new edit map.
    pub fn new() -> (edit_map: EditMap)
        ensures
            edit_map@ == Seq::<Change>::empty(),
            edit_map.wf(),
    {
        let edit_map = EditMap { map: Vec::new() };
        proof {
            assert(edit_map@ =~= Seq::<Change>::empty());
        }
        edit_map
    }

    /// Create an edit: a remove and/or add at a certain place.
    ///
    /// Events added at an index come after those added there before.
    pub fn add(&mut self, index: usize, remove: usize, add: Vec<Event>)
        requires
            old(self).wf(),
        ensures
            final(self)@ == added(old(self)@, index, remove, add@, false),
            final(self).wf(),
    {
        self.add_impl(index, remove, add, false);
    }

    /// Create an edit: but insert `add` before existing additions.
    pub fn add_before(&mut self, index: usize, remove: usize, add: Vec<Event>)
        requires
            old(self).wf(),
        ensures
            final(self)@ == added(old(self)@, index, remove, add@, true),
            final(self).wf(),
    {
        self.add_impl(index, remove, add, true);
    }

    /// Create an edit.
    fn add_impl(&mut self, index: usize, remove: usize, add: Vec<Event>, before: bool)
        requires
            old(self).wf(),
        ensures
            final(self)@ == added(old(self)@, index, remove, add@, before),
            final(self).wf(),
    {
        let mut add = add;
        let ghost given = add@;
        let mut place = self.map.len();
        proof {
            assert(self@.take(self.map.len() as int) =~= self@);
        }
        while place > 0 && self.map[place - 1].at >= index
            invariant
                place <= self.map.len(),
                slot(self@.take(place as int), index) == slot(self@, index),
            decreases place,
        {
            proof {
                assert(self@.take(place as int).drop_last() =~= self@.take(place - 1));
            }
            place -= 1;
        }
        proof {
            lemma_slot(self@, index);
            lemma_added_sorted(self@, index, remove, given, before);
            if place > 0 {
                assert(self@.take(place as int).last() == self@[place - 1]);
            }
        }
        if place < self.map.len() && self.map[place].at == index {
            let mut edit = Edit { at: index, remove: 0, add: Vec::new() };
            std::mem::swap(&mut edit, &mut self.map[place]);
            let Edit { at, remove: removed, add: there } = edit;
            let mut there = there;
            let total = if usize::MAX - removed < remove {
                usize::MAX
            } else {
                removed + remove
            };
            if before {
                add.append(&mut there);
                self.map[place] = Edit { at: index, remove: total, add };
            } else {
                there.append(&mut add);
                self.map[place] = Edit { at: index, remove: total, add: there };
            }
            proof {
                assert(self@ =~= added(old(self)@, index, remove, given, before));
            }
        } else {
            self.map.insert(place, Edit { at: index, remove, add });
            proof {
                assert(self@ =~= added(old(self)@, index, remove, given, before));
            }
        }
    }
}


impl EditMap {
    /// Done, change the events.
    ///
    /// Every change is made, in the order of the indices, and the links of
    /// all events are moved to where the linked events stand.  The map is
    /// empty afterwards.
    pub fn consume(&mut self, events: &mut Vec<Event>)
        requires
            old(self).wf(),
        ensures
            final(events)@ == with_moved_links(
                edited(old(events)@, old(self)@, 0, 0),
                moved(old(events).len() as int, old(self)@, 0, 0, 0),
            ),
            final(self).map.len() == 0,
            final(self).wf(),
    {
        let mut out: Vec<Event> = Vec::new();
        let mut positions: Vec<usize> = Vec::new();
        let mut at: usize = 0;
        let mut next: usize = 0;
        let ghost len = events.len() as int;
        proof {
            assert(out@ + edited(events@, self@, 0, 0) =~= edited(events@, self@, 0, 0));
            assert(as_ints(positions@) + moved(len, self@, 0, 0, 0) =~= moved(len, self@, 0, 0, 0));
        }
        while at < events.len() || (next < self.map.len() && self.map[next].at <= at)
            invariant
                len == events.len(),
                at <= events.len(),
                next <= self.map.len(),
                out@ + edited(events@, self@, at as int, next as int) == edited(
                    events@,
                    self@,
                    0,
                    0,
                ),
                as_ints(positions@) + moved(len, self@, at as int, next as int, out.len() as int)
                    == moved(len, self@, 0, 0, 0),
            decreases (events.len() - at) + (self.map.len() - next),
        {
            let ghost before = out@;
            let ghost placed = as_ints(positions@);
            if next < self.map.len() && self.map[next].at < at {
                next += 1;
            } else if next < self.map.len() && self.map[next].at == at {
                let base = out.len();
                let edit = &self.map[next];
                let mut index: usize = 0;
                while index < edit.add.len()
                    invariant
                        index <= edit.add.len(),
                        out@ == before + edit.add@.take(index as int),
                    decreases edit.add.len() - index,
                {
                    out.push(edit.add[index]);
                    index += 1;
                    proof {
                        assert(edit.add@.take(index as int) =~= edit.add@.take(index - 1).push(
                            edit.add[index - 1],
                        ));
                    }
                }
                proof {
                    assert(edit.add@.take(edit.add.len() as int) =~= edit.add@);
                }
                let after = if edit.remove > events.len() - at {
                    events.len()
                } else {
                    at + edit.remove
                };
                let mut gone = at;
                proof {
                    assert(as_ints(positions@) =~= placed + Seq::new(0, |i: int| base as int));
                }
                while gone < after
                    invariant
                        at <= gone <= after,
                        as_ints(positions@) == placed + Seq::new(
                            (gone - at) as nat,
                            |i: int| base as int,
                        ),
                    decreases after - gone,
                {
                    let ghost so_far = as_ints(positions@);
                    positions.push(base);
                    gone += 1;
                    proof {
                        assert(as_ints(positions@) =~= so_far.push(base as int));
                        assert(as_ints(positions@) =~= placed + Seq::new(
                            (gone - at) as nat,
                            |i: int| base as int,
                        ));
                    }
                }
                proof {
                    let rest = edited(events@, self@, after as int, next + 1);
                    assert((before + edit.add@) + rest =~= before + (edit.add@ + rest));
                    let gap = Seq::new((after - at) as nat, |i: int| base as int);
                    let tail = moved(len, self@, after as int, next + 1, base + edit.add.len());
                    assert((placed + gap) + tail =~= placed + (gap + tail));
                }
                at = after;
                next += 1;
            } else {
                positions.push(out.len());
                out.push(events[at]);
                proof {
                    let rest = edited(events@, self@, at + 1, next as int);
                    assert(before.push(events[at as int]) + rest =~= before + (
                    seq![events[at as int]] + rest));
                    let tail = moved(len, self@, at + 1, next as int, (before.len() + 1) as int);
                    assert(as_ints(positions@) =~= placed.push(before.len() as int));
                    assert(placed.push(before.len() as int) + tail =~= placed + (
                    seq![before.len() as int] + tail));
                }
                at += 1;
            }
        }
        proof {
            assert(out@ + Seq::<Event>::empty() =~= out@);
            assert(as_ints(positions@) + Seq::<int>::empty() =~= as_ints(positions@));
        }
        // Move the links.
        let ghost made = out@;
        let mut index: usize = 0;
        while index < out.len()
            invariant
                index <= out.len(),
                out.len() == made.len(),
                forall|i: int|
                    0 <= i < index ==> out[i] == with_moved_links(made, as_ints(positions@))[i],
                forall|i: int| index <= i < out.len() ==> out[i] == made[i],
            decreases out.len() - index,
        {
            let mut event = out[index];
            event.previous = move_link(event.previous, &positions);
            event.next = move_link(event.next, &positions);
            out[index] = event;
            index += 1;
        }
        proof {
            assert(out@ =~= with_moved_links(made, as_ints(positions@)));
        }
        *events = out;
        self.map = Vec::new();
        proof {
            assert(self@ =~= Seq::<Change>::empty());
        }
    }
}

} // verus!
