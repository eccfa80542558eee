//! Constructs that the tokenizer brings along: the document, and the
//! resolvers for attention and for media.

pub mod attention;
pub mod document;
pub mod label_end;

use crate::tokenizer::Tokenizer;
use vstd::prelude::*;

verus! {

/// Whether `id` names a resolver that comes with the tokenizer: `attention`
/// or `media`.
pub open spec fn is_known(id: Seq<char>) -> bool {
    id == "attention"@ || id == "media"@
}

/// Whether `after` and `fine` are what the resolver registered under `id`
/// makes of `before`, where that resolver comes with the tokenizer.
///
/// Under `attention` the events are those with attention resolved.  Under
/// `media` the events are those with media grouped and loose label starts
/// turned into data, and the lists of label starts and media are used up.
/// Either way the events are replaced only if the outcome can stand in for
/// them, which is what `fine` tells, and nothing else changes.
pub open spec fn resolved_as(after: &Tokenizer, before: &Tokenizer, id: Seq<char>, fine: bool) -> bool {
    if id == "attention"@ {
        let made = attention::attended(before.events@, before.parse_state.codes@);
        &&& fine == before.accepts(made)
        &&& after.events@ == if fine {
            made
        } else {
            before.events@
        }
        &&& *after == (Tokenizer { events: after.events, ..*before })
    } else if id == "media"@ {
        let made = label_end::with_media(
            before.events@,
            before.label_start_list_loose@,
            before.label_start_stack@,
            before.media_list@,
        );
        &&& fine == before.accepts(made)
        &&& after.events@ == if fine {
            made
        } else {
            before.events@
        }
        &&& after.label_start_stack.len() == 0
        &&& after.label_start_list_loose.len() == 0
        &&& after.media_list.len() == 0
        &&& *after == (Tokenizer {
            events: after.events,
            label_start_stack: after.label_start_stack,
            label_start_list_loose: after.label_start_list_loose,
            media_list: after.media_list,
            ..*before
        })
    } else {
        true
    }
}

/// Run the resolver registered under `id` if it is one that comes with the
/// tokenizer, `attention` or `media`, and tell whether it could do its
/// work: `None` where the resolver is none of these.
pub fn resolve_known(tokenizer: &mut Tokenizer, id: &String) -> (fine: Option<bool>)
    requires
        old(tokenizer).wf(),
        old(tokenizer).attempts.len() == 0,
    ensures
        fine is Some == is_known(id@),
        fine matches Some(replaced) ==> resolved_as(
            &*final(tokenizer),
            &*old(tokenizer),
            id@,
            replaced,
        ),
        fine is None ==> *final(tokenizer) == *old(tokenizer),
        final(tokenizer).wf(),
        old(tokenizer).orderly() ==> final(tokenizer).orderly(),
{
    if *id == "attention".to_string() {
        Some(attention::resolve(tokenizer))
    } else if *id == "media".to_string() {
        Some(label_end::resolve_media(tokenizer))
    } else {
        None
    }
}

} // verus!
