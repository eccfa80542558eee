//! States of the state machine.

use vstd::prelude::*;

verus! {

/// Names of the states that the tokenizer can be asked to run.
///
/// The document states are run by the document driver itself.  The others
/// name the recognisers that the driver leans on, and `Construct` leaves room
/// for the states that those recognisers keep to themselves.
#[derive(Debug, Clone, Copy, PartialEq, Eq, Hash, Structural)]
pub enum StateName {
    /// Start of a document.
    DocumentStart,
    /// Before a container that is open already.
    DocumentContainerExistingBefore,
    /// After a container that was continued.
    DocumentContainerExistingAfter,
    /// Before a possible new container.
    DocumentContainerNewBefore,
    /// Before a possible new container that is no block quote.
    DocumentContainerNewBeforeNotBlockQuote,
    /// Before something that is no new container at all.
    DocumentContainerNewBeforeNotList,
    /// After a new container.
    DocumentContainerNewAfter,
    /// After the containers of a line, before its flow.
    DocumentContainersAfter,
    /// Inside the flow of a line.
    DocumentFlowInside,
    /// After the flow of a line.
    DocumentFlowEnd,
    /// Start of an optional byte order mark.
    BomStart,
    /// Start of a block quote.
    BlockQuoteStart,
    /// Start of the continuation of a block quote.
    BlockQuoteContStart,
    /// Start of a list item.
    ListItemStart,
    /// Start of the continuation of a list item.
    ListItemContStart,
    /// Start of flow.
    FlowStart,
    /// Inside a paragraph.
    ParagraphInside,
    /// Start of text.
    TextStart,
    /// Start of string.
    StringStart,
    /// A state private to some recogniser.
    Construct(u32),
}

impl StateName {
    /// Whether this is one of the states of the document driver.
    pub open spec fn is_document(self) -> bool {
        self is DocumentStart || self is DocumentContainerExistingBefore
            || self is DocumentContainerExistingAfter || self is DocumentContainerNewBefore
            || self is DocumentContainerNewBeforeNotBlockQuote
            || self is DocumentContainerNewBeforeNotList || self is DocumentContainerNewAfter
            || self is DocumentContainersAfter || self is DocumentFlowInside
            || self is DocumentFlowEnd
    }

    /// Whether, in this state, a tentative container sits in the slot right
    /// after the containers that were continued.
    pub open spec fn has_tentative(self) -> bool {
        self is DocumentContainerNewBeforeNotBlockQuote
            || self is DocumentContainerNewBeforeNotList || self is DocumentContainerNewAfter
    }

    /// Whether this is one of the states of the document driver.
    pub fn in_document(self) -> (r: bool)
        ensures
            r == self.is_document(),
    {
        match self {
            StateName::DocumentStart
            | StateName::DocumentContainerExistingBefore
            | StateName::DocumentContainerExistingAfter
            | StateName::DocumentContainerNewBefore
            | StateName::DocumentContainerNewBeforeNotBlockQuote
            | StateName::DocumentContainerNewBeforeNotList
            | StateName::DocumentContainerNewAfter
            | StateName::DocumentContainersAfter
            | StateName::DocumentFlowInside
            | StateName::DocumentFlowEnd => true,
            _ => false,
        }
    }
}

/// The result of a state.
#[derive(Debug, Clone, Copy, PartialEq, Eq, Structural)]
pub enum State {
    /// The current code was consumed: feed the next one to the named state.
    Next(StateName),
    /// The current code still stands: hand it to the named state.
    Retry(StateName),
    /// The state is successful.
    Okay,
    /// The state is not successful.
    Nok,
}

} // verus!
