use vstd::prelude::*;

verus! {

/// Semantic label of a span.
///
/// Whole constructs and their parts share this one closed set of names.
#[derive(Debug, Clone, Copy, PartialEq, Eq, Hash, Structural)]
pub enum TokenType {
    Autolink,
    AutolinkEmail,
    AutolinkMarker,
    AutolinkProtocol,
    /// Line ending preceded only by whitespace or nothing at all.
    BlankLineEnding,
    CharacterEscape,
    CharacterEscapeMarker,
    CharacterEscapeValue,
    CharacterReference,
    CharacterReferenceMarker,
    CharacterReferenceMarkerHexadecimal,
    CharacterReferenceMarkerNumeric,
    CharacterReferenceMarkerSemi,
    CharacterReferenceValue,
    CodeFenced,
    CodeFencedFence,
    CodeFencedFenceInfo,
    CodeFencedFenceMeta,
    CodeFencedFenceSequence,
    CodeFlowChunk,
    CodeIndented,
    CodeText,
    CodeTextData,
    CodeTextLineEnding,
    CodeTextSequence,
    /// Plain content. Flow data is fed to a second tokenizer and compiled away.
    Data,
    Definition,
    DefinitionDestination,
    DefinitionDestinationLiteral,
    DefinitionDestinationLiteralMarker,
    DefinitionDestinationRaw,
    DefinitionDestinationString,
    DefinitionLabel,
    DefinitionLabelMarker,
    DefinitionLabelString,
    DefinitionMarker,
    DefinitionTitle,
    DefinitionTitleMarker,
    DefinitionTitleString,
    HardBreakEscape,
    HardBreakEscapeMarker,
    HardBreakTrailing,
    HardBreakTrailingSpace,
    HeadingAtx,
    HeadingAtxSequence,
    HeadingAtxText,
    HeadingSetext,
    HeadingSetextText,
    HeadingSetextUnderline,
    HtmlFlow,
    HtmlFlowData,
    HtmlText,
    HtmlTextData,
    Image,
    Label,
    /// End of a label; compiled away when labels are resolved.
    LabelEnd,
    /// Start of an image label; compiled away when labels are resolved.
    LabelImage,
    LabelImageMarker,
    /// Start of a link label; compiled away when labels are resolved.
    LabelLink,
    LabelMarker,
    LabelText,
    /// Line ending between two lines of content.
    LineEnding,
    Link,
    /// Whole paragraph.
    Paragraph,
    Reference,
    ReferenceMarker,
    ReferenceString,
    Resource,
    ResourceDestination,
    ResourceDestinationLiteral,
    ResourceDestinationLiteralMarker,
    ResourceDestinationRaw,
    ResourceDestinationString,
    ResourceMarker,
    ResourceTitle,
    ResourceTitleMarker,
    ResourceTitleString,
    SpaceOrTab,
    ThematicBreak,
    ThematicBreakSequence,
    Strong,
    StrongSequence,
    StrongText,
    Emphasis,
    EmphasisSequence,
    EmphasisText,
    /// A run of `*` or `_`; compiled away when emphasis and strong are resolved.
    AttentionSequence,
    /// Whole block quote, a container.
    BlockQuote,
    BlockQuoteMarker,
    BlockQuotePrefix,
    BlockQuotePrefixWhitespace,
    /// Whole list item, a container.
    ListItem,
    ListItemMarker,
    ListItemPrefix,
    ListItemValue,
}

} // verus!
