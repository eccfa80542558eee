use micromark::construct::document::{
    container_existing_after, container_existing_before, container_new_after,
    container_new_before, container_new_before_not_block_quote, container_new_before_not_list,
    containers_after, exit_containers, feed_child, flow_end, flow_inside, flush_child, has_spans,
    start, Document, Phase,
};
use micromark::event::{is_well_nested, ContentType, Event, EventType, Point};
use micromark::feed::Constructs;
use micromark::parser::{parse_codes, Code, ParseState};
use micromark::state::{State, StateName};
use micromark::subtokenize::{chunks, feed_chunks, subtokenize};
use micromark::token::TokenType;
use micromark::tokenizer::{Container, ContainerState, Tokenizer};
use micromark::util::skip::opt;

use EventType::{Enter, Exit};

fn stream(text: &str) -> ParseState {
    let chars: Vec<char> = text.chars().collect();
    ParseState::new(parse_codes(&chars)).unwrap()
}

fn origin() -> Point {
    Point { line: 1, column: 1, offset: 0 }
}

fn is_eol(code: Code) -> bool {
    matches!(code, Code::CarriageReturnLineFeed | Code::Char('\n') | Code::Char('\r'))
}

const BQ_AFTER_MARKER: StateName = StateName::Construct(1);
const LI_AFTER_MARKER: StateName = StateName::Construct(2);
const LI_CONT_INSIDE: StateName = StateName::Construct(3);
const PARA_START: StateName = StateName::Construct(10);
const FLOW_AFTER: StateName = StateName::Construct(11);
const CODE_OPEN: StateName = StateName::Construct(20);
const CODE_OPEN_SEQ: StateName = StateName::Construct(21);
const CODE_INFO_START: StateName = StateName::Construct(22);
const CODE_INFO_INSIDE: StateName = StateName::Construct(23);
const CODE_AT_EOL: StateName = StateName::Construct(24);
const NON_LAZY_START: StateName = StateName::Construct(25);
const NON_LAZY_AFTER: StateName = StateName::Construct(26);
const CODE_CONT: StateName = StateName::Construct(27);
const CODE_END: StateName = StateName::Construct(28);
const CODE_LINE_START: StateName = StateName::Construct(29);
const CODE_CLOSE: StateName = StateName::Construct(30);
const CODE_CLOSE_SEQ: StateName = StateName::Construct(31);
const CODE_CLOSED: StateName = StateName::Construct(32);
const CODE_CHUNK_START: StateName = StateName::Construct(33);
const CODE_CHUNK_INSIDE: StateName = StateName::Construct(34);
const ATTENTION_INSIDE: StateName = StateName::Construct(40);
const DATA_INSIDE: StateName = StateName::Construct(41);

/// A small set of constructs: block quotes, list items with `*`, and as
/// flow paragraphs, blank lines and fenced code.
struct Mini;

fn block_quote_prefix(t: &mut Tokenizer) -> State {
    t.enter(TokenType::BlockQuotePrefix);
    t.enter(TokenType::BlockQuoteMarker);
    t.consume(t.current);
    t.exit(TokenType::BlockQuoteMarker);
    State::Next(BQ_AFTER_MARKER)
}

fn line_ending(t: &mut Tokenizer, token_type: TokenType) {
    t.enter(token_type);
    t.consume(t.current);
    t.exit(token_type);
}

/// Number of codes consumed since the last event.
fn size(t: &Tokenizer) -> usize {
    t.index - t.events[t.events.len() - 1].index
}

impl Constructs for Mini {
    fn call(&self, t: &mut Tokenizer, name: StateName) -> State {
        let code = t.current;
        match name {
            StateName::BlockQuoteStart => match code {
                Code::Char('>') => {
                    t.enter(TokenType::BlockQuote);
                    block_quote_prefix(t)
                }
                _ => State::Nok,
            },
            StateName::BlockQuoteContStart => match code {
                Code::Char('>') => block_quote_prefix(t),
                _ => State::Nok,
            },
            BQ_AFTER_MARKER => {
                if code == Code::Char(' ') {
                    t.enter(TokenType::BlockQuotePrefixWhitespace);
                    t.consume(code);
                    t.exit(TokenType::BlockQuotePrefixWhitespace);
                }
                t.exit(TokenType::BlockQuotePrefix);
                State::Okay
            }
            StateName::ListItemStart => match code {
                Code::Char('*') => {
                    t.enter(TokenType::ListItem);
                    t.enter(TokenType::ListItemPrefix);
                    t.enter(TokenType::ListItemMarker);
                    t.consume(code);
                    t.exit(TokenType::ListItemMarker);
                    State::Next(LI_AFTER_MARKER)
                }
                _ => State::Nok,
            },
            LI_AFTER_MARKER => match code {
                Code::Char(' ') => {
                    t.enter(TokenType::SpaceOrTab);
                    t.consume(code);
                    t.exit(TokenType::SpaceOrTab);
                    t.exit(TokenType::ListItemPrefix);
                    let slot = t.continued;
                    t.container_stack[slot].size = 2;
                    State::Okay
                }
                _ => State::Nok,
            },
            StateName::ListItemContStart => match code {
                Code::Char(' ') => {
                    t.enter(TokenType::SpaceOrTab);
                    t.consume(code);
                    State::Next(LI_CONT_INSIDE)
                }
                _ => State::Nok,
            },
            LI_CONT_INSIDE => {
                if size(t) == t.container_stack[t.continued].size {
                    t.exit(TokenType::SpaceOrTab);
                    State::Okay
                } else if code == Code::Char(' ') {
                    t.consume(code);
                    State::Next(LI_CONT_INSIDE)
                } else {
                    State::Nok
                }
            }
            StateName::FlowStart => match code {
                Code::End => State::Okay,
                Code::Char('`') => {
                    t.attempt(State::Next(CODE_INFO_START), State::Next(PARA_START));
                    State::Retry(CODE_OPEN)
                }
                _ if is_eol(code) => {
                    line_ending(t, TokenType::BlankLineEnding);
                    t.interrupt = false;
                    State::Next(StateName::FlowStart)
                }
                _ => State::Retry(PARA_START),
            },
            PARA_START => {
                t.enter(TokenType::Paragraph);
                t.enter_with_content(TokenType::Data, Some(ContentType::Text));
                State::Retry(StateName::ParagraphInside)
            }
            StateName::ParagraphInside => {
                if code == Code::End || is_eol(code) {
                    t.exit(TokenType::Data);
                    t.exit(TokenType::Paragraph);
                    t.register_resolver_before("paragraph".to_string());
                    t.interrupt = true;
                    State::Retry(FLOW_AFTER)
                } else {
                    t.consume(code);
                    State::Next(StateName::ParagraphInside)
                }
            }
            FLOW_AFTER => {
                if code == Code::End {
                    State::Okay
                } else if is_eol(code) {
                    line_ending(t, TokenType::LineEnding);
                    State::Next(StateName::FlowStart)
                } else {
                    State::Nok
                }
            }
            CODE_OPEN => {
                t.enter(TokenType::CodeFenced);
                t.enter(TokenType::CodeFencedFence);
                t.enter(TokenType::CodeFencedFenceSequence);
                State::Retry(CODE_OPEN_SEQ)
            }
            CODE_OPEN_SEQ => {
                if code == Code::Char('`') {
                    t.consume(code);
                    State::Next(CODE_OPEN_SEQ)
                } else if size(t) >= 3 {
                    t.exit(TokenType::CodeFencedFenceSequence);
                    State::Okay
                } else {
                    State::Nok
                }
            }
            CODE_INFO_START => {
                if code == Code::End || is_eol(code) {
                    t.exit(TokenType::CodeFencedFence);
                    t.concrete = true;
                    State::Retry(CODE_AT_EOL)
                } else {
                    t.enter(TokenType::CodeFencedFenceInfo);
                    t.consume(code);
                    State::Next(CODE_INFO_INSIDE)
                }
            }
            CODE_INFO_INSIDE => {
                if code == Code::End || is_eol(code) {
                    t.exit(TokenType::CodeFencedFenceInfo);
                    t.exit(TokenType::CodeFencedFence);
                    t.concrete = true;
                    State::Retry(CODE_AT_EOL)
                } else {
                    t.consume(code);
                    State::Next(CODE_INFO_INSIDE)
                }
            }
            CODE_AT_EOL => {
                if code == Code::End {
                    t.exit(TokenType::CodeFenced);
                    t.concrete = false;
                    State::Okay
                } else {
                    t.check(State::Next(CODE_CONT), State::Next(CODE_END));
                    State::Retry(NON_LAZY_START)
                }
            }
            NON_LAZY_START => {
                line_ending(t, TokenType::LineEnding);
                State::Next(NON_LAZY_AFTER)
            }
            NON_LAZY_AFTER => {
                if t.lazy {
                    State::Nok
                } else {
                    State::Okay
                }
            }
            CODE_CONT => {
                line_ending(t, TokenType::LineEnding);
                State::Next(CODE_LINE_START)
            }
            CODE_END => {
                t.exit(TokenType::CodeFenced);
                t.concrete = false;
                State::Retry(FLOW_AFTER)
            }
            CODE_LINE_START => match code {
                Code::End => {
                    t.exit(TokenType::CodeFenced);
                    t.concrete = false;
                    State::Okay
                }
                Code::Char('`') => {
                    t.attempt(State::Next(CODE_CLOSED), State::Next(CODE_CHUNK_START));
                    State::Retry(CODE_CLOSE)
                }
                _ => State::Retry(CODE_CHUNK_START),
            },
            CODE_CLOSE => {
                t.enter(TokenType::CodeFencedFence);
                t.enter(TokenType::CodeFencedFenceSequence);
                State::Retry(CODE_CLOSE_SEQ)
            }
            CODE_CLOSE_SEQ => {
                if code == Code::Char('`') {
                    t.consume(code);
                    State::Next(CODE_CLOSE_SEQ)
                } else if (code == Code::End || is_eol(code)) && size(t) >= 3 {
                    t.exit(TokenType::CodeFencedFenceSequence);
                    t.exit(TokenType::CodeFencedFence);
                    State::Okay
                } else {
                    State::Nok
                }
            }
            CODE_CLOSED => {
                t.exit(TokenType::CodeFenced);
                t.concrete = false;
                State::Retry(FLOW_AFTER)
            }
            CODE_CHUNK_START => {
                if code == Code::End || is_eol(code) {
                    State::Retry(CODE_AT_EOL)
                } else {
                    t.enter(TokenType::CodeFlowChunk);
                    t.consume(code);
                    State::Next(CODE_CHUNK_INSIDE)
                }
            }
            CODE_CHUNK_INSIDE => {
                if code == Code::End || is_eol(code) {
                    t.exit(TokenType::CodeFlowChunk);
                    State::Retry(CODE_AT_EOL)
                } else {
                    t.consume(code);
                    State::Next(CODE_CHUNK_INSIDE)
                }
            }
            StateName::TextStart => match code {
                Code::End => State::Okay,
                Code::Char('*') | Code::Char('_') => {
                    t.enter(TokenType::AttentionSequence);
                    State::Retry(ATTENTION_INSIDE)
                }
                _ => {
                    t.enter(TokenType::Data);
                    State::Retry(DATA_INSIDE)
                }
            },
            ATTENTION_INSIDE => {
                let marker = t.parse_state.codes[t.events[t.events.len() - 1].index];
                if code == marker {
                    t.consume(code);
                    State::Next(ATTENTION_INSIDE)
                } else {
                    t.exit(TokenType::AttentionSequence);
                    t.register_resolver("attention".to_string());
                    State::Retry(StateName::TextStart)
                }
            }
            DATA_INSIDE => match code {
                Code::End | Code::Char('*') | Code::Char('_') => {
                    t.exit(TokenType::Data);
                    State::Retry(StateName::TextStart)
                }
                _ => {
                    t.consume(code);
                    State::Next(DATA_INSIDE)
                }
            },
            _ => State::Nok,
        }
    }

    /// Merge paragraphs that only a line ending and the prefixes of
    /// containers keep apart.
    fn resolve(&self, t: &mut Tokenizer, id: &String) -> bool {
        if id != "paragraph" {
            return id != "broken";
        }
        let between = [
            TokenType::LineEnding,
            TokenType::SpaceOrTab,
            TokenType::BlockQuotePrefix,
        ];
        let mut index = 0;
        while index < t.events.len() {
            let event = t.events[index];
            if event.event_type == Exit
                && event.token_type == TokenType::Paragraph
                && index + 1 < t.events.len()
                && t.events[index + 1].token_type == TokenType::LineEnding
            {
                let next = opt(&t.events, index + 1, &between);
                if next < t.events.len()
                    && t.events[next].event_type == Enter
                    && t.events[next].token_type == TokenType::Paragraph
                {
                    t.events.remove(next);
                    t.events.remove(index);
                    continue;
                }
            }
            index += 1;
        }
        true
    }
}

fn parse(text: &str) -> Vec<Event> {
    let parse_state = stream(text);
    let document = Document { constructs: Mini };
    let mut tokenizer = Tokenizer::new(origin(), 0, &parse_state);
    let to = parse_state.codes.len();
    let state = tokenizer.push(&document, 0, to, State::Next(StateName::DocumentStart));
    let state = tokenizer.flush(&document, state, true);
    assert_eq!(state, State::Okay);
    assert!(tokenizer.stack.is_empty());
    assert!(tokenizer.container_stack.is_empty());
    assert!(tokenizer.resolvers.is_empty());
    tokenizer.events
}

fn labels(events: &[Event]) -> Vec<(EventType, TokenType)> {
    events.iter().map(|event| (event.event_type, event.token_type)).collect()
}

fn check_shape(events: &[Event]) {
    assert!(is_well_nested(&events.to_vec()));
    for pair in events.windows(2) {
        assert!(pair[0].point.offset <= pair[1].point.offset);
    }
}

fn block_quote_prefix_labels() -> Vec<(EventType, TokenType)> {
    vec![
        (Enter, TokenType::BlockQuotePrefix),
        (Enter, TokenType::BlockQuoteMarker),
        (Exit, TokenType::BlockQuoteMarker),
        (Enter, TokenType::BlockQuotePrefixWhitespace),
        (Exit, TokenType::BlockQuotePrefixWhitespace),
        (Exit, TokenType::BlockQuotePrefix),
    ]
}

fn paragraph_labels() -> Vec<(EventType, TokenType)> {
    vec![
        (Enter, TokenType::Paragraph),
        (Enter, TokenType::Data),
        (Exit, TokenType::Data),
        (Exit, TokenType::Paragraph),
    ]
}

fn line_ending_labels() -> Vec<(EventType, TokenType)> {
    vec![(Enter, TokenType::LineEnding), (Exit, TokenType::LineEnding)]
}

fn concat(parts: Vec<Vec<(EventType, TokenType)>>) -> Vec<(EventType, TokenType)> {
    parts.into_iter().flatten().collect()
}

#[test]
fn paragraph_alone() {
    let events = parse("a");
    assert_eq!(labels(&events), paragraph_labels());
    check_shape(&events);
    assert_eq!(events[0].point, origin());
    assert_eq!(events[3].point, Point { line: 1, column: 2, offset: 1 });
}

#[test]
fn empty_document() {
    let events = parse("");
    assert!(events.is_empty());
}

#[test]
fn block_quote_with_paragraph() {
    let events = parse("> a");
    assert_eq!(
        labels(&events),
        concat(vec![
            vec![(Enter, TokenType::BlockQuote)],
            block_quote_prefix_labels(),
            paragraph_labels(),
            vec![(Exit, TokenType::BlockQuote)],
        ])
    );
    check_shape(&events);
    // The paragraph starts after the prefix, and the block quote ends where
    // the input ends.
    assert_eq!(events[7].point, Point { line: 1, column: 3, offset: 2 });
    assert_eq!(events[7].index, 2);
    assert_eq!(events[11].point, Point { line: 1, column: 4, offset: 3 });
}

#[test]
fn block_quote_with_final_crlf() {
    let events = parse("> a\r\n");
    assert_eq!(
        labels(&events),
        concat(vec![
            vec![(Enter, TokenType::BlockQuote)],
            block_quote_prefix_labels(),
            paragraph_labels(),
            vec![(Exit, TokenType::BlockQuote)],
            line_ending_labels(),
        ])
    );
    check_shape(&events);
    // The exit of the block quote stands at the line ending.
    assert_eq!(events[11].point, Point { line: 1, column: 4, offset: 3 });
    assert_eq!(events[12].point, Point { line: 1, column: 4, offset: 3 });
    // The line ending is one code of two bytes.
    assert_eq!(events[13].point, Point { line: 2, column: 1, offset: 5 });
    assert_eq!(events[13].index, 4);
}

#[test]
fn block_quote_continued_by_prefix() {
    let events = parse("> a\n> b");
    assert_eq!(
        labels(&events),
        concat(vec![
            vec![(Enter, TokenType::BlockQuote)],
            block_quote_prefix_labels(),
            vec![(Enter, TokenType::Paragraph), (Enter, TokenType::Data), (Exit, TokenType::Data)],
            line_ending_labels(),
            block_quote_prefix_labels(),
            vec![(Enter, TokenType::Data), (Exit, TokenType::Data), (Exit, TokenType::Paragraph)],
            vec![(Exit, TokenType::BlockQuote)],
        ])
    );
    check_shape(&events);
}

#[test]
fn lazy_line_continues_the_paragraph() {
    let events = parse("> a\nb");
    assert_eq!(
        labels(&events),
        concat(vec![
            vec![(Enter, TokenType::BlockQuote)],
            block_quote_prefix_labels(),
            vec![(Enter, TokenType::Paragraph), (Enter, TokenType::Data), (Exit, TokenType::Data)],
            line_ending_labels(),
            vec![(Enter, TokenType::Data), (Exit, TokenType::Data), (Exit, TokenType::Paragraph)],
            vec![(Exit, TokenType::BlockQuote)],
        ])
    );
    check_shape(&events);
    // One paragraph spans both lines.
    let paragraphs: Vec<&Event> =
        events.iter().filter(|event| event.token_type == TokenType::Paragraph).collect();
    assert_eq!(paragraphs.len(), 2);
    assert_eq!(paragraphs[0].point, Point { line: 1, column: 3, offset: 2 });
    assert_eq!(paragraphs[1].point, Point { line: 2, column: 2, offset: 5 });
}

#[test]
fn lazy_line_that_is_no_paragraph_closes_the_container() {
    let events = parse("> a\n```\nb");
    assert_eq!(
        labels(&events),
        concat(vec![
            vec![(Enter, TokenType::BlockQuote)],
            block_quote_prefix_labels(),
            paragraph_labels(),
            vec![(Exit, TokenType::BlockQuote)],
            line_ending_labels(),
            vec![
                (Enter, TokenType::CodeFenced),
                (Enter, TokenType::CodeFencedFence),
                (Enter, TokenType::CodeFencedFenceSequence),
                (Exit, TokenType::CodeFencedFenceSequence),
                (Exit, TokenType::CodeFencedFence),
            ],
            line_ending_labels(),
            vec![(Enter, TokenType::CodeFlowChunk), (Exit, TokenType::CodeFlowChunk)],
            vec![(Exit, TokenType::CodeFenced)],
        ])
    );
    check_shape(&events);
    // The block quote ends at the end of its last line.
    assert_eq!(events[11].token_type, TokenType::BlockQuote);
    assert_eq!(events[11].point, Point { line: 1, column: 4, offset: 3 });
}

#[test]
fn paragraph_after_blank_line_is_not_lazy() {
    let events = parse("> a\n\nb");
    assert_eq!(
        labels(&events),
        concat(vec![
            vec![(Enter, TokenType::BlockQuote)],
            block_quote_prefix_labels(),
            paragraph_labels(),
            vec![(Exit, TokenType::BlockQuote)],
            line_ending_labels(),
            vec![(Enter, TokenType::BlankLineEnding), (Exit, TokenType::BlankLineEnding)],
            paragraph_labels(),
        ])
    );
    check_shape(&events);
}

#[test]
fn list_item_continued_by_indent() {
    let events = parse("* a\n  b");
    assert_eq!(
        labels(&events),
        concat(vec![
            vec![
                (Enter, TokenType::ListItem),
                (Enter, TokenType::ListItemPrefix),
                (Enter, TokenType::ListItemMarker),
                (Exit, TokenType::ListItemMarker),
                (Enter, TokenType::SpaceOrTab),
                (Exit, TokenType::SpaceOrTab),
                (Exit, TokenType::ListItemPrefix),
            ],
            vec![(Enter, TokenType::Paragraph), (Enter, TokenType::Data), (Exit, TokenType::Data)],
            line_ending_labels(),
            vec![(Enter, TokenType::SpaceOrTab), (Exit, TokenType::SpaceOrTab)],
            vec![(Enter, TokenType::Data), (Exit, TokenType::Data), (Exit, TokenType::Paragraph)],
            vec![(Exit, TokenType::ListItem)],
        ])
    );
    check_shape(&events);
    // The second chunk of the paragraph starts after the indent.
    assert_eq!(events[14].token_type, TokenType::Data);
    assert_eq!(events[14].point, Point { line: 2, column: 3, offset: 6 });
}

#[test]
fn list_item_not_continued_by_fenced_code() {
    let events = parse("* a\n```js\n```\n");
    assert_eq!(
        labels(&events),
        concat(vec![
            vec![
                (Enter, TokenType::ListItem),
                (Enter, TokenType::ListItemPrefix),
                (Enter, TokenType::ListItemMarker),
                (Exit, TokenType::ListItemMarker),
                (Enter, TokenType::SpaceOrTab),
                (Exit, TokenType::SpaceOrTab),
                (Exit, TokenType::ListItemPrefix),
            ],
            paragraph_labels(),
            vec![(Exit, TokenType::ListItem)],
            line_ending_labels(),
            vec![
                (Enter, TokenType::CodeFenced),
                (Enter, TokenType::CodeFencedFence),
                (Enter, TokenType::CodeFencedFenceSequence),
                (Exit, TokenType::CodeFencedFenceSequence),
                (Enter, TokenType::CodeFencedFenceInfo),
                (Exit, TokenType::CodeFencedFenceInfo),
                (Exit, TokenType::CodeFencedFence),
            ],
            line_ending_labels(),
            vec![
                (Enter, TokenType::CodeFencedFence),
                (Enter, TokenType::CodeFencedFenceSequence),
                (Exit, TokenType::CodeFencedFenceSequence),
                (Exit, TokenType::CodeFencedFence),
                (Exit, TokenType::CodeFenced),
            ],
            line_ending_labels(),
        ])
    );
    check_shape(&events);
}

#[test]
fn new_container_replaces_the_old() {
    let events = parse("> a\n* b");
    assert_eq!(
        labels(&events),
        concat(vec![
            vec![(Enter, TokenType::BlockQuote)],
            block_quote_prefix_labels(),
            paragraph_labels(),
            vec![(Exit, TokenType::BlockQuote)],
            line_ending_labels(),
            vec![
                (Enter, TokenType::ListItem),
                (Enter, TokenType::ListItemPrefix),
                (Enter, TokenType::ListItemMarker),
                (Exit, TokenType::ListItemMarker),
                (Enter, TokenType::SpaceOrTab),
                (Exit, TokenType::SpaceOrTab),
                (Exit, TokenType::ListItemPrefix),
            ],
            paragraph_labels(),
            vec![(Exit, TokenType::ListItem)],
        ])
    );
    check_shape(&events);
}

#[test]
fn nested_containers() {
    let events = parse("> * a\n> b");
    check_shape(&events);
    let names: Vec<TokenType> = events
        .iter()
        .filter(|event| {
            matches!(
                event.token_type,
                TokenType::BlockQuote | TokenType::ListItem | TokenType::Paragraph
            )
        })
        .map(|event| event.token_type)
        .collect();
    // The second line continues the block quote but not the list item; as
    // a lazy line it carries on the paragraph, so both stay open.
    assert_eq!(
        names,
        vec![
            TokenType::BlockQuote,
            TokenType::ListItem,
            TokenType::Paragraph,
            TokenType::Paragraph,
            TokenType::ListItem,
            TokenType::BlockQuote,
        ]
    );
}

#[test]
fn fenced_code_in_block_quote_ends_with_the_quote() {
    let events = parse("> ```\nb");
    assert_eq!(
        labels(&events),
        concat(vec![
            vec![(Enter, TokenType::BlockQuote)],
            block_quote_prefix_labels(),
            vec![
                (Enter, TokenType::CodeFenced),
                (Enter, TokenType::CodeFencedFence),
                (Enter, TokenType::CodeFencedFenceSequence),
                (Exit, TokenType::CodeFencedFenceSequence),
                (Exit, TokenType::CodeFencedFence),
                (Exit, TokenType::CodeFenced),
            ],
            vec![(Exit, TokenType::BlockQuote)],
            line_ending_labels(),
            paragraph_labels(),
        ])
    );
    check_shape(&events);
    // The code and the block quote close at the same point.
    assert_eq!(events[12].token_type, TokenType::CodeFenced);
    assert_eq!(events[13].token_type, TokenType::BlockQuote);
    assert_eq!(events[12].point, events[13].point);
    assert_eq!(events[13].point, Point { line: 1, column: 6, offset: 5 });
}

#[test]
fn fenced_code_in_block_quote_continues_with_the_prefix() {
    let events = parse("> ```\n> a\n> ```\n");
    check_shape(&events);
    let chunks: Vec<&Event> =
        events.iter().filter(|event| event.token_type == TokenType::CodeFlowChunk).collect();
    assert_eq!(chunks.len(), 2);
    // The content of the code starts after the prefix of its line.
    assert_eq!(chunks[0].point, Point { line: 2, column: 3, offset: 8 });
    assert_eq!(chunks[1].point, Point { line: 2, column: 4, offset: 9 });
    let quotes: Vec<&Event> =
        events.iter().filter(|event| event.token_type == TokenType::BlockQuote).collect();
    assert_eq!(quotes.len(), 2);
    let codes: Vec<&Event> =
        events.iter().filter(|event| event.token_type == TokenType::CodeFenced).collect();
    assert_eq!(codes.len(), 2);
}

#[test]
fn concrete_flow_is_not_pierced_by_containers() {
    // Inside fenced code, `>` is content.
    let events = parse("```\n> a\n```");
    check_shape(&events);
    assert!(events.iter().all(|event| event.token_type != TokenType::BlockQuote));
    let chunks: Vec<&Event> =
        events.iter().filter(|event| event.token_type == TokenType::CodeFlowChunk).collect();
    assert_eq!(chunks.len(), 2);
    assert_eq!(chunks[0].point, Point { line: 2, column: 1, offset: 4 });
    assert_eq!(chunks[1].point, Point { line: 2, column: 4, offset: 7 });
}

#[test]
fn failed_container_is_rolled_back() {
    // `*` without a space after it opens no list item.
    let events = parse("*a");
    assert_eq!(labels(&events), paragraph_labels());
    assert_eq!(events[0].point, origin());
    check_shape(&events);
}

#[test]
fn byte_order_mark_is_consumed_silently() {
    let events = parse("\u{feff}> a");
    assert_eq!(
        labels(&events),
        concat(vec![
            vec![(Enter, TokenType::BlockQuote)],
            block_quote_prefix_labels(),
            paragraph_labels(),
            vec![(Exit, TokenType::BlockQuote)],
        ])
    );
    assert_eq!(events[0].point, Point { line: 1, column: 2, offset: 1 });
    assert_eq!(events[0].index, 1);
}

#[test]
fn flow_covers_the_input_but_for_the_prefixes() {
    let text = "> a\n> bc\nd";
    let events = parse(text);
    check_shape(&events);
    let mut covered = vec![false; text.len()];
    let mut prefix = vec![false; text.len()];
    let mut index = 0;
    while index < events.len() {
        let event = &events[index];
        if event.event_type == Enter {
            let leaf = matches!(event.token_type, TokenType::Data | TokenType::LineEnding);
            let marker = matches!(
                event.token_type,
                TokenType::BlockQuoteMarker | TokenType::BlockQuotePrefixWhitespace
            );
            if leaf || marker {
                let exit = &events[index + 1];
                assert_eq!(exit.token_type, event.token_type);
                for offset in event.point.offset..exit.point.offset {
                    assert!(!covered[offset] && !prefix[offset]);
                    if leaf {
                        covered[offset] = true;
                    } else {
                        prefix[offset] = true;
                    }
                }
            }
        }
        index += 1;
    }
    // `> ` twice is prefix; everything else is data or line ending.
    let expected_prefix: Vec<bool> =
        vec![true, true, false, false, true, true, false, false, false, false];
    assert_eq!(prefix, expected_prefix);
    let expected_covered: Vec<bool> = expected_prefix.iter().map(|p| !p).collect();
    assert_eq!(covered, expected_covered);
}

#[test]
fn start_makes_the_child_and_tries_a_byte_order_mark() {
    let parse_state = stream("> a");
    let mut tokenizer = Tokenizer::new(origin(), 0, &parse_state);
    tokenizer.expect(Code::Char('>'));
    let next = start(&mut tokenizer);
    assert_eq!(next, State::Retry(StateName::BomStart));
    let child = tokenizer.child.as_ref().unwrap();
    assert_eq!(child.point, origin());
    assert_eq!(child.index, 0);
    assert!(child.events.is_empty());
    assert_eq!(tokenizer.attempts.len(), 1);
    assert_eq!(
        tokenizer.attempts[0].ok,
        State::Next(StateName::DocumentContainerExistingBefore)
    );
    assert_eq!(
        tokenizer.attempts[0].nok,
        State::Next(StateName::DocumentContainerExistingBefore)
    );
}

fn with_containers<'a>(
    parse_state: &'a ParseState,
    containers: Vec<ContainerState>,
    continued: usize,
) -> Tokenizer<'a> {
    let mut tokenizer = Tokenizer::new(origin(), 0, parse_state);
    tokenizer.child = Some(Box::new(Tokenizer::new(origin(), 0, parse_state)));
    for container in &containers {
        tokenizer.stack.push(match container.kind {
            Container::BlockQuote => TokenType::BlockQuote,
            Container::ListItem => TokenType::ListItem,
        });
    }
    tokenizer.container_stack = containers;
    tokenizer.continued = continued;
    tokenizer.exits.push(None);
    tokenizer.expect(parse_state.codes[0]);
    tokenizer
}

fn quote() -> ContainerState {
    ContainerState { kind: Container::BlockQuote, blank_initial: false, size: 0 }
}

fn item(size: usize) -> ContainerState {
    ContainerState { kind: Container::ListItem, blank_initial: false, size }
}

#[test]
fn existing_containers_are_tried_in_turn() {
    let parse_state = stream("> a");
    let mut tokenizer = with_containers(&parse_state, vec![quote(), item(2)], 0);
    assert_eq!(
        container_existing_before(&mut tokenizer),
        State::Retry(StateName::BlockQuoteContStart)
    );
    assert_eq!(tokenizer.attempts.len(), 1);
    assert_eq!(
        tokenizer.attempts[0].ok,
        State::Next(StateName::DocumentContainerExistingAfter)
    );
    assert_eq!(tokenizer.attempts[0].nok, State::Next(StateName::DocumentContainerNewBefore));

    let mut tokenizer = with_containers(&parse_state, vec![quote(), item(2)], 1);
    assert_eq!(
        container_existing_before(&mut tokenizer),
        State::Retry(StateName::ListItemContStart)
    );

    let mut tokenizer = with_containers(&parse_state, vec![quote(), item(2)], 2);
    assert_eq!(
        container_existing_before(&mut tokenizer),
        State::Retry(StateName::DocumentContainerNewBefore)
    );
    assert!(tokenizer.attempts.is_empty());
}

#[test]
fn continued_container_is_counted() {
    let parse_state = stream("> a");
    let mut tokenizer = with_containers(&parse_state, vec![quote(), item(2)], 0);
    assert_eq!(
        container_existing_after(&mut tokenizer),
        State::Retry(StateName::DocumentContainerExistingBefore)
    );
    assert_eq!(tokenizer.continued, 1);
}

#[test]
fn tentative_container_takes_the_slot_after_the_continued() {
    let parse_state = stream("> a");
    let mut tokenizer = with_containers(&parse_state, vec![quote(), item(2), item(4)], 1);
    assert_eq!(container_new_before(&mut tokenizer), State::Retry(StateName::BlockQuoteStart));
    assert_eq!(tokenizer.container_stack, vec![quote(), quote(), item(4), item(2)]);
    assert_eq!(tokenizer.attempts[0].ok, State::Next(StateName::DocumentContainerNewAfter));
    assert_eq!(
        tokenizer.attempts[0].nok,
        State::Next(StateName::DocumentContainerNewBeforeNotBlockQuote)
    );
    tokenizer.attempts.clear();

    assert_eq!(
        container_new_before_not_block_quote(&mut tokenizer),
        State::Retry(StateName::ListItemStart)
    );
    assert_eq!(tokenizer.container_stack, vec![quote(), item(0), item(4), item(2)]);
    assert_eq!(tokenizer.attempts[0].ok, State::Next(StateName::DocumentContainerNewAfter));
    assert_eq!(
        tokenizer.attempts[0].nok,
        State::Next(StateName::DocumentContainerNewBeforeNotList)
    );
    tokenizer.attempts.clear();

    assert_eq!(
        container_new_before_not_list(&mut tokenizer),
        State::Retry(StateName::DocumentContainersAfter)
    );
    assert_eq!(tokenizer.container_stack, vec![quote(), item(2), item(4)]);
}

#[test]
fn new_containers_take_over_the_interrupt_of_the_flow() {
    let parse_state = stream("> a");
    let mut tokenizer = with_containers(&parse_state, vec![quote()], 1);
    tokenizer.child.as_mut().unwrap().interrupt = true;
    assert_eq!(container_new_before(&mut tokenizer), State::Retry(StateName::BlockQuoteStart));
    assert!(tokenizer.interrupt);
    assert_eq!(tokenizer.container_stack, vec![quote(), quote()]);

    let mut tokenizer = with_containers(&parse_state, vec![quote()], 1);
    tokenizer.child.as_mut().unwrap().concrete = true;
    assert_eq!(
        container_new_before(&mut tokenizer),
        State::Retry(StateName::DocumentContainersAfter)
    );
    assert_eq!(tokenizer.container_stack, vec![quote()]);
    assert!(tokenizer.attempts.is_empty());

    // Not everything continued: the flow is not asked.
    let mut tokenizer = with_containers(&parse_state, vec![quote()], 0);
    tokenizer.child.as_mut().unwrap().concrete = true;
    tokenizer.child.as_mut().unwrap().interrupt = true;
    assert_eq!(container_new_before(&mut tokenizer), State::Retry(StateName::BlockQuoteStart));
    assert!(!tokenizer.interrupt);
}

#[test]
fn flow_data_is_linked_from_line_to_line() {
    let parse_state = stream("a\nb");
    let mut tokenizer = with_containers(&parse_state, vec![], 0);
    assert_eq!(containers_after(&mut tokenizer), State::Retry(StateName::DocumentFlowInside));
    assert_eq!(tokenizer.data_index, Some(0));
    assert_eq!(tokenizer.events[0].content_type, Some(ContentType::Flow));
    assert_eq!(tokenizer.events[0].previous, None);
    assert!(!tokenizer.child.as_ref().unwrap().lazy);
    assert_eq!(flow_inside(&mut tokenizer), State::Next(StateName::DocumentFlowInside));
    tokenizer.expect(Code::Char('\n'));
    assert_eq!(flow_inside(&mut tokenizer), State::Next(StateName::DocumentFlowEnd));
    assert_eq!(tokenizer.events.len(), 2);
    assert_eq!(tokenizer.events[1].point, Point { line: 2, column: 1, offset: 2 });
    tokenizer.expect(Code::Char('b'));
    assert_eq!(containers_after(&mut tokenizer), State::Retry(StateName::DocumentFlowInside));
    assert_eq!(tokenizer.data_index, Some(2));
    assert_eq!(tokenizer.events[0].next, Some(2));
    assert_eq!(tokenizer.events[2].previous, Some(0));
    assert_eq!(tokenizer.events[2].next, None);
    assert_eq!(flow_inside(&mut tokenizer), State::Next(StateName::DocumentFlowInside));
    tokenizer.expect(Code::End);
    assert_eq!(flow_inside(&mut tokenizer), State::Retry(StateName::DocumentFlowEnd));
    assert_eq!(tokenizer.events.len(), 4);
    assert!(tokenizer.stack.is_empty());
}

#[test]
fn containers_after_at_the_end_opens_no_data() {
    let parse_state = stream("a");
    let mut tokenizer = with_containers(&parse_state, vec![quote()], 0);
    tokenizer.consume(Code::Char('a'));
    tokenizer.expect(Code::End);
    assert_eq!(containers_after(&mut tokenizer), State::Retry(StateName::DocumentFlowEnd));
    assert!(tokenizer.events.is_empty());
    // A container was not continued: the line is lazy.
    assert!(tokenizer.child.as_ref().unwrap().lazy);
}

#[test]
fn exit_containers_puts_the_exits_off() {
    let parse_state = stream("> a");
    let mut tokenizer = with_containers(&parse_state, vec![quote(), item(2), quote()], 1);
    tokenizer.exits.push(None);
    tokenizer.child_state = Some(State::Next(StateName::FlowStart));
    tokenizer.child.as_mut().unwrap().interrupt = true;
    exit_containers(&mut tokenizer, &Mini, Phase::After);
    assert_eq!(tokenizer.container_stack, vec![quote()]);
    assert_eq!(tokenizer.stack, vec![TokenType::BlockQuote]);
    // In this phase the exits belong to the line before.
    let exits = tokenizer.exits[0].as_ref().unwrap();
    assert_eq!(
        exits.iter().map(|event| (event.event_type, event.token_type)).collect::<Vec<_>>(),
        vec![(Exit, TokenType::BlockQuote), (Exit, TokenType::ListItem)]
    );
    assert!(tokenizer.exits[1].is_none());
    assert!(!tokenizer.child.as_ref().unwrap().interrupt);
    // The child was not fed the end.
    assert_eq!(tokenizer.child_state, Some(State::Next(StateName::FlowStart)));

    // Later exits for the same line come after.
    tokenizer.continued = 0;
    exit_containers(&mut tokenizer, &Mini, Phase::After);
    assert_eq!(tokenizer.exits[0].as_ref().unwrap().len(), 3);
    assert_eq!(tokenizer.exits[0].as_ref().unwrap()[2].token_type, TokenType::BlockQuote);
    assert!(tokenizer.stack.is_empty());
    assert!(tokenizer.container_stack.is_empty());
}

#[test]
fn exit_containers_at_the_end_feeds_the_end_to_the_flow() {
    let parse_state = stream("> a");
    let mut tokenizer = with_containers(&parse_state, vec![quote()], 0);
    tokenizer.child_state = Some(State::Next(StateName::FlowStart));
    exit_containers(&mut tokenizer, &Mini, Phase::Eof);
    assert_eq!(tokenizer.child_state, None);
    assert_eq!(tokenizer.exits[0].as_ref().unwrap().len(), 1);
    assert!(tokenizer.container_stack.is_empty());
}

/// Parse the document, and then its text.
fn parse_all(text: &str) -> Vec<Event> {
    let parse_state = stream(text);
    let document = Document { constructs: Mini };
    let mut tokenizer = Tokenizer::new(origin(), 0, &parse_state);
    let to = parse_state.codes.len();
    let state = tokenizer.push(&document, 0, to, State::Next(StateName::DocumentStart));
    tokenizer.flush(&document, state, true);
    let mut events = tokenizer.events;
    let mut runs = 0;
    while subtokenize(&mut events, &parse_state, &document) == Some(false) {
        runs += 1;
        assert!(runs < 100);
    }
    assert_eq!(subtokenize(&mut events, &parse_state, &document), Some(true));
    check_shape(&events);
    events
}

#[test]
fn text_is_tokenized_after_flow() {
    let events = parse_all("> a *b*");
    assert_eq!(
        labels(&events),
        concat(vec![
            vec![(Enter, TokenType::BlockQuote)],
            block_quote_prefix_labels(),
            vec![
                (Enter, TokenType::Paragraph),
                (Enter, TokenType::Data),
                (Exit, TokenType::Data),
                (Enter, TokenType::Emphasis),
                (Enter, TokenType::EmphasisSequence),
                (Exit, TokenType::EmphasisSequence),
                (Enter, TokenType::EmphasisText),
                (Enter, TokenType::Data),
                (Exit, TokenType::Data),
                (Exit, TokenType::EmphasisText),
                (Enter, TokenType::EmphasisSequence),
                (Exit, TokenType::EmphasisSequence),
                (Exit, TokenType::Emphasis),
                (Exit, TokenType::Paragraph),
            ],
            vec![(Exit, TokenType::BlockQuote)],
        ])
    );
    // The text stands where it stands in the document.
    assert_eq!(events[8].point, Point { line: 1, column: 3, offset: 2 });
    assert_eq!(events[10].point, Point { line: 1, column: 5, offset: 4 });
    assert_eq!(events[14].point, Point { line: 1, column: 6, offset: 5 });
    assert_eq!(events[19].point, Point { line: 1, column: 8, offset: 7 });
    assert!(events.iter().all(|event| event.content_type.is_none()));
}

#[test]
fn every_run_of_text_is_tokenized() {
    let events = parse_all("a **b**\n\n> _c_\n> d");
    let emphasis: Vec<(EventType, TokenType, usize)> = events
        .iter()
        .filter(|event| matches!(event.token_type, TokenType::Emphasis | TokenType::Strong))
        .map(|event| (event.event_type, event.token_type, event.point.offset))
        .collect();
    assert_eq!(
        emphasis,
        vec![
            (Enter, TokenType::Strong, 2),
            (Exit, TokenType::Strong, 7),
            (Enter, TokenType::Emphasis, 11),
            (Exit, TokenType::Emphasis, 14),
        ]
    );
    assert!(events.iter().all(|event| event.content_type.is_none()));
    let data: Vec<usize> = events
        .iter()
        .filter(|event| event.token_type == TokenType::Data && event.event_type == Enter)
        .map(|event| event.point.offset)
        .collect();
    assert_eq!(data, vec![0, 4, 12, 17]);
}

#[test]
fn subtokenize_is_done_without_content() {
    let parse_state = stream("a");
    let document = Document { constructs: Mini };
    let mut events: Vec<Event> = vec![];
    assert_eq!(subtokenize(&mut events, &parse_state, &document), Some(true));
    let mut events = parse("> a");
    // Flow is no content for a tokenizer of its own.
    for event in events.iter_mut() {
        if event.content_type.is_some() {
            event.content_type = Some(ContentType::Flow);
        }
    }
    let before = events.clone();
    assert_eq!(subtokenize(&mut events, &parse_state, &document), Some(true));
    assert_eq!(events, before);
}

#[test]
fn attention_in_a_document_obeys_the_rule_of_three() {
    let shape = |text: &str| -> Vec<(EventType, TokenType, usize)> {
        parse_all(text)
            .iter()
            .filter(|event| {
                matches!(
                    event.token_type,
                    TokenType::Emphasis | TokenType::Strong | TokenType::Data
                )
            })
            .map(|event| (event.event_type, event.token_type, event.point.offset))
            .collect()
    };
    assert_eq!(
        shape("a *b** c*"),
        vec![
            (Enter, TokenType::Data, 0),
            (Exit, TokenType::Data, 2),
            (Enter, TokenType::Emphasis, 2),
            (Enter, TokenType::Data, 3),
            (Exit, TokenType::Data, 4),
            (Exit, TokenType::Emphasis, 5),
            (Enter, TokenType::Data, 5),
            (Exit, TokenType::Data, 6),
            (Enter, TokenType::Data, 6),
            (Exit, TokenType::Data, 8),
            (Enter, TokenType::Data, 8),
            (Exit, TokenType::Data, 9),
        ]
    );
    assert_eq!(
        shape("*foo**bar*"),
        vec![
            (Enter, TokenType::Emphasis, 0),
            (Enter, TokenType::Data, 1),
            (Exit, TokenType::Data, 4),
            (Enter, TokenType::Data, 4),
            (Exit, TokenType::Data, 6),
            (Enter, TokenType::Data, 6),
            (Exit, TokenType::Data, 9),
            (Exit, TokenType::Emphasis, 10),
        ]
    );
}

#[test]
fn spans_of_containers_are_looked_for() {
    let stack = vec![TokenType::BlockQuote, TokenType::ListItem, TokenType::Data];
    assert!(has_spans(&stack, &vec![quote(), item(2)], 0));
    assert!(has_spans(&stack, &vec![item(2), quote()], 0));
    assert!(has_spans(&stack, &vec![], 0));
    assert!(has_spans(&stack, &vec![quote(), quote(), item(2)], 1));
    assert!(!has_spans(&stack, &vec![quote(), quote(), item(2)], 0));
    assert!(!has_spans(&vec![], &vec![quote()], 0));
    assert!(has_spans(&vec![], &vec![quote()], 1));
}

#[test]
fn flow_end_fails_without_the_span_of_a_container() {
    let parse_state = stream("a\nb");
    // Not the last line: the containers that were not continued count.
    let mut tokenizer = with_containers(&parse_state, vec![quote(), item(2)], 1);
    tokenizer.stack = vec![TokenType::BlockQuote];
    assert_eq!(flow_end(&mut tokenizer, &Mini), State::Nok);
    assert_eq!(tokenizer.exits.len(), 1);
    assert_eq!(tokenizer.container_stack.len(), 2);
    assert!(tokenizer.child.as_ref().unwrap().events.is_empty());
    tokenizer.stack = vec![TokenType::ListItem];
    tokenizer.child.as_mut().unwrap().lazy = true;
    assert_eq!(
        flow_end(&mut tokenizer, &Mini),
        State::Retry(StateName::DocumentContainerExistingBefore)
    );
    assert_eq!(tokenizer.container_stack, vec![quote()]);
    assert!(tokenizer.stack.is_empty());
    assert_eq!(tokenizer.exits.len(), 2);
    assert_eq!(tokenizer.exits[0].as_ref().unwrap().len(), 1);
    assert_eq!(tokenizer.exits[0].as_ref().unwrap()[0].token_type, TokenType::ListItem);
    assert!(tokenizer.exits[1].is_none());
    assert_eq!(tokenizer.continued, 0);
    // The last line: every container counts.
    tokenizer.current = Code::End;
    assert_eq!(flow_end(&mut tokenizer, &Mini), State::Nok);
    assert_eq!(tokenizer.container_stack, vec![quote()]);
    assert_eq!(tokenizer.exits.len(), 2);
}

#[test]
fn the_document_ends_well_if_its_events_are_sound() {
    let parse_state = stream("a");
    let opened = Event {
        event_type: Enter,
        token_type: TokenType::BlockQuote,
        point: origin(),
        index: 0,
        previous: None,
        next: None,
        content_type: None,
    };
    let closed = Event { event_type: Exit, ..opened };
    // A block quote that was opened is closed at the end.
    let mut tokenizer = with_containers(&parse_state, vec![quote()], 1);
    tokenizer.exits.clear();
    tokenizer.events.push(opened);
    tokenizer.current = Code::End;
    assert_eq!(flow_end(&mut tokenizer, &Mini), State::Okay);
    assert!(tokenizer.container_stack.is_empty());
    assert!(tokenizer.stack.is_empty());
    assert_eq!(tokenizer.exits.len(), 1);
    assert_eq!(tokenizer.events, vec![opened, closed]);
    assert!(tokenizer.is_sound());
    // One that was never opened is closed all the same, and the document
    // fails.
    let mut tokenizer = with_containers(&parse_state, vec![quote()], 1);
    tokenizer.exits.clear();
    tokenizer.current = Code::End;
    assert_eq!(flow_end(&mut tokenizer, &Mini), State::Nok);
    assert!(tokenizer.container_stack.is_empty());
    assert!(tokenizer.stack.is_empty());
    assert_eq!(tokenizer.events, vec![closed]);
    assert!(!tokenizer.is_sound());
    // So it does where the flow left its events out of order.
    let mut tokenizer = with_containers(&parse_state, vec![], 0);
    tokenizer.exits.clear();
    tokenizer.current = Code::End;
    let far = Event {
        token_type: TokenType::Paragraph,
        point: Point { line: 1, column: 9, offset: 8 },
        ..opened
    };
    let near = Event { event_type: Exit, token_type: TokenType::Paragraph, ..opened };
    let data = Event {
        token_type: TokenType::Data,
        content_type: Some(ContentType::Flow),
        ..opened
    };
    tokenizer.events = vec![data, Event { event_type: Exit, token_type: TokenType::Data, ..opened }];
    tokenizer.data_index = Some(0);
    let child = tokenizer.child.as_mut().unwrap();
    child.events = vec![far, near];
    child.consumed = true;
    child.budget = 0;
    assert_eq!(flow_end(&mut tokenizer, &Mini), State::Nok);
    assert_eq!(tokenizer.events, vec![far, near]);
    assert_eq!(tokenizer.data_index, None);
}

#[test]
fn new_container_fails_without_the_span_of_a_container_to_close() {
    let parse_state = stream("> a");
    // A block quote was continued, a list item was not, a block quote is new.
    let mut tokenizer = with_containers(&parse_state, vec![quote(), quote(), item(2)], 1);
    tokenizer.stack = vec![TokenType::BlockQuote, TokenType::BlockQuote];
    assert_eq!(container_new_after(&mut tokenizer, &Mini), State::Nok);
    assert_eq!(tokenizer.container_stack, vec![quote(), quote(), item(2)]);
    assert_eq!(tokenizer.continued, 1);
    tokenizer.stack = vec![TokenType::BlockQuote, TokenType::ListItem, TokenType::BlockQuote];
    tokenizer.interrupt = true;
    assert_eq!(
        container_new_after(&mut tokenizer, &Mini),
        State::Retry(StateName::DocumentContainerNewBefore)
    );
    assert_eq!(tokenizer.container_stack, vec![quote(), quote()]);
    assert_eq!(tokenizer.continued, 2);
    assert_eq!(tokenizer.stack, vec![TokenType::BlockQuote, TokenType::BlockQuote]);
    assert!(!tokenizer.interrupt);
    assert_eq!(tokenizer.exits[0].as_ref().unwrap().len(), 1);
    assert_eq!(tokenizer.exits[0].as_ref().unwrap()[0].token_type, TokenType::ListItem);
}

#[test]
fn the_child_is_fed_up_to_where_the_document_stands() {
    let parse_state = stream("ab\ncd");
    let mut tokenizer = with_containers(&parse_state, vec![], 0);
    tokenizer.consume(Code::Char('a'));
    tokenizer.expect(Code::Char('b'));
    tokenizer.consume(Code::Char('b'));
    tokenizer.expect(Code::Char('\n'));
    feed_child(&mut tokenizer, &Mini);
    let child = tokenizer.child.as_ref().unwrap();
    assert_eq!(child.index, 2);
    assert_eq!(tokenizer.child_state, Some(State::Next(StateName::ParagraphInside)));
    assert_eq!(child.events.len(), 2);
    assert_eq!(tokenizer.exits.len(), 2);
    assert!(tokenizer.exits[1].is_none());
    // Nothing more to feed: only the budget tells that the child was asked.
    let budget = child.budget;
    feed_child(&mut tokenizer, &Mini);
    let child = tokenizer.child.as_ref().unwrap();
    assert_eq!(child.index, 2);
    assert_eq!(child.events.len(), 2);
    assert_eq!(child.budget, budget - 1);
    assert_eq!(tokenizer.child_state, Some(State::Next(StateName::ParagraphInside)));
    // The end closes what the child has open.
    flush_child(&mut tokenizer, &Mini);
    let child = tokenizer.child.as_ref().unwrap();
    assert_eq!(tokenizer.child_state, None);
    assert_eq!(child.events.len(), 4);
    assert!(child.stack.is_empty());
    assert!(!child.drained);
}

#[test]
fn chunks_follow_the_links() {
    let chunk = |index: usize, next: Option<usize>| Event {
        event_type: Enter,
        token_type: TokenType::Data,
        point: origin(),
        index,
        previous: None,
        next,
        content_type: Some(ContentType::Text),
    };
    let end = |index: usize| Event {
        event_type: Exit,
        next: None,
        content_type: None,
        ..chunk(index, None)
    };
    let events = vec![
        chunk(0, Some(4)),
        end(2),
        chunk(9, None),
        end(9),
        chunk(3, Some(6)),
        end(5),
        chunk(6, Some(0)),
    ];
    assert_eq!(chunks(&events, 0), vec![(0, 2), (3, 5), (6, 6)]);
    assert_eq!(chunks(&events, 2), vec![(9, 9)]);
    assert_eq!(chunks(&events, 7), vec![]);
    // A link to the event right after leads nowhere.
    let mut close = events.clone();
    close[0].next = Some(1);
    assert_eq!(chunks(&close, 0), vec![(0, 2)]);
}

#[test]
fn chunks_are_fed_one_after_the_other() {
    let parse_state = stream("ab*cd*");
    let document = Document { constructs: Mini };
    let mut tokenizer = Tokenizer::new(origin(), 0, &parse_state);
    let state = feed_chunks(
        &mut tokenizer,
        &document,
        &vec![(0, 1), (9, 12), (3, 5)],
        State::Next(StateName::TextStart),
    );
    assert_eq!(state, State::Next(DATA_INSIDE));
    assert_eq!(tokenizer.index, 5);
    // `a`, then `c` and `d`, as one run of data that is still open: the
    // second chunk lies beyond the stream.
    assert_eq!(
        tokenizer.events.iter().map(|event| event.index).collect::<Vec<_>>(),
        vec![0]
    );
    assert_eq!(tokenizer.stack, vec![TokenType::Data]);
    assert_eq!(tokenizer.previous, Code::Char('d'));
    assert_eq!(tokenizer.point.offset, 5);
    let mut untouched = Tokenizer::new(origin(), 0, &parse_state);
    let state = feed_chunks(&mut untouched, &document, &vec![], State::Nok);
    assert_eq!(state, State::Nok);
    assert_eq!(untouched.budget, usize::MAX);
}

#[test]
fn a_resolver_that_fails_fails_the_flush() {
    let parse_state = stream("a");
    let document = Document { constructs: Mini };
    let mut tokenizer = Tokenizer::new(origin(), 0, &parse_state);
    tokenizer.register_resolver("broken".to_string());
    tokenizer.register_resolver("paragraph".to_string());
    let state = tokenizer.flush(&document, State::Okay, true);
    assert_eq!(state, State::Nok);
    assert!(tokenizer.drained);
    // The resolvers after it did not run.
    assert_eq!(tokenizer.resolvers, vec!["paragraph".to_string()]);
    // Without resolvers to run nothing happens but the step.
    let mut tokenizer = Tokenizer::new(origin(), 0, &parse_state);
    let state = tokenizer.flush(&document, State::Okay, true);
    assert_eq!(state, State::Okay);
    assert_eq!(tokenizer.budget, usize::MAX - 1);
    assert!(tokenizer.events.is_empty());
}

#[test]
fn a_run_that_does_not_end_well_leaves_the_events() {
    let parse_state = stream("*a*");
    let document = Document { constructs: Mini };
    let mut events = vec![
        Event {
            event_type: Enter,
            token_type: TokenType::Data,
            point: origin(),
            index: 0,
            previous: None,
            next: None,
            content_type: Some(ContentType::String),
        },
        Event {
            event_type: Exit,
            token_type: TokenType::Data,
            point: Point { line: 1, column: 4, offset: 3 },
            index: 3,
            previous: None,
            next: None,
            content_type: None,
        },
    ];
    let before = events.clone();
    // The constructs at hand know no string.
    assert_eq!(subtokenize(&mut events, &parse_state, &document), None);
    assert_eq!(events, before);
}

#[test]
fn the_child_starts_afresh_after_the_end_of_the_flow() {
    let parse_state = stream("ab\ncd");
    let mut tokenizer = with_containers(&parse_state, vec![], 0);
    tokenizer.consume(Code::Char('a'));
    tokenizer.expect(Code::Char('b'));
    tokenizer.consume(Code::Char('b'));
    tokenizer.expect(Code::Char('\n'));
    feed_child(&mut tokenizer, &Mini);
    assert_eq!(tokenizer.child_state, Some(State::Next(StateName::ParagraphInside)));
    // A budget that runs out in the middle of the end: one step, to find
    // that the paragraph is over, and none to start again.
    tokenizer.child.as_mut().unwrap().budget = 1;
    flush_child(&mut tokenizer, &Mini);
    let child = tokenizer.child.as_ref().unwrap();
    assert_eq!(tokenizer.child_state, None);
    assert_eq!(child.budget, 0);
    assert!(child.consumed);
    assert!(!child.drained);
    assert!(child.resolved.is_empty());
    // A child without budget stays as it is.
    let events = child.events.clone();
    flush_child(&mut tokenizer, &Mini);
    let child = tokenizer.child.as_ref().unwrap();
    assert_eq!(tokenizer.child_state, None);
    assert_eq!(child.events, events);
    assert_eq!(child.budget, 0);
}

#[test]
fn documents_end_with_sound_events() {
    for text in ["", "a", "> a\nb", "> a\n\nb", "* a\n  b\n> c", "> * a\n> b\nc\n", "\u{feff}> a\r\n"] {
        let parse_state = stream(text);
        let document = Document { constructs: Mini };
        let mut tokenizer = Tokenizer::new(origin(), 0, &parse_state);
        let to = parse_state.codes.len();
        let state = tokenizer.push(&document, 0, to, State::Next(StateName::DocumentStart));
        let state = tokenizer.flush(&document, state, true);
        assert_eq!(state, State::Okay, "{:?}", text);
        assert!(tokenizer.is_sound(), "{:?}", text);
        assert!(tokenizer.stack.is_empty(), "{:?}", text);
        assert!(is_well_nested(&tokenizer.events), "{:?}", text);
        for pair in tokenizer.events.windows(2) {
            assert!(pair[0].point.offset <= pair[1].point.offset, "{:?}", text);
        }
        assert!(tokenizer.resolvers.is_empty());
        assert_eq!(tokenizer.resolved.len(), tokenizer.resolver_ids.len());
    }
}

#[test]
fn a_flow_that_closes_its_paragraph_late_fails_the_document() {
    let parse_state = stream("> a\nb");
    let at = |event_type: EventType, token_type: TokenType, index: usize| Event {
        event_type,
        token_type,
        point: Point { line: 1, column: index + 1, offset: index },
        index,
        previous: None,
        next: None,
        content_type: None,
    };
    let build = |flow: Vec<Event>| {
        let mut tokenizer = Tokenizer::new(origin(), 0, &parse_state);
        tokenizer.child = Some(Box::new(Tokenizer::new(origin(), 0, &parse_state)));
        tokenizer.events = vec![
            at(Enter, TokenType::BlockQuote, 0),
            Event { content_type: Some(ContentType::Flow), ..at(Enter, TokenType::Data, 2) },
            at(Exit, TokenType::Data, 5),
        ];
        tokenizer.data_index = Some(1);
        // The block quote was closed when the second line began.
        tokenizer.exits = vec![Some(vec![at(Exit, TokenType::BlockQuote, 4)])];
        tokenizer.index = 5;
        tokenizer.point = Point { line: 2, column: 2, offset: 5 };
        tokenizer.consumed = false;
        tokenizer.current = Code::End;
        let child = tokenizer.child.as_mut().unwrap();
        child.events = flow;
        child.index = 5;
        child.point = Point { line: 2, column: 2, offset: 5 };
        child.budget = 0;
        tokenizer
    };
    // The paragraph ends before the line ending: the exit of the block
    // quote comes after it.
    let mut tokenizer = build(vec![
        at(Enter, TokenType::Paragraph, 2),
        at(Exit, TokenType::Paragraph, 3),
        at(Enter, TokenType::LineEnding, 3),
        at(Exit, TokenType::LineEnding, 4),
        at(Enter, TokenType::Paragraph, 4),
        at(Exit, TokenType::Paragraph, 5),
    ]);
    assert_eq!(flow_end(&mut tokenizer, &Mini), State::Okay);
    assert_eq!(
        labels(&tokenizer.events),
        vec![
            (Enter, TokenType::BlockQuote),
            (Enter, TokenType::Paragraph),
            (Exit, TokenType::Paragraph),
            (Exit, TokenType::BlockQuote),
            (Enter, TokenType::LineEnding),
            (Exit, TokenType::LineEnding),
            (Enter, TokenType::Paragraph),
            (Exit, TokenType::Paragraph),
        ]
    );
    assert_eq!(tokenizer.events[3].point.offset, 3);
    check_shape(&tokenizer.events);
    // The paragraph goes on over the line ending: the exit of the block
    // quote lands inside it.
    let mut tokenizer = build(vec![
        at(Enter, TokenType::Paragraph, 2),
        at(Enter, TokenType::LineEnding, 3),
        at(Exit, TokenType::LineEnding, 4),
        at(Exit, TokenType::Paragraph, 5),
    ]);
    assert_eq!(flow_end(&mut tokenizer, &Mini), State::Nok);
    assert_eq!(
        labels(&tokenizer.events),
        vec![
            (Enter, TokenType::BlockQuote),
            (Enter, TokenType::Paragraph),
            (Exit, TokenType::BlockQuote),
            (Enter, TokenType::LineEnding),
            (Exit, TokenType::LineEnding),
            (Exit, TokenType::Paragraph),
        ]
    );
    assert!(!is_well_nested(&tokenizer.events));
}
