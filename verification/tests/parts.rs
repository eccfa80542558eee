use micromark::construct::document::{add_exits, bom_start, ends_in_paragraph, resolve};
use micromark::event::{is_well_nested, ContentType, Event, EventType, Point};
use micromark::parser::{infer_line_ending, parse_codes, Code, LineEnding, ParseState};
use micromark::state::{State, StateName};
use micromark::subtokenize::{divide_events, relink};
use micromark::token::TokenType;
use micromark::tokenizer::Tokenizer;
use micromark::util::skip::{opt, opt_back, skip_opt_with_direction, to};

use EventType::{Enter, Exit};

fn codes(text: &str) -> Vec<Code> {
    let chars: Vec<char> = text.chars().collect();
    parse_codes(&chars)
}

fn at(event_type: EventType, token_type: TokenType, index: usize) -> Event {
    Event {
        event_type,
        token_type,
        point: Point { line: 1, column: index + 1, offset: index },
        index,
        previous: None,
        next: None,
        content_type: None,
    }
}

fn labels(events: &[Event]) -> Vec<(EventType, TokenType)> {
    events.iter().map(|event| (event.event_type, event.token_type)).collect()
}

#[test]
fn parse_codes_keeps_plain_characters() {
    assert_eq!(codes("ab"), vec![Code::Char('a'), Code::Char('b')]);
    assert_eq!(codes(""), vec![]);
}

#[test]
fn parse_codes_pairs_carriage_return_and_line_feed() {
    assert_eq!(
        codes("a\r\nb\rc\nd\n\r"),
        vec![
            Code::Char('a'),
            Code::CarriageReturnLineFeed,
            Code::Char('b'),
            Code::Char('\r'),
            Code::Char('c'),
            Code::Char('\n'),
            Code::Char('d'),
            Code::Char('\n'),
            Code::Char('\r'),
        ]
    );
}

#[test]
fn parse_codes_pads_tabs_up_to_the_tab_stop() {
    let vs = Code::VirtualSpace;
    let tab = Code::Char('\t');
    let a = Code::Char('a');
    // A tab in column 1 takes four columns, in column 4 one.
    assert_eq!(codes("\t"), vec![vs, vs, vs, tab]);
    assert_eq!(codes("a\t"), vec![a, vs, vs, tab]);
    assert_eq!(codes("aa\t"), vec![a, a, vs, tab]);
    assert_eq!(codes("aaa\t"), vec![a, a, a, tab]);
    assert_eq!(codes("aaaa\t"), vec![a, a, a, a, vs, vs, vs, tab]);
    // After a tab and after a line ending a tab stop begins.
    assert_eq!(codes("a\t\t"), vec![a, vs, vs, tab, vs, vs, vs, tab]);
    assert_eq!(codes("aa\n\t"), vec![a, a, Code::Char('\n'), vs, vs, vs, tab]);
}

#[test]
fn parse_state_refuses_the_end_as_a_code() {
    assert!(ParseState::new(vec![Code::Char('a'), Code::End]).is_none());
    assert!(ParseState::new(vec![Code::End]).is_none());
    assert!(ParseState::new(vec![]).is_some());
    let parse_state = ParseState::new(vec![Code::Char('a'), Code::VirtualSpace]).unwrap();
    assert_eq!(parse_state.codes, vec![Code::Char('a'), Code::VirtualSpace]);
}

#[test]
fn code_sizes() {
    assert_eq!(Code::Char('a').size(), 1);
    assert_eq!(Code::Char('\n').size(), 1);
    assert_eq!(Code::CarriageReturnLineFeed.size(), 2);
    assert_eq!(Code::VirtualSpace.size(), 0);
    assert_eq!(Code::End.size(), 0);
    assert!(Code::CarriageReturnLineFeed.ends_line());
    assert!(Code::Char('\r').ends_line());
    assert!(Code::Char('\n').ends_line());
    assert!(!Code::Char('a').ends_line());
    assert!(!Code::End.ends_line());
}

#[test]
fn line_ending_is_inferred_from_the_first_in_the_input() {
    assert_eq!(infer_line_ending(&codes("> a"), None), LineEnding::LineFeed);
    assert_eq!(infer_line_ending(&codes("> a\n"), None), LineEnding::LineFeed);
    assert_eq!(infer_line_ending(&codes("> a\r"), None), LineEnding::CarriageReturn);
    assert_eq!(infer_line_ending(&codes("> a\r\n"), None), LineEnding::CarriageReturnLineFeed);
    assert_eq!(
        infer_line_ending(&codes("a\r\nb\nc\r"), None),
        LineEnding::CarriageReturnLineFeed
    );
    assert_eq!(infer_line_ending(&codes("a\rb\r\n"), None), LineEnding::CarriageReturn);
}

#[test]
fn given_line_ending_is_used_when_the_input_has_none() {
    assert_eq!(
        infer_line_ending(&codes("> a"), Some(LineEnding::CarriageReturn)),
        LineEnding::CarriageReturn
    );
    assert_eq!(
        infer_line_ending(&codes(""), Some(LineEnding::CarriageReturnLineFeed)),
        LineEnding::CarriageReturnLineFeed
    );
    // Line endings in the input win over the given one.
    assert_eq!(
        infer_line_ending(&codes("> a\n"), Some(LineEnding::CarriageReturn)),
        LineEnding::LineFeed
    );
}

#[test]
fn well_nested_events_are_told_apart() {
    let paragraph = TokenType::Paragraph;
    let data = TokenType::Data;
    assert!(is_well_nested(&vec![]));
    assert!(is_well_nested(&vec![
        at(Enter, paragraph, 0),
        at(Enter, data, 0),
        at(Exit, data, 1),
        at(Exit, paragraph, 1),
    ]));
    // An exit that does not match the span opened last.
    assert!(!is_well_nested(&vec![
        at(Enter, paragraph, 0),
        at(Enter, data, 0),
        at(Exit, paragraph, 1),
        at(Exit, data, 1),
    ]));
    // An exit with nothing open.
    assert!(!is_well_nested(&vec![at(Exit, data, 1)]));
    // A span that stays open.
    assert!(!is_well_nested(&vec![at(Enter, paragraph, 0)]));
    // Nesting is by name only.
    assert!(is_well_nested(&vec![
        at(Enter, data, 0),
        at(Enter, data, 0),
        at(Exit, data, 1),
        at(Exit, data, 1),
    ]));
}

fn sample() -> Vec<Event> {
    vec![
        at(Enter, TokenType::Paragraph, 0),
        at(Exit, TokenType::Paragraph, 1),
        at(Enter, TokenType::LineEnding, 1),
        at(Exit, TokenType::LineEnding, 2),
        at(Enter, TokenType::SpaceOrTab, 2),
        at(Exit, TokenType::SpaceOrTab, 3),
        at(Enter, TokenType::Paragraph, 3),
        at(Exit, TokenType::Paragraph, 4),
    ]
}

#[test]
fn opt_skips_whole_spans_forward() {
    let events = sample();
    let both = [TokenType::LineEnding, TokenType::SpaceOrTab];
    assert_eq!(opt(&events, 2, &both), 6);
    assert_eq!(opt(&events, 2, &[TokenType::LineEnding]), 4);
    // Nothing to skip.
    assert_eq!(opt(&events, 2, &[TokenType::SpaceOrTab]), 2);
    assert_eq!(opt(&events, 0, &both), 0);
    assert_eq!(opt(&events, 2, &[]), 2);
    // From beyond the end.
    assert_eq!(opt(&events, 8, &both), 8);
    assert_eq!(opt(&events, 11, &both), 11);
    // Up to the end.
    assert_eq!(opt(&events, 6, &[TokenType::Paragraph]), 8);
    assert_eq!(opt(&events, 0, &[TokenType::Paragraph]), 2);
}

#[test]
fn opt_back_skips_whole_spans_backward() {
    let events = sample();
    let both = [TokenType::LineEnding, TokenType::SpaceOrTab];
    assert_eq!(opt_back(&events, 5, &both), 1);
    assert_eq!(opt_back(&events, 5, &[TokenType::SpaceOrTab]), 3);
    assert_eq!(opt_back(&events, 5, &[TokenType::LineEnding]), 5);
    assert_eq!(opt_back(&events, 7, &[TokenType::Paragraph]), 5);
    assert_eq!(opt_back(&events, 7, &[]), 7);
    assert_eq!(opt_back(&events, 9, &both), 9);
}

#[test]
fn skipping_off_the_list_is_told() {
    let events = sample();
    let both = [TokenType::LineEnding, TokenType::SpaceOrTab];
    assert_eq!(skip_opt_with_direction(&events, 2, &both, true), Some(6));
    assert_eq!(skip_opt_with_direction(&events, 5, &both, false), Some(1));
    // Backwards, nothing lies before the first span.
    assert_eq!(skip_opt_with_direction(&events, 1, &[TokenType::Paragraph], false), None);
    // A span without its other end.
    let open = vec![at(Enter, TokenType::Paragraph, 0), at(Enter, TokenType::LineEnding, 1)];
    assert_eq!(skip_opt_with_direction(&open, 1, &[TokenType::LineEnding], true), None);
    assert_eq!(skip_opt_with_direction(&open, 1, &[TokenType::LineEnding], false), None);
    assert_eq!(skip_opt_with_direction(&open, 0, &[TokenType::LineEnding], true), Some(0));
}

#[test]
fn paragraph_at_the_end_of_flow_is_seen() {
    let paragraph = vec![at(Enter, TokenType::Paragraph, 0), at(Exit, TokenType::Paragraph, 1)];
    let flow = State::Next(StateName::FlowStart);
    assert!(ends_in_paragraph(&paragraph, flow));
    assert!(ends_in_paragraph(&sample(), flow));
    let mut ended = paragraph.clone();
    ended.push(at(Enter, TokenType::LineEnding, 1));
    ended.push(at(Exit, TokenType::LineEnding, 2));
    assert!(ends_in_paragraph(&ended, flow));
    ended.push(at(Enter, TokenType::BlankLineEnding, 2));
    ended.push(at(Exit, TokenType::BlankLineEnding, 3));
    assert!(!ends_in_paragraph(&ended, flow));
    assert!(!ends_in_paragraph(&vec![], flow));
    // Only line endings: nothing lies before them.
    let endings = vec![at(Enter, TokenType::LineEnding, 1), at(Exit, TokenType::LineEnding, 2)];
    assert!(!ends_in_paragraph(&endings, flow));
    // The state says so by itself.
    assert!(ends_in_paragraph(&vec![], State::Next(StateName::ParagraphInside)));
    assert!(ends_in_paragraph(&endings, State::Next(StateName::ParagraphInside)));
    assert!(!ends_in_paragraph(&endings, State::Retry(StateName::ParagraphInside)));
}

fn data(event_type: EventType, index: usize, next: Option<usize>) -> Event {
    Event {
        content_type: if event_type == Enter { Some(ContentType::Flow) } else { None },
        next,
        ..at(event_type, TokenType::Data, index)
    }
}

#[test]
fn divide_events_replaces_data_by_its_chunk() {
    let parent = vec![
        at(Enter, TokenType::BlockQuote, 0),
        data(Enter, 2, Some(4)),
        data(Exit, 4, None),
        at(Enter, TokenType::BlockQuotePrefix, 4),
        data(Enter, 6, None),
        data(Exit, 8, None),
    ];
    let child = vec![
        at(Enter, TokenType::Paragraph, 2),
        at(Exit, TokenType::Paragraph, 3),
        at(Enter, TokenType::LineEnding, 3),
        at(Exit, TokenType::LineEnding, 4),
        at(Enter, TokenType::Paragraph, 6),
        at(Exit, TokenType::Paragraph, 8),
    ];
    let merged = divide_events(&parent, 1, &child);
    let mut expected = vec![parent[0]];
    expected.extend_from_slice(&child[0..4]);
    expected.push(parent[3]);
    expected.extend_from_slice(&child[4..6]);
    assert_eq!(merged, expected);
}

#[test]
fn divide_events_gives_the_last_span_all_that_is_left() {
    let parent = vec![data(Enter, 0, None), data(Exit, 1, None), at(Enter, TokenType::BlockQuote, 1)];
    let child = vec![
        at(Enter, TokenType::Paragraph, 0),
        at(Exit, TokenType::Paragraph, 1),
        at(Enter, TokenType::LineEnding, 5),
        at(Exit, TokenType::LineEnding, 6),
    ];
    let merged = divide_events(&parent, 0, &child);
    let mut expected = child.clone();
    expected.push(parent[2]);
    assert_eq!(merged, expected);
    // Without a chain nothing of the child is placed.
    assert_eq!(divide_events(&vec![parent[2]], 1, &child), vec![parent[2]]);
    assert_eq!(divide_events(&parent, 3, &child), parent);
    // Without a child the spans go all the same.
    assert_eq!(divide_events(&parent, 0, &vec![]), vec![parent[2]]);
}

#[test]
fn divide_events_follows_the_chain_only() {
    // Two chains: the spans at 0 and 4, and the span at 2.
    let parent = vec![
        data(Enter, 0, Some(4)),
        data(Exit, 2, None),
        data(Enter, 2, None),
        data(Exit, 3, None),
        data(Enter, 3, None),
        data(Exit, 5, None),
    ];
    let child = vec![
        at(Enter, TokenType::Paragraph, 0),
        at(Exit, TokenType::Paragraph, 2),
        at(Enter, TokenType::Paragraph, 3),
        at(Exit, TokenType::Paragraph, 5),
    ];
    assert_eq!(
        divide_events(&parent, 0, &child),
        vec![child[0], child[1], parent[2], parent[3], child[2], child[3]]
    );
    // A link that leads back ends the chain.
    let mut looped = parent.clone();
    looped[4].next = Some(0);
    looped[0].next = Some(4);
    assert_eq!(
        divide_events(&looped, 0, &child),
        vec![child[0], child[1], parent[2], parent[3], child[2], child[3]]
    );
}

#[test]
fn to_finds_the_first_event_of_a_type() {
    let events = sample();
    assert_eq!(to(&events, 0, &[TokenType::LineEnding]), 2);
    assert_eq!(to(&events, 3, &[TokenType::LineEnding]), 3);
    assert_eq!(to(&events, 4, &[TokenType::LineEnding]), 8);
    assert_eq!(to(&events, 1, &[TokenType::SpaceOrTab, TokenType::Paragraph]), 1);
    assert_eq!(to(&events, 2, &[TokenType::SpaceOrTab, TokenType::Paragraph]), 4);
    assert_eq!(to(&events, 0, &[]), 8);
    assert_eq!(to(&events, 20, &[TokenType::Paragraph]), 8);
    assert_eq!(to(&[], 0, &[TokenType::Paragraph]), 0);
}

#[test]
fn divide_events_moves_the_links_of_the_child() {
    let parent = vec![
        at(Enter, TokenType::BlockQuote, 0),
        at(Exit, TokenType::BlockQuote, 0),
        data(Enter, 2, Some(5)),
        data(Exit, 4, None),
        at(Enter, TokenType::BlockQuotePrefix, 4),
        data(Enter, 6, None),
        data(Exit, 8, None),
    ];
    let text = |index: usize, previous: Option<usize>, next: Option<usize>| Event {
        content_type: Some(ContentType::Text),
        previous,
        next,
        ..at(Enter, TokenType::Data, index)
    };
    let child = vec![
        text(2, None, Some(2)),
        at(Exit, TokenType::Data, 3),
        text(6, Some(0), None),
        at(Exit, TokenType::Data, 8),
    ];
    let merged = divide_events(&parent, 2, &child);
    assert_eq!(merged.len(), 7);
    // The chunks stand at 2 and 5 now.
    assert_eq!(merged[2], text(2, None, Some(5)));
    assert_eq!(merged[5], text(6, Some(2), None));
    assert_eq!(merged[4], parent[4]);
    assert_eq!(merged[3], child[1]);
}

#[test]
fn relink_moves_links_of_placed_events_only() {
    let linked = |previous: Option<usize>, next: Option<usize>| Event {
        previous,
        next,
        ..at(Enter, TokenType::Data, 0)
    };
    let mut events = vec![linked(Some(1), None), linked(None, Some(1)), linked(Some(0), Some(7))];
    // The events that stood at 0 and 1 stand at 1 and 2 now.
    relink(&mut events, &vec![1, 2], &vec![]);
    assert_eq!(
        events,
        vec![linked(Some(1), None), linked(None, Some(2)), linked(Some(1), Some(7))]
    );
    // The first event is none of them: what it links to stands at 5 now.
    relink(&mut events, &vec![1, 2], &vec![4, 5]);
    assert_eq!(
        events,
        vec![linked(Some(5), None), linked(None, Some(2)), linked(Some(2), Some(7))]
    );
}

#[test]
fn divide_events_moves_the_links_of_the_parent() {
    let linked = |index: usize, previous: Option<usize>, next: Option<usize>| Event {
        content_type: Some(ContentType::String),
        previous,
        next,
        ..at(Enter, TokenType::Data, index)
    };
    // A run of one chunk, and after it a run of two.
    let parent = vec![
        linked(0, None, None),
        at(Exit, TokenType::Data, 1),
        linked(1, None, Some(4)),
        at(Exit, TokenType::Data, 2),
        linked(2, Some(2), None),
        at(Exit, TokenType::Data, 3),
    ];
    let child = vec![
        at(Enter, TokenType::Paragraph, 0),
        at(Enter, TokenType::Data, 0),
        at(Exit, TokenType::Data, 1),
        at(Exit, TokenType::Paragraph, 1),
    ];
    let merged = divide_events(&parent, 0, &child);
    assert_eq!(merged.len(), 8);
    assert_eq!(&merged[0..4], &child[..]);
    assert_eq!(merged[4], linked(1, None, Some(6)));
    assert_eq!(merged[6], linked(2, Some(4), None));
}

#[test]
fn add_exits_places_the_exits_before_the_line_ending_of_their_line() {
    let flow = vec![
        at(Enter, TokenType::Paragraph, 2),
        at(Exit, TokenType::Paragraph, 3),
        at(Enter, TokenType::LineEnding, 3),
        at(Exit, TokenType::LineEnding, 4),
        at(Enter, TokenType::Paragraph, 4),
        at(Exit, TokenType::Paragraph, 5),
        at(Enter, TokenType::BlankLineEnding, 5),
        at(Exit, TokenType::BlankLineEnding, 6),
    ];
    let exit_quote = at(Exit, TokenType::BlockQuote, 9);
    let exit_item = at(Exit, TokenType::ListItem, 9);
    let exits = vec![None, Some(vec![exit_item, exit_quote]), Some(vec![exit_quote])];
    let (events, lines) = add_exits(&flow, &exits);
    assert_eq!(lines, 2);
    assert_eq!(
        labels(&events),
        vec![
            (Enter, TokenType::Paragraph),
            (Exit, TokenType::Paragraph),
            (Enter, TokenType::LineEnding),
            (Exit, TokenType::LineEnding),
            (Enter, TokenType::Paragraph),
            (Exit, TokenType::Paragraph),
            (Exit, TokenType::ListItem),
            (Exit, TokenType::BlockQuote),
            (Enter, TokenType::BlankLineEnding),
            (Exit, TokenType::BlankLineEnding),
        ]
    );
    // The exits stand where the line ending starts.
    assert_eq!(events[6].point, flow[6].point);
    assert_eq!(events[6].index, 5);
    assert_eq!(events[7].point, flow[6].point);
    // Without exits nothing changes.
    assert_eq!(add_exits(&flow, &vec![]), (flow.clone(), 2));
    assert_eq!(add_exits(&vec![], &exits), (vec![], 0));
}

#[test]
fn add_exits_moves_links_past_the_exits() {
    let text = |index: usize, previous: Option<usize>, next: Option<usize>| Event {
        content_type: Some(ContentType::Text),
        previous,
        next,
        ..at(Enter, TokenType::Data, index)
    };
    let flow = vec![
        text(0, None, Some(4)),
        at(Exit, TokenType::Data, 1),
        at(Enter, TokenType::LineEnding, 1),
        at(Exit, TokenType::LineEnding, 2),
        text(2, Some(0), None),
        at(Exit, TokenType::Data, 3),
    ];
    let exits = vec![Some(vec![at(Exit, TokenType::BlockQuote, 9)])];
    let (events, lines) = add_exits(&flow, &exits);
    assert_eq!(lines, 1);
    assert_eq!(events.len(), 7);
    assert_eq!(events[0], text(0, None, Some(5)));
    assert_eq!(events[2].token_type, TokenType::BlockQuote);
    assert_eq!(events[5], text(2, Some(0), None));
}

#[test]
fn resolve_puts_everything_together() {
    let parse_state = ParseState::new(codes("> a\nb")).unwrap();
    let origin = Point { line: 1, column: 1, offset: 0 };
    let mut tokenizer = Tokenizer::new(origin, 0, &parse_state);
    let mut child = Tokenizer::new(origin, 0, &parse_state);
    child.events = vec![
        at(Enter, TokenType::Paragraph, 2),
        at(Exit, TokenType::Paragraph, 3),
        at(Enter, TokenType::LineEnding, 3),
        at(Exit, TokenType::LineEnding, 4),
        at(Enter, TokenType::Paragraph, 4),
        at(Exit, TokenType::Paragraph, 5),
    ];
    child.resolvers = vec!["paragraph".to_string(), "attention".to_string()];
    child.definitions = vec!["a".to_string(), "b".to_string(), "a".to_string()];
    tokenizer.child = Some(Box::new(child));
    tokenizer.events = vec![
        at(Enter, TokenType::BlockQuote, 0),
        data(Enter, 2, Some(3)),
        data(Exit, 4, None),
        data(Enter, 4, None),
        data(Exit, 5, None),
    ];
    tokenizer.events[3].previous = Some(1);
    tokenizer.data_index = Some(3);
    tokenizer.exits = vec![Some(vec![at(Exit, TokenType::BlockQuote, 5)]), Some(vec![at(Exit, TokenType::ListItem, 5)])];
    tokenizer.resolver_ids = vec!["attention".to_string()];
    tokenizer.resolvers = vec!["attention".to_string()];
    tokenizer.definitions = vec!["b".to_string()];
    tokenizer.point = Point { line: 2, column: 2, offset: 5 };
    tokenizer.index = 5;

    resolve(&mut tokenizer);

    assert_eq!(
        labels(&tokenizer.events),
        vec![
            (Enter, TokenType::BlockQuote),
            (Enter, TokenType::Paragraph),
            (Exit, TokenType::Paragraph),
            (Exit, TokenType::BlockQuote),
            (Enter, TokenType::LineEnding),
            (Exit, TokenType::LineEnding),
            (Enter, TokenType::Paragraph),
            (Exit, TokenType::Paragraph),
            (Exit, TokenType::ListItem),
        ]
    );
    // The exit in the flow stands at the line ending, the last one where
    // the document stands.
    assert_eq!(tokenizer.events[3].point, Point { line: 1, column: 4, offset: 3 });
    assert_eq!(tokenizer.events[8].point, Point { line: 2, column: 2, offset: 5 });
    assert_eq!(tokenizer.data_index, None);
    // What the document had comes first; of the rest each id once.
    assert_eq!(tokenizer.resolver_ids, vec!["attention".to_string(), "paragraph".to_string()]);
    assert_eq!(tokenizer.resolvers, vec!["attention".to_string(), "paragraph".to_string()]);
    // The definitions of the child come after, all of them.
    assert_eq!(
        tokenizer.definitions,
        vec!["b".to_string(), "a".to_string(), "b".to_string(), "a".to_string()]
    );
    // The child is done with.
    let child = tokenizer.child.as_ref().unwrap();
    assert!(child.resolvers.is_empty());
    assert!(child.definitions.is_empty());
    assert!(child.attempts.is_empty());
    assert_eq!(child.events.len(), 6);
}

#[test]
fn bom_start_takes_only_the_mark() {
    let parse_state = ParseState::new(codes("\u{feff}a")).unwrap();
    let origin = Point { line: 1, column: 1, offset: 0 };
    let mut tokenizer = Tokenizer::new(origin, 0, &parse_state);
    tokenizer.expect(Code::Char('\u{feff}'));
    assert_eq!(bom_start(&mut tokenizer), State::Okay);
    assert_eq!(tokenizer.index, 1);
    assert!(tokenizer.consumed);
    assert!(tokenizer.events.is_empty());
    tokenizer.expect(Code::Char('a'));
    assert_eq!(bom_start(&mut tokenizer), State::Nok);
    assert_eq!(tokenizer.index, 1);
    assert!(!tokenizer.consumed);
}

#[test]
fn move_to_passes_codes_without_feeding_them() {
    let parse_state = ParseState::new(codes("a\r\nbc")).unwrap();
    let origin = Point { line: 1, column: 1, offset: 0 };
    let mut tokenizer = Tokenizer::new(origin, 0, &parse_state);
    tokenizer.move_to(3);
    assert_eq!(tokenizer.index, 3);
    assert_eq!(tokenizer.point, Point { line: 2, column: 2, offset: 4 });
    assert!(tokenizer.events.is_empty());
    assert!(tokenizer.consumed);
    // Never backwards.
    tokenizer.move_to(1);
    assert_eq!(tokenizer.index, 3);
}

#[test]
fn state_names_of_the_document_are_told_apart() {
    assert!(StateName::DocumentStart.in_document());
    assert!(StateName::DocumentFlowEnd.in_document());
    assert!(StateName::DocumentContainerNewAfter.in_document());
    assert!(!StateName::BomStart.in_document());
    assert!(!StateName::FlowStart.in_document());
    assert!(!StateName::Construct(0).in_document());
}

#[test]
fn points_are_found_by_index() {
    let parse_state = ParseState::new(codes("a\r\n\tb")).unwrap();
    // `a`, the line ending, three virtual spaces, the tab, `b`.
    assert_eq!(parse_state.codes.len(), 7);
    assert_eq!(parse_state.point_at(0), Some(Point { line: 1, column: 1, offset: 0 }));
    assert_eq!(parse_state.point_at(1), Some(Point { line: 1, column: 2, offset: 1 }));
    assert_eq!(parse_state.point_at(2), Some(Point { line: 2, column: 1, offset: 3 }));
    assert_eq!(parse_state.point_at(5), Some(Point { line: 2, column: 1, offset: 3 }));
    assert_eq!(parse_state.point_at(6), Some(Point { line: 2, column: 2, offset: 4 }));
    assert_eq!(parse_state.point_at(7), Some(Point { line: 2, column: 3, offset: 5 }));
    assert_eq!(parse_state.point_at(8), None);
}

#[test]
fn exits_in_place_keep_the_offsets_rising() {
    let flow = vec![
        at(Enter, TokenType::Paragraph, 0),
        at(Exit, TokenType::Paragraph, 1),
        at(Enter, TokenType::LineEnding, 1),
        at(Exit, TokenType::LineEnding, 2),
        at(Enter, TokenType::BlankLineEnding, 2),
        at(Exit, TokenType::BlankLineEnding, 3),
        at(Enter, TokenType::Paragraph, 7),
        at(Exit, TokenType::Paragraph, 9),
    ];
    // Wherever the exits were recorded, they stand at their line ending.
    let exits = vec![
        Some(vec![at(Exit, TokenType::ListItem, 40)]),
        Some(vec![at(Exit, TokenType::BlockQuote, 0), at(Exit, TokenType::BlockQuote, 50)]),
        Some(vec![at(Exit, TokenType::ListItem, 60)]),
    ];
    let (events, lines) = add_exits(&flow, &exits);
    assert_eq!(lines, 2);
    assert_eq!(
        events.iter().map(|event| event.point.offset).collect::<Vec<_>>(),
        vec![0, 1, 1, 1, 2, 2, 2, 2, 3, 7, 9]
    );
    for pair in events.windows(2) {
        assert!(pair[0].point.offset <= pair[1].point.offset);
    }
}
