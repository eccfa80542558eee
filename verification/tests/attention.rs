use micromark::construct::attention::{
    classify_character, find_opener, flank, get_sequences, is_ruled_out, match_sequences, pair,
    resolve, GroupKind, MarkerKind, Sequence,
};
use micromark::construct::resolve_known;
use micromark::event::{is_well_nested, ContentType, Event, EventType, Point};
use micromark::parser::{parse_codes, Code, ParseState};
use micromark::token::TokenType;
use micromark::tokenizer::Tokenizer;

use EventType::{Enter, Exit};
use GroupKind::{Other, Punctuation, Whitespace};
use MarkerKind::{Asterisk, Underscore};

fn place(index: usize) -> Point {
    Point { line: 1, column: index + 1, offset: index }
}

fn span(token_type: TokenType, from: usize, to: usize) -> Vec<Event> {
    let event = |event_type, index| Event {
        event_type,
        token_type,
        point: place(index),
        index,
        previous: None,
        next: None,
        content_type: None,
    };
    vec![event(Enter, from), event(Exit, to)]
}

/// Label runs of `*` and `_` as attention sequences and the rest as data.
fn scan(text: &str) -> Vec<Event> {
    let chars: Vec<char> = text.chars().collect();
    let mut events = vec![];
    let mut index = 0;
    while index < chars.len() {
        let marker = chars[index] == '*' || chars[index] == '_';
        let mut end = index + 1;
        while end < chars.len()
            && (if marker {
                chars[end] == chars[index]
            } else {
                chars[end] != '*' && chars[end] != '_'
            })
        {
            end += 1;
        }
        let token_type = if marker { TokenType::AttentionSequence } else { TokenType::Data };
        events.extend(span(token_type, index, end));
        index = end;
    }
    events
}

/// Resolve the attention in a line of text, and render what comes out.
fn render(text: &str) -> String {
    let chars: Vec<char> = text.chars().collect();
    let parse_state = ParseState::new(parse_codes(&chars)).unwrap();
    let mut tokenizer = Tokenizer::new(place(0), 0, &parse_state);
    tokenizer.events = scan(text);
    tokenizer.point = place(chars.len());
    tokenizer.index = chars.len();
    resolve(&mut tokenizer);
    assert!(is_well_nested(&tokenizer.events));
    assert!(tokenizer
        .events
        .iter()
        .all(|event| event.token_type != TokenType::AttentionSequence));
    let mut out = String::new();
    let mut index = 0;
    while index < tokenizer.events.len() {
        let event = &tokenizer.events[index];
        match (event.event_type, event.token_type) {
            (Enter, TokenType::Emphasis) => out.push_str("<em>"),
            (Exit, TokenType::Emphasis) => out.push_str("</em>"),
            (Enter, TokenType::Strong) => out.push_str("<strong>"),
            (Exit, TokenType::Strong) => out.push_str("</strong>"),
            (Enter, TokenType::Data) => {
                let exit = &tokenizer.events[index + 1];
                assert_eq!(exit.token_type, TokenType::Data);
                out.extend(&chars[event.index..exit.index]);
            }
            (Enter, TokenType::EmphasisSequence) => {
                assert_eq!(tokenizer.events[index + 1].index - event.index, 1);
            }
            (Enter, TokenType::StrongSequence) => {
                assert_eq!(tokenizer.events[index + 1].index - event.index, 2);
            }
            _ => {}
        }
        index += 1;
    }
    out
}

#[test]
fn emphasis_and_strong() {
    assert_eq!(render("*a*"), "<em>a</em>");
    assert_eq!(render("_a_"), "<em>a</em>");
    assert_eq!(render("**a**"), "<strong>a</strong>");
    assert_eq!(render("__a__"), "<strong>a</strong>");
    assert_eq!(render("a"), "a");
    assert_eq!(render(""), "");
}

#[test]
fn three_markers_make_strong_in_emphasis() {
    assert_eq!(render("***a***"), "<em><strong>a</strong></em>");
    assert_eq!(render("***a** b*"), "<em><strong>a</strong> b</em>");
    assert_eq!(render("***a* b**"), "<strong><em>a</em> b</strong>");
    assert_eq!(render("*a **b***"), "<em>a <strong>b</strong></em>");
    assert_eq!(render("**a *b***"), "<strong>a <em>b</em></strong>");
    assert_eq!(render("****a****"), "<strong><strong>a</strong></strong>");
}

#[test]
fn attention_obeys_the_rule_of_three() {
    assert_eq!(render("a *b** c*"), "a <em>b</em>* c*");
    assert_eq!(render("*foo**bar*"), "<em>foo**bar</em>");
    assert_eq!(render("*foo**bar**baz*"), "<em>foo<strong>bar</strong>baz</em>");
    assert_eq!(render("**foo*bar**"), "<strong>foo*bar</strong>");
    assert_eq!(render("*foo**bar***"), "<em>foo<strong>bar</strong></em>");
    // Both sizes are multiples of three: the rule does not apply.
    assert_eq!(render("foo***bar***baz"), "foo<em><strong>bar</strong></em>baz");
    assert_eq!(render("foo******bar*********baz"),
        "foo<strong><strong><strong>bar</strong></strong></strong>***baz");
}

#[test]
fn markers_next_to_whitespace_do_not_pair() {
    assert_eq!(render("a * b*"), "a * b*");
    assert_eq!(render("*a *"), "*a *");
    assert_eq!(render("* a *"), "* a *");
    assert_eq!(render("** a**"), "** a**");
    assert_eq!(render("*\u{a0}a*"), "*\u{a0}a*");
}

#[test]
fn underscores_do_not_pair_inside_words() {
    assert_eq!(render("a_b_c"), "a_b_c");
    assert_eq!(render("a*b*c"), "a<em>b</em>c");
    assert_eq!(render("_a_b"), "_a_b");
    assert_eq!(render("a_b_"), "a_b_");
    assert_eq!(render("_(a)_"), "<em>(a)</em>");
    assert_eq!(render("a_\"b\"_c"), "a_\"b\"_c");
    assert_eq!(render("a-_(b)_"), "a-<em>(b)</em>");
}

#[test]
fn punctuation_matters() {
    assert_eq!(render("a*\"b\"*"), "a*\"b\"*");
    assert_eq!(render("*(*a*)*"), "<em>(<em>a</em>)</em>");
    assert_eq!(render("*(**a**)*"), "<em>(<strong>a</strong>)</em>");
}

#[test]
fn markers_of_different_kinds_do_not_pair() {
    assert_eq!(render("*a_"), "*a_");
    assert_eq!(render("_a*"), "_a*");
    assert_eq!(render("*a _b_ c*"), "<em>a <em>b</em> c</em>");
    assert_eq!(render("_a *b* c_"), "<em>a <em>b</em> c</em>");
}

#[test]
fn attention_does_not_overlap() {
    assert_eq!(render("*a _b* c_"), "<em>a _b</em> c_");
    assert_eq!(render("_a *b_ c*"), "<em>a *b</em> c*");
    assert_eq!(render("*a __b *c d__ e*"), "<em>a <strong>b *c d</strong> e</em>");
    // Markers of one kind pair as far as they go around.
    assert_eq!(render("*a **b* c**"), "<em>a <em><em>b</em> c</em></em>");
    assert_eq!(render("**a *b** c*"), "<em><em>a <em>b</em></em> c</em>");
}

#[test]
fn nearest_opener_wins() {
    assert_eq!(render("*a *b*"), "*a <em>b</em>");
    assert_eq!(render("**a **b**"), "**a <strong>b</strong>");
    assert_eq!(render("*a* b*"), "<em>a</em> b*");
    assert_eq!(render("*a *b* c*"), "<em>a <em>b</em> c</em>");
}

#[test]
fn places_of_the_new_events() {
    let chars: Vec<char> = "***a***".chars().collect();
    let parse_state = ParseState::new(parse_codes(&chars)).unwrap();
    let mut tokenizer = Tokenizer::new(place(0), 0, &parse_state);
    tokenizer.events = scan("***a***");
    tokenizer.point = place(7);
    tokenizer.index = 7;
    resolve(&mut tokenizer);
    let found: Vec<(EventType, TokenType, usize)> = tokenizer
        .events
        .iter()
        .map(|event| {
            assert_eq!(event.point, place(event.index));
            (event.event_type, event.token_type, event.index)
        })
        .collect();
    assert_eq!(
        found,
        vec![
            (Enter, TokenType::Emphasis, 0),
            (Enter, TokenType::EmphasisSequence, 0),
            (Exit, TokenType::EmphasisSequence, 1),
            (Enter, TokenType::EmphasisText, 1),
            (Enter, TokenType::Strong, 1),
            (Enter, TokenType::StrongSequence, 1),
            (Exit, TokenType::StrongSequence, 3),
            (Enter, TokenType::StrongText, 3),
            (Enter, TokenType::Data, 3),
            (Exit, TokenType::Data, 4),
            (Exit, TokenType::StrongText, 4),
            (Enter, TokenType::StrongSequence, 4),
            (Exit, TokenType::StrongSequence, 6),
            (Exit, TokenType::Strong, 6),
            (Exit, TokenType::EmphasisText, 6),
            (Enter, TokenType::EmphasisSequence, 6),
            (Exit, TokenType::EmphasisSequence, 7),
            (Exit, TokenType::Emphasis, 7),
        ]
    );
}

#[test]
fn sequences_in_different_spans_do_not_pair() {
    let chars: Vec<char> = "*a b*".chars().collect();
    let parse_state = ParseState::new(parse_codes(&chars)).unwrap();
    let mut tokenizer = Tokenizer::new(place(0), 0, &parse_state);
    // The second sequence lies one level deeper.
    let mut events = span(TokenType::AttentionSequence, 0, 1);
    events.extend(span(TokenType::Data, 1, 3));
    let inner = span(TokenType::Label, 3, 5);
    events.push(inner[0]);
    events.extend(span(TokenType::Data, 3, 4));
    events.extend(span(TokenType::AttentionSequence, 4, 5));
    events.push(inner[1]);
    tokenizer.events = events.clone();
    tokenizer.point = place(5);
    tokenizer.index = 5;
    resolve(&mut tokenizer);
    let expected: Vec<Event> = events
        .iter()
        .map(|event| Event {
            token_type: if event.token_type == TokenType::AttentionSequence {
                TokenType::Data
            } else {
                event.token_type
            },
            ..*event
        })
        .collect();
    assert_eq!(tokenizer.events, expected);
}

#[test]
fn events_that_would_not_fit_are_left_alone() {
    let chars: Vec<char> = "*a*".chars().collect();
    let parse_state = ParseState::new(parse_codes(&chars)).unwrap();
    let mut tokenizer = Tokenizer::new(place(0), 0, &parse_state);
    tokenizer.events = scan("*a*");
    // The tokenizer stands before the end of its events.
    tokenizer.point = place(1);
    tokenizer.index = 1;
    assert!(!resolve(&mut tokenizer));
    assert_eq!(tokenizer.events, scan("*a*"));
    assert_eq!(resolve_known(&mut tokenizer, &"attention".to_string()), Some(false));
    tokenizer.point = place(3);
    assert!(resolve(&mut tokenizer));
}

#[test]
fn characters_are_classified() {
    assert_eq!(classify_character(Code::End), GroupKind::Whitespace);
    assert_eq!(classify_character(Code::CarriageReturnLineFeed), GroupKind::Whitespace);
    assert_eq!(classify_character(Code::VirtualSpace), GroupKind::Whitespace);
    for character in [' ', '\t', '\n', '\r', '\u{b}', '\u{c}', '\u{85}', '\u{a0}', '\u{1680}',
        '\u{2000}', '\u{2005}', '\u{200a}', '\u{2028}', '\u{2029}', '\u{202f}', '\u{205f}',
        '\u{3000}']
    {
        assert_eq!(classify_character(Code::Char(character)), GroupKind::Whitespace);
        assert!(character.is_whitespace());
    }
    for character in ['!', '"', '#', '*', '/', ':', ';', '@', '[', '\\', '_', '`', '{', '|', '~'] {
        assert_eq!(classify_character(Code::Char(character)), GroupKind::Punctuation);
    }
    for character in ['\u{a1}', '\u{ab}', '\u{bb}', '\u{2014}', '\u{2018}', '\u{201d}',
        '\u{2026}', '\u{3001}', '\u{300c}', '\u{ff01}', '\u{37e}', '\u{1e95f}']
    {
        assert_eq!(classify_character(Code::Char(character)), GroupKind::Punctuation);
    }
    for character in ['a', 'Z', '0', '9', '\u{e9}', '\u{200b}', '\u{8}', '\u{e}', '\u{7f}',
        '\u{a2}', '\u{b0}', '\u{d7}', '\u{20ac}', '\u{2190}', '\u{1f600}']
    {
        assert_eq!(classify_character(Code::Char(character)), GroupKind::Other);
        assert!(!character.is_whitespace());
    }
}

#[test]
fn whitespace_is_what_the_standard_library_says() {
    let mut code = 0u32;
    while code <= 0x10ffff {
        if let Some(character) = char::from_u32(code) {
            let whitespace = classify_character(Code::Char(character)) == GroupKind::Whitespace;
            assert_eq!(whitespace, character.is_whitespace(), "{:x}", code);
            if character.is_ascii() {
                let punctuation =
                    classify_character(Code::Char(character)) == GroupKind::Punctuation;
                assert_eq!(punctuation, character.is_ascii_punctuation(), "{:x}", code);
            }
        }
        code += 1;
    }
}

#[test]
fn punctuation_is_counted() {
    let mut count = 0;
    let mut runs = 0;
    let mut inside = false;
    let mut code = 0u32;
    while code <= 0x10ffff {
        let punctuation = match char::from_u32(code) {
            Some(character) => {
                classify_character(Code::Char(character)) == GroupKind::Punctuation
            }
            None => false,
        };
        if punctuation {
            count += 1;
            if !inside {
                runs += 1;
            }
        }
        inside = punctuation;
        code += 1;
    }
    assert_eq!(count, 828);
    assert_eq!(runs, 184);
}

#[test]
fn unicode_punctuation_flanks_like_punctuation() {
    assert_eq!(render("\u{ab}*a*\u{bb}"), "\u{ab}<em>a</em>\u{bb}");
    assert_eq!(render("a*\u{201c}b\u{201d}*"), "a*\u{201c}b\u{201d}*");
    assert_eq!(render("a_\u{2014}b_"), "a_\u{2014}b_");
}

#[test]
fn flanking() {
    assert_eq!(flank(Asterisk, Whitespace, Other), (true, false));
    assert_eq!(flank(Asterisk, Other, Whitespace), (false, true));
    assert_eq!(flank(Asterisk, Other, Other), (true, true));
    assert_eq!(flank(Asterisk, Whitespace, Whitespace), (false, false));
    assert_eq!(flank(Asterisk, Punctuation, Punctuation), (true, true));
    assert_eq!(flank(Asterisk, Other, Punctuation), (false, true));
    assert_eq!(flank(Asterisk, Punctuation, Other), (true, false));
    assert_eq!(flank(Asterisk, Whitespace, Punctuation), (true, false));
    assert_eq!(flank(Asterisk, Punctuation, Whitespace), (false, true));
    assert_eq!(flank(Underscore, Whitespace, Other), (true, false));
    assert_eq!(flank(Underscore, Other, Whitespace), (false, true));
    assert_eq!(flank(Underscore, Other, Other), (false, false));
    assert_eq!(flank(Underscore, Punctuation, Punctuation), (true, true));
    assert_eq!(flank(Underscore, Punctuation, Other), (true, false));
    assert_eq!(flank(Underscore, Other, Punctuation), (false, true));
}

fn sequence(marker: MarkerKind, at: usize, size: usize, open: bool, close: bool) -> Sequence {
    Sequence {
        marker,
        event_index: at * 2,
        balance: 1,
        start_point: place(at * 10),
        start_index: at * 10,
        end_point: place(at * 10 + size),
        end_index: at * 10 + size,
        size,
        open,
        close,
    }
}

#[test]
fn rule_of_three() {
    let asterisk = MarkerKind::Asterisk;
    // Neither can do both: never ruled out.
    assert!(!is_ruled_out(sequence(asterisk, 0, 1, true, false), sequence(asterisk, 1, 2, false, true)));
    // One can do both, and the sum is a multiple of three.
    assert!(is_ruled_out(sequence(asterisk, 0, 1, true, true), sequence(asterisk, 1, 2, false, true)));
    assert!(is_ruled_out(sequence(asterisk, 0, 2, true, false), sequence(asterisk, 1, 1, true, true)));
    assert!(is_ruled_out(sequence(asterisk, 0, 4, true, true), sequence(asterisk, 1, 5, true, true)));
    // The sum is no multiple of three.
    assert!(!is_ruled_out(sequence(asterisk, 0, 1, true, true), sequence(asterisk, 1, 1, true, true)));
    assert!(!is_ruled_out(sequence(asterisk, 0, 2, true, true), sequence(asterisk, 1, 2, true, true)));
    // Both are multiples of three.
    assert!(!is_ruled_out(sequence(asterisk, 0, 3, true, true), sequence(asterisk, 1, 3, true, true)));
    assert!(!is_ruled_out(sequence(asterisk, 0, 6, true, true), sequence(asterisk, 1, 3, true, true)));
}

#[test]
fn openers_are_found_and_paired() {
    let asterisk = MarkerKind::Asterisk;
    let underscore = MarkerKind::Underscore;
    let mut sequences = vec![
        sequence(asterisk, 0, 3, true, false),
        sequence(underscore, 1, 1, true, false),
        sequence(asterisk, 2, 1, false, false),
        sequence(asterisk, 3, 2, false, true),
    ];
    assert_eq!(find_opener(&sequences, 3), Some(0));
    assert_eq!(find_opener(&sequences, 2), Some(0));
    assert_eq!(find_opener(&sequences, 1), None);
    assert_eq!(find_opener(&sequences, 0), None);
    let take = pair(&mut sequences, 0, 3);
    assert_eq!(take, 2);
    assert_eq!(sequences[0].size, 1);
    assert_eq!(sequences[0].end_index, 1);
    assert_eq!(sequences[0].end_point, place(1));
    assert_eq!(sequences[0].start_index, 0);
    assert!(sequences[0].open);
    assert_eq!(sequences[3].size, 0);
    assert_eq!(sequences[3].start_index, 32);
    assert_eq!(sequences[3].start_point, place(32));
    assert!(!sequences[3].close);
    // What lies between can open no more.
    assert!(!sequences[1].open);
    assert_eq!(sequences[1].size, 1);
}

#[test]
fn matching_reports_what_was_taken() {
    let asterisk = MarkerKind::Asterisk;
    let mut sequences = vec![
        sequence(asterisk, 0, 3, true, false),
        sequence(asterisk, 1, 2, false, true),
        sequence(asterisk, 2, 2, false, true),
    ];
    let (closings, openings) = match_sequences(&mut sequences);
    assert_eq!(closings, vec![vec![], vec![2], vec![1]]);
    assert_eq!(openings, vec![vec![2, 1], vec![], vec![]]);
    assert_eq!(sequences[0].size, 0);
    assert_eq!(sequences[1].size, 0);
    assert_eq!(sequences[2].size, 1);
    assert_eq!(sequences[2].start_index, 21);
}

#[test]
fn sequences_are_found_in_the_events() {
    let chars: Vec<char> = "a**b_".chars().collect();
    let codes = parse_codes(&chars);
    let events = scan("a**b_");
    let sequences = get_sequences(&events, &codes);
    assert_eq!(
        sequences,
        vec![
            Sequence {
                marker: MarkerKind::Asterisk,
                event_index: 2,
                balance: 1,
                start_point: place(1),
                start_index: 1,
                end_point: place(3),
                end_index: 3,
                size: 2,
                open: true,
                close: true,
            },
            Sequence {
                marker: MarkerKind::Underscore,
                event_index: 6,
                balance: 1,
                start_point: place(4),
                start_index: 4,
                end_point: place(5),
                end_index: 5,
                size: 1,
                open: false,
                close: true,
            },
        ]
    );
}

#[test]
fn links_follow_the_events_through_attention() {
    let chars: Vec<char> = "*a*bc".chars().collect();
    let parse_state = ParseState::new(parse_codes(&chars)).unwrap();
    let mut tokenizer = Tokenizer::new(place(0), 0, &parse_state);
    let mut events = scan("*a*");
    let chunk = |index: usize, previous: Option<usize>, next: Option<usize>| Event {
        content_type: Some(ContentType::String),
        previous,
        next,
        ..span(TokenType::Data, index, index)[0]
    };
    events.push(chunk(3, None, Some(8)));
    events.push(span(TokenType::Data, 3, 4)[1]);
    events.push(chunk(4, Some(6), None));
    events.push(span(TokenType::Data, 4, 5)[1]);
    tokenizer.events = events;
    tokenizer.point = place(5);
    tokenizer.index = 5;
    resolve(&mut tokenizer);
    // Each of the two sequences made way for four events.
    assert_eq!(tokenizer.events.len(), 14);
    assert_eq!(tokenizer.events[10], chunk(3, None, Some(12)));
    assert_eq!(tokenizer.events[12], chunk(4, Some(10), None));
}

#[test]
fn known_resolvers_are_run_by_their_names() {
    let chars: Vec<char> = "*a*".chars().collect();
    let parse_state = ParseState::new(parse_codes(&chars)).unwrap();
    let mut tokenizer = Tokenizer::new(place(0), 0, &parse_state);
    tokenizer.events = scan("*a*");
    tokenizer.point = place(3);
    tokenizer.index = 3;
    assert_eq!(resolve_known(&mut tokenizer, &"paragraph".to_string()), None);
    assert_eq!(tokenizer.events, scan("*a*"));
    assert_eq!(resolve_known(&mut tokenizer, &"media".to_string()), Some(true));
    assert_eq!(tokenizer.events, scan("*a*"));
    assert_eq!(resolve_known(&mut tokenizer, &"attention".to_string()), Some(true));
    assert_eq!(tokenizer.events.len(), 10);
    assert_eq!(tokenizer.events[0].token_type, TokenType::Emphasis);
}
