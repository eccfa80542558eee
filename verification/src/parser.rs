//! The code stream: what the tokenizers read.

use crate::event::Point;
use vstd::prelude::*;

verus! {

/// A logical unit of input.
#[derive(Debug, Clone, Copy, PartialEq, Eq, Structural)]
pub enum Code {
    /// End of the input.  It is fed to the state machine but is not part of
    /// the stream and takes up no room.
    End,
    /// A carriage return directly followed by a line feed: one code, two bytes.
    CarriageReturnLineFeed,
    /// Padding that expands a tab up to the next tab stop: a code without a
    /// byte of its own.
    VirtualSpace,
    /// Any other character.
    Char(char),
}

impl Code {
    /// Number of source bytes that the code accounts for.
    pub open spec fn width(self) -> int {
        match self {
            Code::CarriageReturnLineFeed => 2,
            Code::Char(_) => 1,
            Code::VirtualSpace => 0,
            Code::End => 0,
        }
    }

    /// Whether the code ends a line.
    pub open spec fn is_eol(self) -> bool {
        self == Code::CarriageReturnLineFeed || self == Code::Char('\n') || self == Code::Char('\r')
    }

    /// Whether the code ends a line.
    pub fn ends_line(self) -> (r: bool)
        ensures
            r == self.is_eol(),
    {
        match self {
            Code::CarriageReturnLineFeed => true,
            Code::Char(c) => c == '\n' || c == '\r',
            _ => false,
        }
    }

    /// Number of source bytes that the code accounts for.
    pub fn size(self) -> (r: usize)
        ensures
            r == self.width(),
    {
        match self {
            Code::CarriageReturnLineFeed => 2,
            Code::Char(_) => 1,
            _ => 0,
        }
    }
}

/// Number of source bytes taken up by the first `index` codes.
pub open spec fn byte_offset(codes: Seq<Code>, index: int) -> int
    decreases index,
{
    if index <= 0 {
        0
    } else {
        byte_offset(codes, index - 1) + codes[index - 1].width()
    }
}

/// Index reached from `index` by passing over `bytes` bytes without leaving
/// the line: the walk stops at a line ending and at the end of the stream.
/// Zero-width codes are passed over only while bytes are still wanted.
pub open spec fn skip_to(codes: Seq<Code>, index: int, bytes: int) -> int
    decreases codes.len() - index,
{
    if bytes <= 0 || index < 0 || index >= codes.len() || codes[index].is_eol() {
        index
    } else {
        skip_to(codes, index + 1, bytes - codes[index].width())
    }
}

/// The offset grows by at most two bytes per code.
pub proof fn lemma_byte_offset_bounds(codes: Seq<Code>, index: int)
    requires
        0 <= index <= codes.len(),
    ensures
        0 <= byte_offset(codes, index) <= 2 * index,
    decreases index,
{
    if index > 0 {
        lemma_byte_offset_bounds(codes, index - 1);
    }
}

/// The point at which the code at `index` stands when lines are counted
/// from 1 and columns from 1 at the start of each line, byte by byte.
pub open spec fn point_of(codes: Seq<Code>, index: int) -> Point
    decreases index,
{
    if index <= 0 {
        Point { line: 1, column: 1, offset: 0 }
    } else {
        let before = point_of(codes, index - 1);
        let code = codes[index - 1];
        if code.is_eol() {
            Point {
                line: (before.line + 1) as usize,
                column: 1,
                offset: (before.offset + code.width()) as usize,
            }
        } else {
            Point {
                line: before.line,
                column: (before.column + code.width()) as usize,
                offset: (before.offset + code.width()) as usize,
            }
        }
    }
}

/// What every tokenizer of one parse shares: the code stream.
pub struct ParseState {
    /// The whole input, as codes.
    pub codes: Vec<Code>,
}

impl ParseState {
    /// The stream is short enough for offsets to be counted in a `usize`,
    /// and the end of the input is no part of it.
    pub open spec fn wf(&self) -> bool {
        &&& 2 * self.codes.len() + 2 <= usize::MAX
        &&& forall|i: int| 0 <= i < self.codes.len() ==> self.codes[i] != Code::End
    }

    /// Whether `point` and `index` name one and the same place in the stream:
    /// the offset is the number of bytes before `index`, and line and column
    /// are 1-based and no further on than the codes allow.
    pub open spec fn locates(&self, point: Point, index: usize) -> bool {
        &&& index <= self.codes.len()
        &&& point.offset == byte_offset(self.codes@, index as int)
        &&& 1 <= point.line <= index + 1
        &&& 1 <= point.column <= point.offset + 1
    }

    /// The point at which the code at `index` stands, counted from the start
    /// of the stream: `None` beyond the end of the stream.
    pub fn point_at(&self, index: usize) -> (r: Option<Point>)
        requires
            self.wf(),
        ensures
            r == if index <= self.codes.len() {
                Some(point_of(self.codes@, index as int))
            } else {
                None
            },
            r matches Some(point) ==> self.locates(point, index),
    {
        if index > self.codes.len() {
            return None;
        }
        let mut point = Point { line: 1, column: 1, offset: 0 };
        let mut at: usize = 0;
        while at < index
            invariant
                self.wf(),
                at <= index <= self.codes.len(),
                self.locates(point, at),
                point == point_of(self.codes@, at as int),
            decreases index - at,
        {
            let code = self.codes[at];
            proof {
                lemma_byte_offset_bounds(self.codes@, at as int);
                lemma_byte_offset_bounds(self.codes@, at + 1);
            }
            if code.ends_line() {
                point.line += 1;
                point.column = 1;
            } else {
                point.column += code.size();
            }
            point.offset += code.size();
            at += 1;
        }
        Some(point)
    }

    /// Wrap a code stream; `None` when it is too long to be addressed or
    /// holds the end of the input as one of its codes.
    pub fn new(codes: Vec<Code>) -> (r: Option<ParseState>)
        ensures
            r is Some <==> (ParseState { codes }).wf(),
            r matches Some(state) ==> state.codes == codes,
    {
        if codes.len() > (usize::MAX - 2) / 2 {
            return None;
        }
        let mut index: usize = 0;
        while index < codes.len()
            invariant
                index <= codes.len(),
                forall|i: int| 0 <= i < index ==> codes[i] != Code::End,
            decreases codes.len() - index,
        {
            match codes[index] {
                Code::End => {
                    return None;
                },
                _ => {},
            }
            index += 1;
        }
        Some(ParseState { codes })
    }
}


/// Width of a tab stop, in columns.
pub const TAB_SIZE: usize = 4;

/// Number of virtual spaces that pad a tab in column `column` of its tab
/// stop, so that what comes after the tab starts a new tab stop: at a column
/// of the line that is one more than a multiple of the tab size.
pub open spec fn tab_padding(column: int) -> int {
    TAB_SIZE - column
}

/// The column after `column`, counted within the tab stop: from 1 up to the
/// tab size, and then from 1 again.
pub open spec fn next_column(column: int) -> int {
    if column >= TAB_SIZE {
        1
    } else {
        column + 1
    }
}

/// The code of a character by itself.
pub open spec fn plain(character: char) -> Code {
    Code::Char(character)
}

/// The codes for the characters from `at` on, the first of which stands in
/// column `column` of its tab stop.
///
/// A carriage return directly followed by a line feed is one code.  A tab
/// is padded with virtual spaces up to the next tab stop, the padding coming
/// before the tab itself.  Line endings start a new line at column 1.
pub open spec fn codes_of(chars: Seq<char>, at: int, column: int) -> Seq<Code>
    decreases chars.len() - at,
{
    if at < 0 || at >= chars.len() {
        Seq::empty()
    } else if chars[at] == '\r' && at + 1 < chars.len() && chars[at + 1] == '\n' {
        seq![Code::CarriageReturnLineFeed] + codes_of(chars, at + 2, 1)
    } else if chars[at] == '\r' || chars[at] == '\n' {
        seq![plain(chars[at])] + codes_of(chars, at + 1, 1)
    } else if chars[at] == '\t' {
        let padding = tab_padding(column);
        Seq::new(padding as nat, |i: int| Code::VirtualSpace) + seq![Code::Char('\t')] + codes_of(
            chars,
            at + 1,
            1,
        )
    } else {
        seq![plain(chars[at])] + codes_of(chars, at + 1, next_column(column))
    }
}

/// Turn characters into codes.
pub fn parse_codes(chars: &[char]) -> (codes: Vec<Code>)
    ensures
        codes@ == codes_of(chars@, 0, 1),
{
    let mut codes: Vec<Code> = Vec::new();
    let mut at: usize = 0;
    // Column within the tab stop.
    let mut column: usize = 1;
    proof {
        assert(codes@ + codes_of(chars@, 0, 1) =~= codes_of(chars@, 0, 1));
    }
    while at < chars.len()
        invariant
            at <= chars.len(),
            1 <= column <= TAB_SIZE,
            codes@ + codes_of(chars@, at as int, column as int) == codes_of(chars@, 0, 1),
        decreases chars.len() - at,
    {
        let character = chars[at];
        let ghost before = codes@;
        if character == '\r' && at + 1 < chars.len() && chars[at + 1] == '\n' {
            codes.push(Code::CarriageReturnLineFeed);
            proof {
                assert(codes@ + codes_of(chars@, at + 2, 1) =~= before + (
                seq![Code::CarriageReturnLineFeed] + codes_of(chars@, at + 2, 1)));
            }
            at += 2;
            column = 1;
        } else if character == '\r' || character == '\n' {
            codes.push(Code::Char(character));
            proof {
                assert(codes@ + codes_of(chars@, at + 1, 1) =~= before + (seq![Code::Char(character)]
                    + codes_of(chars@, at + 1, 1)));
            }
            at += 1;
            column = 1;
        } else if character == '\t' {
            let padding = TAB_SIZE - column;
            let mut index: usize = 0;
            while index < padding
                invariant
                    index <= padding,
                    codes@ == before + Seq::new(index as nat, |i: int| Code::VirtualSpace),
                decreases padding - index,
            {
                codes.push(Code::VirtualSpace);
                index += 1;
                proof {
                    assert(codes@ =~= before + Seq::new(index as nat, |i: int| Code::VirtualSpace));
                }
            }
            codes.push(Code::Char('\t'));
            proof {
                assert(codes@ + codes_of(chars@, at + 1, 1) =~= before + (Seq::new(
                    padding as nat,
                    |i: int| Code::VirtualSpace,
                ) + seq![Code::Char('\t')] + codes_of(chars@, at + 1, 1)));
            }
            at += 1;
            column = 1;
        } else {
            codes.push(Code::Char(character));
            let after: usize = if column >= TAB_SIZE {
                1
            } else {
                column + 1
            };
            proof {
                assert(codes@ + codes_of(chars@, at + 1, after as int) =~= before + (
                seq![plain(character)] + codes_of(chars@, at + 1, after as int)));
            }
            at += 1;
            column = after;
        }
    }
    proof {
        assert(codes@ + Seq::<Code>::empty() =~= codes@);
    }
    codes
}

/// Type of line endings in markdown.
#[derive(Debug, Clone, Copy, PartialEq, Eq, Structural)]
pub enum LineEnding {
    /// Both a carriage return (`\r`) and a line feed (`\n`).
    CarriageReturnLineFeed,
    /// Sole carriage return (`\r`).
    CarriageReturn,
    /// Sole line feed (`\n`).
    LineFeed,
}

/// The line ending that a code stands for, if it is one.
pub open spec fn line_ending_of(code: Code) -> Option<LineEnding> {
    if code == Code::CarriageReturnLineFeed {
        Some(LineEnding::CarriageReturnLineFeed)
    } else if code == Code::Char('\r') {
        Some(LineEnding::CarriageReturn)
    } else if code == Code::Char('\n') {
        Some(LineEnding::LineFeed)
    } else {
        None
    }
}

/// The first line ending among the codes from `from` on.
pub open spec fn first_line_ending(codes: Seq<Code>, from: int) -> Option<LineEnding>
    decreases codes.len() - from,
{
    if from < 0 || from >= codes.len() {
        None
    } else if line_ending_of(codes[from]) is Some {
        line_ending_of(codes[from])
    } else {
        first_line_ending(codes, from + 1)
    }
}

/// The line ending to use where one has to be made up: the first line
/// ending of the input; if the input has none, the given default; and if
/// none is given, a line feed.
pub fn infer_line_ending(codes: &[Code], default_line_ending: Option<LineEnding>) -> (r:
    LineEnding)
    ensures
        r == match first_line_ending(codes@, 0) {
            Some(line_ending) => line_ending,
            None => match default_line_ending {
                Some(line_ending) => line_ending,
                None => LineEnding::LineFeed,
            },
        },
{
    let mut index: usize = 0;
    while index < codes.len()
        invariant
            index <= codes.len(),
            first_line_ending(codes@, index as int) == first_line_ending(codes@, 0),
        decreases codes.len() - index,
    {
        match codes[index] {
            Code::CarriageReturnLineFeed => {
                return LineEnding::CarriageReturnLineFeed;
            },
            Code::Char(char) => {
                if char == '\r' {
                    return LineEnding::CarriageReturn;
                } else if char == '\n' {
                    return LineEnding::LineFeed;
                }
            },
            _ => {},
        }
        index += 1;
    }
    match default_line_ending {
        Some(line_ending) => line_ending,
        None => LineEnding::LineFeed,
    }
}

} // verus!
